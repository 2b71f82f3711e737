use runic::decimal::{decimal, parse_u64, parse_usize};
use runic::layout::{is_power_of_two, Layout, LayoutSpec};
use runic::size_class::{SizeClasses, COUNT};

fn layout_spec(size: usize, align: usize) -> LayoutSpec {
    LayoutSpec::from_layout(Layout::from_size_align(size, align).unwrap())
}

#[test]
fn layout_spec_normalizes_zero_size_to_one() {
    let layout = Layout::from_size_align(0, 8).unwrap();
    let spec = LayoutSpec::from_layout(layout);

    assert_eq!(spec.size(), 1);
}

#[test]
fn layout_spec_preserves_alignment() {
    let spec = layout_spec(32, 64);

    assert!(spec.is_addr_aligned(64));
    assert!(!spec.is_addr_aligned(32));
}

#[test]
fn layout_spec_align_addr_rounds_up() {
    let spec = layout_spec(1, 16);

    assert_eq!(spec.align_addr(17), Some(32));
}

#[test]
fn layout_spec_align_addr_keeps_aligned_addr() {
    let spec = layout_spec(1, 16);

    assert_eq!(spec.align_addr(32), Some(32));
}

#[test]
fn layout_spec_detects_aligned_address() {
    let spec = layout_spec(1, 16);

    assert!(spec.is_addr_aligned(32));
    assert!(!spec.is_addr_aligned(33));
}

#[test]
fn layout_spec_align_addr_detects_overflow() {
    let spec = layout_spec(1, 16);

    assert_eq!(spec.align_addr(usize::MAX), None);
}

#[test]
fn layout_spec_mapping_len_rounds_to_page() {
    let spec = layout_spec(4097, 8);

    assert_eq!(spec.mapping_len(4096), Some(8192));
}

#[test]
fn layout_spec_mapping_len_uses_align_minus_one_headroom() {
    // size + align would round past one page; size + align - 1 stays exact.
    let spec = layout_spec(4089, 8);

    assert_eq!(spec.mapping_len(4096), Some(4096));
    assert_eq!(
        4089usize.checked_add(8).map(|v| (v + 4095) & !4095),
        Some(8192)
    );
    assert_eq!(
        4089usize.checked_add(8 - 1).map(|v| (v + 4095) & !4095),
        Some(4096)
    );
}

#[test]
fn layout_spec_mapping_len_detects_overflow() {
    let spec = LayoutSpec {
        size: usize::MAX,
        align: 1,
    };

    assert_eq!(spec.mapping_len(4096), None);
}

#[test]
fn layouts_need_a_power_of_two_and_room() {
    assert!(Layout::from_size_align(8, 3).is_none());
    assert!(Layout::from_size_align(8, 0).is_none());
    assert!(Layout::from_size_align(usize::MAX, 8).is_none());
    assert!(LayoutSpec::from_size_align(8, 12).is_none());
    assert!(is_power_of_two(4096));
    assert!(!is_power_of_two(4095));
    assert!(!is_power_of_two(0));
}

#[test]
fn classes_serve_the_smallest_block_that_fits() {
    assert_eq!(SizeClasses::class_for(layout_spec(1, 1)).unwrap().size(), 8);
    assert_eq!(SizeClasses::class_for(layout_spec(49, 8)).unwrap().size(), 64);
    assert_eq!(SizeClasses::class_for(layout_spec(65, 8)).unwrap().size(), 80);
    assert_eq!(
        SizeClasses::class_for(layout_spec(32768, 8)).unwrap().index(),
        COUNT - 1
    );
    assert!(SizeClasses::class_for(layout_spec(32769, 8)).is_none());
    for index in 1..COUNT {
        assert!(SizeClasses::at(index - 1).size() < SizeClasses::at(index).size());
    }
}

#[test]
fn decimal_text_reads_back() {
    assert_eq!(decimal(0), b"0");
    assert_eq!(decimal(90_210), b"90210");
    assert_eq!(parse_usize(&decimal(usize::MAX)), Some(usize::MAX));
    assert_eq!(parse_u64(b"+42"), Some(42));
    assert_eq!(parse_u64(b"4 2"), None);
    assert_eq!(parse_u64(b"18446744073709551616"), None);
}

#[test]
fn aligned_address_is_the_least_multiple() {
    let spec = layout_spec(1, 4096);
    let last = usize::MAX - 4095;

    assert_eq!(spec.align_addr(4097), Some(8192));
    assert_eq!(spec.align_addr(8192), Some(8192));
    assert_eq!(spec.align_addr(last), Some(last));
    assert_eq!(spec.align_addr(last + 1), None);
}

#[test]
fn mapping_holds_the_block_at_every_base() {
    let spec = layout_spec(5_000, 64);
    let len = spec.mapping_len(4096).unwrap();

    assert_eq!(len, 8_192);
    assert_eq!(spec.mapping_len(0), None);
    for base in [0, 1, 63, 64, 65, 0x1234_5678, usize::MAX - len] {
        let ptr = spec.align_addr(base).unwrap();
        assert!(base <= ptr && ptr + 5_000 <= base + len);
    }
}
