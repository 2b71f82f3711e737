use vstd::arithmetic::power2::{is_pow2, is_pow2_equiv, pow2};
use vstd::prelude::*;

verus! {

/// The least multiple of `align` that is at least `addr`.
pub open spec fn round_up(addr: int, align: int) -> int {
    ((addr + align - 1) / align) * align
}

/// A size and an alignment as a caller asks for them.
#[derive(Clone, Copy, Debug, PartialEq, Eq, Structural)]
pub struct Layout {
    pub size: usize,
    pub align: usize,
}

/// Whether a size and an alignment describe a block that can exist: a power of
/// two, and a size that still fits the address range once rounded up to it.
pub open spec fn valid_layout(size: int, align: int) -> bool {
    &&& is_pow2(align)
    &&& size <= isize::MAX - (align - 1)
}

/// Whether `value` is a power of two.
pub fn is_power_of_two(value: usize) -> (power: bool)
    ensures
        power == is_pow2(value as int),
{
    reveal(is_pow2);
    let mut rest: usize = value;
    if rest == 0 {
        return false;
    }
    while rest % 2 == 0
        invariant
            rest > 0,
            is_pow2(value as int) == is_pow2(rest as int),
        decreases rest,
    {
        reveal(is_pow2);
        rest = rest / 2;
    }
    proof {
        reveal(is_pow2);
    }
    rest == 1
}

/// Clearing the bits below a power of two rounds down to a multiple of it.
pub proof fn lemma_mask(value: usize, align: usize)
    requires
        is_pow2(align as int),
    ensures
        align > 0,
        value & ((align - 1) as usize) == value % align,
        value & !((align - 1) as usize) == value - value % align,
        (value - value % align) % (align as int) == 0,
{
    is_pow2_equiv(align as int);
    let n = choose|n: nat| vstd::arithmetic::power::pow(2, n) == align;
    assert(pow2(n) == align);
    vstd::arithmetic::power2::lemma2_to64();
    vstd::arithmetic::power2::lemma2_to64_rest();
    if n >= usize::BITS {
        if n > usize::BITS as nat {
            vstd::arithmetic::power2::lemma_pow2_strictly_increases(usize::BITS as nat, n);
        }
        assert(usize::BITS == 32 || usize::BITS == 64);
        assert(usize::BITS == 32 ==> usize::MAX == 0xffff_ffff);
        assert(pow2(usize::BITS as nat) > usize::MAX);
    }
    vstd::arithmetic::power2::lemma_pow2_pos(n);
    vstd::bits::lemma_usize_low_bits_mask_is_mod(value, n);
    assert(vstd::bits::low_bits_mask(n) == align - 1);
    let mask = (align - 1) as usize;
    assert((value & mask) <= value && value & !mask == (value - (value & mask)) as usize)
        by (bit_vector);
    vstd::arithmetic::div_mod::lemma_fundamental_div_mod(value as int, align as int);
    assert(value - value % align == align * (value / align));
    vstd::arithmetic::div_mod::lemma_mod_multiples_basic((value / align) as int, align as int);
    assert(align * (value / align) == (value / align) * align) by (nonlinear_arith);
}

/// Rounding up by adding `align - 1` and dropping the remainder.
pub proof fn lemma_round_up(addr: int, align: int)
    requires
        align > 0,
        addr >= 0,
    ensures
        round_up(addr, align) == (addr + align - 1) - (addr + align - 1) % align,
        addr <= round_up(addr, align) < addr + align,
        round_up(addr, align) % align == 0,
{
    let top = addr + align - 1;
    vstd::arithmetic::div_mod::lemma_fundamental_div_mod(top, align);
    assert(align * (top / align) == (top / align) * align) by (nonlinear_arith);
    vstd::arithmetic::div_mod::lemma_mod_multiples_basic(top / align, align);
    vstd::arithmetic::div_mod::lemma_mod_bound(top, align);
}

impl Layout {
    /// Both the size and the alignment can exist.
    pub open spec fn wf(self) -> bool {
        valid_layout(self.size as int, self.align as int)
    }

    pub fn from_size_align(size: usize, align: usize) -> (layout: Option<Self>)
        ensures
            valid_layout(size as int, align as int) ==> layout == Some(Layout { size, align }),
            !valid_layout(size as int, align as int) ==> layout is None,
    {
        if !is_power_of_two(align) {
            return None;
        }
        proof {
            reveal(is_pow2);
        }
        let limit: usize = isize::MAX as usize;
        if align - 1 > limit || size > limit - (align - 1) {
            return None;
        }
        Some(Self { size, align })
    }

    pub fn size(self) -> (size: usize)
        ensures
            size == self.size,
    {
        self.size
    }

    pub fn align(self) -> (align: usize)
        ensures
            align == self.align,
    {
        self.align
    }
}

/// A normalized, non-zero-size view of a [`Layout`].
#[derive(Clone, Copy, Debug, PartialEq, Eq, Structural)]
pub struct LayoutSpec {
    pub size: usize,
    pub align: usize,
}

impl LayoutSpec {
    /// The size is at least one and the alignment a power of two.
    pub open spec fn wf(self) -> bool {
        self.size > 0 && is_pow2(self.align as int)
    }

    /// The specification that `layout` asks for.
    pub open spec fn of(layout: Layout) -> Self {
        LayoutSpec {
            size: if layout.size == 0 {
                1
            } else {
                layout.size
            },
            align: layout.align,
        }
    }

    /// `addr` rounded up to the alignment, where that fits.
    pub open spec fn aligned(self, addr: usize) -> Option<usize> {
        if addr + self.align - 1 <= usize::MAX {
            Some(round_up(addr as int, self.align as int) as usize)
        } else {
            None
        }
    }

    /// Page-rounded bytes of a mapping for this allocation, where they fit.
    pub open spec fn mapped(self, page_size: usize) -> Option<usize> {
        if page_size > 0 && self.size + self.align - 1 + page_size - 1 <= usize::MAX {
            Some(self.spec_mapping_len(page_size as int) as usize)
        } else {
            None
        }
    }

    /// Page-rounded bytes of a mapping that holds this allocation at any base.
    pub open spec fn spec_mapping_len(self, page_size: int) -> int {
        round_up(self.size + self.align - 1, page_size)
    }

    pub fn from_layout(layout: Layout) -> (spec: Self)
        requires
            layout.wf(),
        ensures
            spec == Self::of(layout),
            spec.wf(),
    {
        let size: usize = if layout.size() == 0 {
            1
        } else {
            layout.size()
        };
        Self { size, align: layout.align() }
    }

    /// The normalized form of a size and an alignment that can exist.
    pub fn from_size_align(size: usize, align: usize) -> (spec: Option<Self>)
        ensures
            valid_layout(size as int, align as int) ==> spec == Some(
                Self::of(Layout { size, align }),
            ),
            !valid_layout(size as int, align as int) ==> spec is None,
            spec matches Some(spec) ==> spec.wf(),
    {
        match Layout::from_size_align(size, align) {
            Some(layout) => Some(Self::from_layout(layout)),
            None => None,
        }
    }

    pub fn size(self) -> (size: usize)
        ensures
            size == self.size,
    {
        self.size
    }

    /// `addr` rounded up to the alignment. `None` when the sum overflows.
    pub fn align_addr(self, addr: usize) -> (aligned: Option<usize>)
        requires
            self.wf(),
        ensures
            aligned == self.aligned(addr),
            aligned matches Some(value) ==> addr <= value < addr + self.align && value % self.align
                == 0,
    {
        proof {
            reveal(is_pow2);
        }
        let mask: usize = self.align - 1;
        match addr.checked_add(mask) {
            Some(value) => {
                proof {
                    lemma_mask(value, self.align);
                    lemma_round_up(addr as int, self.align as int);
                }
                Some(value & !mask)
            },
            None => None,
        }
    }

    pub fn is_addr_aligned(self, addr: usize) -> (aligned: bool)
        requires
            self.wf(),
        ensures
            aligned == (addr % self.align == 0),
    {
        proof {
            reveal(is_pow2);
            lemma_mask(addr, self.align);
        }
        addr & (self.align - 1) == 0
    }

    /// Returns the page-rounded length of a mapping that can hold this
    /// allocation at any address while still allowing the returned pointer
    /// to be rounded up to `align`.
    ///
    /// Worst-case alignment padding is `align - 1` bytes, so the mapping needs
    /// `size + align - 1` bytes before rounding up to `page_size`.
    pub fn mapping_len(self, page_size: usize) -> (len: Option<usize>)
        requires
            self.wf(),
            page_size == 0 || is_pow2(page_size as int),
        ensures
            len == self.mapped(page_size),
            len is Some <==> page_size > 0 && self.size + self.align - 1 + page_size - 1
                <= usize::MAX,
            len matches Some(value) ==> value == self.spec_mapping_len(page_size as int) && value
                % page_size == 0 && value >= self.size + self.align - 1 && value < self.size
                + self.align - 1 + page_size,
    {
        proof {
            reveal(is_pow2);
        }
        match self.size.checked_add(self.align - 1) {
            None => None,
            Some(padded) => match page_size.checked_sub(1) {
                None => None,
                Some(mask) => match padded.checked_add(mask) {
                    None => None,
                    Some(value) => {
                        proof {
                            lemma_mask(value, page_size);
                            lemma_round_up(padded as int, page_size as int);
                        }
                        Some(value & !mask)
                    },
                },
            },
        }
    }
}

/// The page size is a power of two.
pub proof fn lemma_page_size_pow2()
    ensures
        is_pow2(4096),
{
    reveal_with_fuel(is_pow2, 14);
}

/// A multiple of `align` that is less than another is less by `align` at least.
proof fn lemma_multiples(less: int, more: int, align: int)
    requires
        align > 0,
        less % align == 0,
        more % align == 0,
        less < more,
    ensures
        less + align <= more,
{
    vstd::arithmetic::div_mod::lemma_fundamental_div_mod(less, align);
    vstd::arithmetic::div_mod::lemma_fundamental_div_mod(more, align);
    let low = less / align;
    let high = more / align;
    assert(low < high) by (nonlinear_arith)
        requires
            align > 0,
            align * low < align * high,
    ;
    assert(align * low + align <= align * high) by (nonlinear_arith)
        requires
            align > 0,
            low + 1 <= high,
    ;
}

/// The first address that does not exist is a multiple of every power of two that does.
proof fn lemma_end_is_aligned(align: usize)
    requires
        is_pow2(align as int),
    ensures
        align > 0,
        (usize::MAX + 1) % (align as int) == 0,
{
    reveal(is_pow2);
    is_pow2_equiv(align as int);
    let n = choose|n: nat| vstd::arithmetic::power::pow(2, n) == align;
    assert(pow2(n) == align);
    vstd::arithmetic::power2::lemma2_to64();
    vstd::arithmetic::power2::lemma2_to64_rest();
    let bits = usize::BITS as nat;
    assert(usize::BITS == 32 || usize::BITS == 64);
    assert(usize::BITS == 32 ==> usize::MAX == 0xffff_ffff);
    assert(pow2(bits) == usize::MAX + 1);
    if n > bits {
        vstd::arithmetic::power2::lemma_pow2_strictly_increases(bits, n);
    }
    vstd::arithmetic::power2::lemma_pow2_adds((bits - n) as nat, n);
    vstd::arithmetic::div_mod::lemma_mod_multiples_basic(
        pow2((bits - n) as nat) as int,
        align as int,
    );
}

/// Aligning an address gives the least multiple of the alignment at or above it, and
/// nothing where there is none. An aligned address stays, and only an aligned one does.
pub proof fn law_aligned_is_least_multiple(spec: LayoutSpec, addr: usize)
    requires
        spec.wf(),
    ensures
        match spec.aligned(addr) {
            Some(value) => {
                &&& value % spec.align == 0
                &&& addr <= value
                &&& value - addr < spec.align
                &&& forall|other: int|
                    addr <= other && #[trigger] (other % spec.align as int) == 0 ==> value <= other
                &&& spec.aligned(value) == Some(value)
            },
            None => forall|other: int|
                addr <= other <= usize::MAX ==> #[trigger] (other % spec.align as int) != 0,
        },
        spec.aligned(addr) == Some(addr) <==> addr % spec.align == 0,
{
    let align = spec.align as int;
    lemma_end_is_aligned(spec.align);
    lemma_round_up(addr as int, align);
    assert forall|other: int| addr <= other && #[trigger] (other % align) == 0 implies round_up(
        addr as int,
        align,
    ) <= other by {
        if other < round_up(addr as int, align) {
            lemma_multiples(other, round_up(addr as int, align), align);
        }
    }
    match spec.aligned(addr) {
        Some(value) => {
            lemma_multiples(value as int, usize::MAX + 1, align);
            lemma_round_up(value as int, align);
            if round_up(value as int, align) > value {
                lemma_multiples(value as int, round_up(value as int, align), align);
            }
        },
        None => {
            assert forall|other: int| addr <= other <= usize::MAX implies #[trigger] (other
                % align) != 0 by {
                if other % align == 0 {
                    lemma_multiples(other, usize::MAX + 1, align);
                }
            }
        },
    }
    if addr as int % align == 0 {
        lemma_multiples(addr as int, usize::MAX + 1, align);
        if addr < round_up(addr as int, align) {
            lemma_multiples(addr as int, round_up(addr as int, align), align);
        }
    }
}

/// The length of a mapping is the least multiple of the page size that has room for the
/// block and its padding, and the block fits at every base; there is none only where no
/// such multiple exists.
pub proof fn law_mapping_len_is_least(spec: LayoutSpec, page_size: usize)
    requires
        spec.wf(),
        page_size == 0 || is_pow2(page_size as int),
    ensures
        match spec.mapped(page_size) {
            Some(len) => {
                &&& len % page_size == 0
                &&& len >= spec.size + spec.align - 1
                &&& forall|other: int|
                    spec.size + spec.align - 1 <= other && #[trigger] (other % page_size as int)
                        == 0 ==> len <= other
                &&& forall|base: usize|
                    base + len <= usize::MAX ==> (#[trigger] spec.aligned(base) matches Some(value)
                        && base <= value && value + spec.size <= base + len)
            },
            None => page_size == 0 || forall|other: int|
                spec.size + spec.align - 1 <= other <= usize::MAX ==> #[trigger] (other
                    % page_size as int) != 0,
        },
{
    reveal(is_pow2);
    let padded = spec.size + spec.align - 1;
    let page = page_size as int;
    if page > 0 {
        lemma_end_is_aligned(page_size);
        lemma_round_up(padded, page);
        assert forall|other: int| padded <= other && #[trigger] (other % page) == 0 implies
            round_up(padded, page) <= other by {
            if other < round_up(padded, page) {
                lemma_multiples(other, round_up(padded, page), page);
            }
        }
        match spec.mapped(page_size) {
            Some(len) => {
                assert forall|base: usize| base + len <= usize::MAX implies (
                #[trigger] spec.aligned(base) matches Some(value) && base <= value && value
                    + spec.size <= base + len) by {
                    law_mapping_holds_aligned_block(spec, base as int, page);
                }
            },
            None => {
                assert forall|other: int| padded <= other <= usize::MAX implies #[trigger] (other
                    % page) != 0 by {
                    if other % page == 0 {
                        lemma_multiples(other, usize::MAX + 1, page);
                    }
                }
            },
        }
    }
}

/// A mapping of the computed length holds the block wherever it starts: once the
/// base is rounded up, the whole block still ends inside.
pub proof fn law_mapping_holds_aligned_block(spec: LayoutSpec, base: int, page_size: int)
    requires
        spec.wf(),
        base >= 0,
        page_size > 0,
    ensures
        base <= round_up(base, spec.align as int),
        round_up(base, spec.align as int) + spec.size <= base + spec.spec_mapping_len(page_size),
{
    reveal(is_pow2);
    lemma_round_up(base, spec.align as int);
    lemma_round_up(spec.size + spec.align - 1, page_size);
}

/// The length of a layout's mapping is the least number of whole pages that has room for
/// the block and for the padding in front of it.
pub proof fn law_mapping_length_is_tight(spec: LayoutSpec, page_size: int)
    requires
        spec.wf(),
        page_size > 0,
    ensures
        spec.spec_mapping_len(page_size) % page_size == 0,
        spec.size + spec.align - 1 <= spec.spec_mapping_len(page_size),
        spec.spec_mapping_len(page_size) < spec.size + spec.align - 1 + page_size,
{
    reveal(is_pow2);
    lemma_round_up(spec.size + spec.align - 1, page_size);
}

} // verus!
