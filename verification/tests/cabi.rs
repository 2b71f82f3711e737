use runic::allocator::Allocator;
use runic::cabi::{
    aligned_alloc, calloc, cfree, free, malloc, malloc_usable_size, memalign, posix_memalign,
    pvalloc, realloc, reallocarray, valloc, Errno, PAGE,
};
use runic::heap::error::Abort;
use runic::heap::thread::ThreadHeaps;
use runic::memory::{Effect, Os};
use runic::process::Process;
use std::collections::HashMap;

struct Machine {
    allocator: Allocator,
    thread: ThreadHeaps,
    process: Process,
    next: usize,
    bytes: HashMap<usize, u8>,
    done: usize,
}

type Answer = Result<usize, Errno>;

impl Machine {
    fn new() -> Self {
        let allocator = Allocator::new();
        let mut installed = None;
        assert!(allocator.init(&mut installed, Some(Os::new(true))));
        Self {
            allocator,
            thread: ThreadHeaps::new(),
            process: installed.unwrap(),
            next: 0x4000_0000,
            bytes: HashMap::new(),
            done: 0,
        }
    }

    fn settle(&mut self) {
        for effect in &self.process.os.effects[self.done..] {
            match *effect {
                Effect::Unmap(range) | Effect::Discard(range) | Effect::Zero(range) => {
                    self.bytes
                        .retain(|addr, _| *addr < range.base() || range.base() + range.len() <= *addr);
                }
                Effect::Copy { from, to, len } => {
                    for offset in 0..len {
                        let byte = self.bytes.get(&(from + offset)).copied().unwrap_or(0);
                        self.bytes.insert(to + offset, byte);
                    }
                }
            }
        }
        self.done = self.process.os.effects.len();
    }

    /// What the entry point answers once the system has mapped what it wanted.
    fn call(
        &mut self,
        entry: impl Fn(&Allocator, &mut ThreadHeaps, &mut Process) -> Result<Answer, Abort>,
    ) -> Answer {
        let first = entry(&self.allocator, &mut self.thread, &mut self.process)
            .ok()
            .unwrap();
        self.settle();
        let Some(wanted) = self.process.os.wanted else {
            return first;
        };
        if first != Err(Errno::NoMemory) {
            return first;
        }
        let base = self.next.next_multiple_of(wanted.align);
        assert!(self.process.os.grant(base, wanted.len));
        self.next = base + wanted.len;
        let second = entry(&self.allocator, &mut self.thread, &mut self.process)
            .ok()
            .unwrap();
        self.settle();
        second
    }

    fn malloc(&mut self, size: usize) -> Answer {
        self.call(|allocator, thread, process| malloc(allocator, size, thread, process))
    }

    fn realloc(&mut self, ptr: usize, size: usize) -> Answer {
        self.call(|allocator, thread, process| realloc(allocator, ptr, size, thread, process))
    }

    fn free(&mut self, ptr: usize) {
        assert!(free(&self.allocator, ptr, &mut self.thread, &mut self.process).is_ok());
        self.settle();
    }

    fn usable(&self, ptr: usize) -> usize {
        malloc_usable_size(&self.allocator, ptr, &self.process)
    }
}

#[test]
fn null_and_zero_size_follow_c_contracts() {
    let mut machine = Machine::new();
    machine.free(0);
    let ptr = machine.malloc(0).unwrap();
    assert_ne!(ptr, 0);
    machine.free(ptr);
    let ptr = machine.realloc(0, 0).unwrap();
    assert_ne!(ptr, 0);
    machine.free(ptr);
    assert_eq!(machine.usable(0), 0);
}

#[test]
fn malloc_realloc_free_preserves_prefix() {
    let mut machine = Machine::new();
    let ptr = machine.malloc(64).unwrap();
    assert_ne!(ptr, 0);
    machine.bytes.insert(ptr, 0x5a);
    let grown = machine.realloc(ptr, 128).unwrap();
    assert_ne!(grown, 0);
    assert_eq!(machine.bytes.get(&grown), Some(&0x5a));
    assert!(machine.usable(grown) >= 128);
    machine.free(grown);
}

#[test]
fn realloc_zero_frees() {
    let mut machine = Machine::new();
    let ptr = machine.malloc(16).unwrap();
    assert_ne!(ptr, 0);
    assert_eq!(machine.realloc(ptr, 0), Ok(0));
    // The block is the next to be handed out.
    assert_eq!(machine.malloc(16), Ok(ptr));
}

#[test]
fn calloc_zeroes_and_reports_overflow() {
    let mut machine = Machine::new();
    let dirty = machine.malloc(64).unwrap();
    machine.bytes.insert(dirty, 1);
    machine.free(dirty);
    let ptr = machine
        .call(|allocator, thread, process| calloc(allocator, 16, 4, thread, process))
        .unwrap();
    assert_eq!(ptr, dirty);
    assert_eq!(machine.bytes.get(&ptr), None);
    machine.free(ptr);
    assert_eq!(
        machine.call(|allocator, thread, process| calloc(
            allocator,
            usize::MAX,
            2,
            thread,
            process
        )),
        Err(Errno::NoMemory)
    );
}

#[test]
fn posix_memalign_reallocs_an_overaligned_extent() {
    let mut machine = Machine::new();
    let ptr = machine
        .call(|allocator, thread, process| {
            posix_memalign(allocator, false, 8192, 32, thread, process)
        })
        .unwrap();
    assert_eq!(ptr % 8192, 0);
    machine.bytes.insert(ptr, 0xa5);
    let grown = machine.realloc(ptr, 64).unwrap();
    assert_ne!(grown, 0);
    assert_eq!(machine.bytes.get(&grown), Some(&0xa5));
    machine.free(grown);
}

#[test]
fn posix_memalign_returns_errors_without_changing_errno() {
    let mut machine = Machine::new();
    for (no_slot, alignment) in [(false, 3), (false, 4), (true, 16)] {
        assert_eq!(
            machine.call(|allocator, thread, process| posix_memalign(
                allocator, no_slot, alignment, 64, thread, process
            )),
            Err(Errno::Invalid)
        );
    }
    assert!(machine.process.os.effects.is_empty());
}

#[test]
fn aligned_alloc_checks_c11_constraints() {
    let mut machine = Machine::new();
    assert_eq!(
        machine.call(|allocator, thread, process| aligned_alloc(
            allocator, 64, 32, thread, process
        )),
        Err(Errno::Invalid)
    );
    assert_eq!(
        machine.call(|allocator, thread, process| aligned_alloc(allocator, 0, 0, thread, process)),
        Err(Errno::Invalid)
    );
    let ptr = machine
        .call(|allocator, thread, process| aligned_alloc(allocator, 64, 128, thread, process))
        .unwrap();
    assert_eq!(ptr % 64, 0);
}

#[test]
fn memalign_and_cfree_round_trip() {
    let mut machine = Machine::new();
    let ptr = machine
        .call(|allocator, thread, process| memalign(allocator, 32, 48, thread, process))
        .unwrap();
    assert_ne!(ptr, 0);
    assert_eq!(ptr % 32, 0);
    assert!(cfree(
        &machine.allocator,
        ptr,
        &mut machine.thread,
        &mut machine.process
    )
    .is_ok());
    assert_eq!(
        machine.call(|allocator, thread, process| memalign(allocator, 24, 48, thread, process)),
        Err(Errno::Invalid)
    );
}

#[test]
fn page_aligned_entries_round_trip() {
    let mut machine = Machine::new();
    let page = machine
        .call(|allocator, thread, process| valloc(allocator, 1, thread, process))
        .unwrap();
    assert_ne!(page, 0);
    assert_eq!(page % PAGE, 0);
    machine.free(page);

    let rounded = machine
        .call(|allocator, thread, process| pvalloc(allocator, PAGE + 1, thread, process))
        .unwrap();
    assert_ne!(rounded, 0);
    assert_eq!(rounded % PAGE, 0);
    assert!(machine.usable(rounded) >= PAGE * 2);
    machine.free(rounded);
    assert_eq!(
        machine.call(|allocator, thread, process| pvalloc(
            allocator,
            usize::MAX,
            thread,
            process
        )),
        Err(Errno::NoMemory)
    );
}

#[test]
fn reallocarray_checks_multiplication() {
    let mut machine = Machine::new();
    assert_eq!(
        machine.call(|allocator, thread, process| reallocarray(
            allocator,
            0,
            usize::MAX,
            2,
            thread,
            process
        )),
        Err(Errno::NoMemory)
    );
    let ptr = machine
        .call(|allocator, thread, process| reallocarray(allocator, 0, 5, 10, thread, process))
        .unwrap();
    assert!(machine.usable(ptr) >= 50);
}
