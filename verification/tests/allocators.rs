use runic::allocator::Allocator;
use runic::heap::error::{Abort, HeapError};
use runic::heap::extent::ExtentInit;
use runic::heap::id::HeapId;
use runic::heap::run::{Accept, Run, RUN_SIZE};
use runic::heap::state::HeapMode;
use runic::heap::thread::{ThreadFreeError, ThreadHeaps};
use runic::layout::{Layout, LayoutSpec};
use runic::memory::{Effect, Os, PageOwner};
use runic::process::Process;
use runic::size_class::{SizeClass, SizeClasses};
use std::collections::HashMap;

/// One process with memory, and the addresses that its system hands out next.
struct Machine {
    process: Process,
    next: usize,
    bytes: HashMap<usize, u8>,
    done: usize,
}

impl Machine {
    fn new() -> Self {
        let mut installed = None;
        assert!(Allocator::new().init(&mut installed, Some(Os::new(true))));
        Self {
            process: installed.unwrap(),
            next: 0x4000_0000,
            bytes: HashMap::new(),
            done: 0,
        }
    }

    /// Carry out what the library asked of the system.
    fn settle(&mut self) {
        for effect in &self.process.os.effects[self.done..] {
            match *effect {
                Effect::Unmap(range) | Effect::Discard(range) | Effect::Zero(range) => {
                    self.bytes
                        .retain(|addr, _| *addr < range.base() || range.base() + range.len() <= *addr);
                }
                Effect::Copy { from, to, len } => {
                    for offset in 0..len {
                        let byte = self.bytes.get(&(from + offset)).copied().unwrap_or(0);
                        self.bytes.insert(to + offset, byte);
                    }
                }
            }
        }
        self.done = self.process.os.effects.len();
    }

    /// Map what the last call wanted. `false` when it wanted nothing.
    fn map(&mut self) -> bool {
        let Some(wanted) = self.process.os.wanted else {
            return false;
        };
        let base = self.next.next_multiple_of(wanted.align);
        assert!(self.process.os.grant(base, wanted.len));
        self.next = base + wanted.len;
        true
    }

    /// A block from `call`, after mapping memory where it ran out.
    fn served(
        &mut self,
        mut call: impl FnMut(&mut Process) -> Result<Option<usize>, Abort>,
    ) -> usize {
        let first = call(&mut self.process).unwrap();
        self.settle();
        if let Some(ptr) = first {
            return ptr;
        }
        assert!(self.map());
        let ptr = call(&mut self.process).unwrap().unwrap();
        self.settle();
        ptr
    }

    fn alloc_small(&mut self, thread: &mut ThreadHeaps, layout: Layout) -> usize {
        let class = class_of(layout);
        self.served(|process| match thread.allocate(class, process) {
            Some(ptr) => Ok(Some(ptr)),
            None => match thread.alloc_miss(class, process) {
                Ok(ptr) => Ok(ptr),
                Err(_) => panic!("no abort is expected"),
            },
        })
    }

    fn alloc_extent(&mut self, thread: &ThreadHeaps, layout: Layout, init: ExtentInit) -> usize {
        let spec = LayoutSpec::from_layout(layout);
        self.served(|process| match thread.alloc_extent(spec, init, process) {
            Ok(ptr) => Ok(ptr),
            Err(_) => panic!("no abort is expected"),
        })
    }

    fn alloc_live(&mut self, thread: &mut ThreadHeaps, layout: Layout, n: usize) -> Vec<usize> {
        (0..n).map(|_| self.alloc_small(thread, layout)).collect()
    }

    fn owner(&self, ptr: usize) -> PageOwner {
        self.process.pages.get(ptr).unwrap()
    }

    fn run_at(&self, ptr: usize) -> (u32, u32) {
        let PageOwner::Run { heap, run } = self.owner(ptr) else {
            panic!("expected a run-owned pointer");
        };
        (heap, run)
    }

    fn extent_at(&self, ptr: usize) -> (u32, u32) {
        let PageOwner::Extent { heap, extent } = self.owner(ptr) else {
            panic!("expected an extent-owned pointer");
        };
        (heap, extent)
    }

    fn run(&mut self, place: (u32, u32)) -> &mut Run {
        let heap = self.process.heaps.arena.get_mut(place.0).unwrap();
        heap.inner.runs.runs.get_mut(place.1).unwrap()
    }

    fn id_of(&self, heap: u32) -> HeapId {
        self.process.heaps.arena.get(heap).unwrap().id()
    }

    fn mode(&self, id: HeapId) -> Option<HeapMode> {
        let index = self.process.heaps.get(id)?;
        Some(self.process.heaps.arena.get(index)?.mode())
    }

    fn free_run(&mut self, thread: &ThreadHeaps, place: (u32, u32), ptr: usize) {
        assert!(thread
            .free_run(place.0, place.1, ptr, &mut self.process)
            .is_ok());
        self.settle();
    }

    fn free_all(&mut self, thread: &ThreadHeaps, ptrs: &[usize]) {
        for &ptr in ptrs {
            let place = self.run_at(ptr);
            self.free_run(thread, place, ptr);
        }
    }

    fn free_in(&mut self, id: HeapId, owner: PageOwner, ptr: usize) -> Result<(), HeapError> {
        self.process.heaps.free(
            id,
            owner,
            ptr,
            &mut self.process.pages,
            &mut self.process.os,
        )
    }

    fn unbind(&mut self, thread: &mut ThreadHeaps) {
        assert!(thread.unbind(&mut self.process).is_ok());
    }

    fn serve(&mut self, thread: &mut ThreadHeaps, layout: Layout) -> usize {
        let allocator = Allocator::new();
        self.served(|process| allocator.allocate(layout, thread, process))
    }

    fn realloc(
        &mut self,
        thread: &mut ThreadHeaps,
        ptr: usize,
        layout: Layout,
        size: usize,
    ) -> usize {
        let allocator = Allocator::new();
        self.served(|process| allocator.realloc(ptr, layout, size, thread, process))
    }

    fn dealloc(&mut self, thread: &mut ThreadHeaps, ptr: usize, layout: Layout) {
        assert!(Allocator::new()
            .dealloc(ptr, layout, thread, &mut self.process)
            .is_ok());
        self.settle();
    }
}

fn layout(size: usize, align: usize) -> Layout {
    Layout::from_size_align(size, align).unwrap()
}

fn class_of(layout: Layout) -> SizeClass {
    SizeClasses::class_for(LayoutSpec::from_layout(layout)).unwrap()
}

#[test]
fn current_run_free_hits_without_lookup() {
    let mut machine = Machine::new();
    let layout = layout(64, 8);
    let class = class_of(layout);
    let mut tls = ThreadHeaps::new();
    tls.bind(&mut machine.process).unwrap();
    let ptr = machine.alloc_small(&mut tls, layout);
    assert!(matches!(tls.free(ptr, class, &mut machine.process), Ok(true)));
    assert_eq!(tls.allocate(class, &mut machine.process), Some(ptr));
    assert!(matches!(tls.free(ptr, class, &mut machine.process), Ok(true)));
    machine.unbind(&mut tls);
}

#[test]
fn bind_reuses_active_slot() {
    let mut machine = Machine::new();
    let mut tls = ThreadHeaps::new();
    machine.unbind(&mut tls);

    let id = tls.bind(&mut machine.process).unwrap();
    assert_eq!(tls.bind(&mut machine.process), Some(id));
    machine.unbind(&mut tls);
}

#[test]
fn adopted_second_slot_unbinds_without_releasing_bound_current() {
    let mut machine = Machine::new();
    let layout = layout(64, 8);
    let class = class_of(layout);
    let mut tls = ThreadHeaps::new();

    let bound = tls.bind(&mut machine.process).unwrap();
    let local = machine.alloc_small(&mut tls, layout);
    assert!(matches!(tls.free(local, class, &mut machine.process), Ok(true)));

    let mut other = ThreadHeaps::new();
    let remote_id = other.bind(&mut machine.process).unwrap();
    let remote = machine.alloc_small(&mut other, layout);
    machine.unbind(&mut other);
    let owner = machine.owner(remote);

    assert!(Allocator::free_remote(&mut tls, &mut machine.process, owner, remote).is_ok());
    assert!(machine.process.heaps.get(remote_id).is_none());
    assert_eq!(tls.bind(&mut machine.process), Some(bound));
    assert_eq!(tls.allocate(class, &mut machine.process), Some(local));
    assert!(matches!(tls.free(local, class, &mut machine.process), Ok(true)));
    machine.unbind(&mut tls);
}

#[test]
fn owner_free_keeps_last_attached_heap() {
    let mut machine = Machine::new();
    let mut tls = ThreadHeaps::new();

    let id = tls.bind(&mut machine.process).unwrap();
    let ptr = machine.alloc_small(&mut tls, layout(64, 8));
    let owner = machine.owner(ptr);
    assert!(tls.free_owner(owner, ptr, &mut machine.process).is_ok());
    assert_eq!(machine.mode(id), Some(HeapMode::Active));
    assert_eq!(tls.bind(&mut machine.process), Some(id));
    machine.unbind(&mut tls);
}

#[test]
fn owner_free_publishes_immediately() {
    let mut machine = Machine::new();
    let mut tls = ThreadHeaps::new();
    tls.bind(&mut machine.process).unwrap();
    let ptr = machine.alloc_small(&mut tls, layout(64, 8));
    let place = machine.run_at(ptr);
    machine.free_run(&tls, place, ptr);
    assert!(!machine.run(place).is_live());
    assert_eq!(
        machine
            .process
            .heaps
            .allocate_run(place.0, place.1, &machine.process.pages),
        Some(ptr)
    );
    machine.free_run(&tls, place, ptr);
    machine.unbind(&mut tls);
}

#[test]
fn current_run_switches_when_full() {
    let mut machine = Machine::new();
    let layout = layout(64, 8);
    let mut tls = ThreadHeaps::new();
    tls.bind(&mut machine.process).unwrap();
    let capacity = RUN_SIZE / 64;
    let mut ptrs = machine.alloc_live(&mut tls, layout, capacity);
    let run_a = machine.run_at(ptrs[0]);
    assert!(machine.run(run_a).is_full());
    let extra = machine.alloc_small(&mut tls, layout);
    let run_b = machine.run_at(extra);
    assert!(run_a != run_b);
    ptrs.push(extra);
    machine.free_all(&tls, &ptrs);
    machine.unbind(&mut tls);
}

#[test]
fn free_to_non_current_full_run_relinks_available() {
    let mut machine = Machine::new();
    let layout = layout(64, 8);
    let mut tls = ThreadHeaps::new();
    tls.bind(&mut machine.process).unwrap();
    let capacity = RUN_SIZE / 64;
    let a_ptrs = machine.alloc_live(&mut tls, layout, capacity);
    let run_a = machine.run_at(a_ptrs[0]);
    assert!(machine.run(run_a).is_full());
    let b = machine.alloc_small(&mut tls, layout);
    let run_b = machine.run_at(b);
    assert!(run_a != run_b);
    machine.free_run(&tls, run_a, a_ptrs[0]);
    let mut b_ptrs = vec![b];
    b_ptrs.extend(machine.alloc_live(&mut tls, layout, capacity - 1));
    assert!(machine.run(run_b).is_full());
    let reused = machine.alloc_small(&mut tls, layout);
    assert_eq!(reused, a_ptrs[0]);
    assert!(machine.run_at(reused) == run_a);
    machine.free_run(&tls, run_a, reused);
    machine.free_all(&tls, &a_ptrs[1..]);
    machine.free_all(&tls, &b_ptrs);
    machine.unbind(&mut tls);
}

#[test]
fn header_of_finds_in_page_run_after_free() {
    let mut machine = Machine::new();
    let layout = layout(64, 8);
    let mut tls = ThreadHeaps::new();
    tls.bind(&mut machine.process).unwrap();
    let ptr = machine.alloc_small(&mut tls, layout);
    let spec = LayoutSpec::from_layout(layout);
    let Some(PageOwner::Run { heap, run }) = machine.process.lookup(ptr, spec) else {
        panic!("alloc should publish a run");
    };
    let owner = PageOwner::Run { heap, run };
    assert!(machine.process.header_of(ptr) == Some(owner));
    assert!(tls.free_slow(ptr, spec, &mut machine.process).is_ok());
    let again = machine.alloc_small(&mut tls, layout);
    assert_eq!(again, ptr);
    assert!(machine.process.header_of(again) == Some(owner));
    machine.free_run(&tls, (heap, run), again);
    machine.unbind(&mut tls);
    assert_eq!(machine.process.lookup(ptr, spec), Some(owner));
}

#[test]
fn unbind_with_current_runs_leaves_exact_live() {
    let mut machine = Machine::new();
    let mut tls = ThreadHeaps::new();
    let id = tls.bind(&mut machine.process).unwrap();
    let ptr = machine.alloc_small(&mut tls, layout(64, 8));
    let place = machine.run_at(ptr);
    assert!(machine.run(place).is_live());
    machine.unbind(&mut tls);

    assert_eq!(machine.mode(id), Some(HeapMode::Draining));
    assert!(machine.run(place).is_live());
    let owner = machine.owner(ptr);
    assert_eq!(machine.free_in(id, owner, ptr), Ok(()));
    assert!(machine.process.heaps.get(id).is_none());
}

#[test]
fn remote_claim_accept_publishes_once() {
    let mut machine = Machine::new();
    let mut tls = ThreadHeaps::new();
    tls.bind(&mut machine.process).unwrap();
    let ptr = machine.alloc_small(&mut tls, layout(64, 8));
    let place = machine.run_at(ptr);
    let mut os = Os::new(true);
    // User-held block; claim is the remote admission path.
    let run = machine.run(place);
    assert_eq!(run.claim(ptr), Ok(()));
    assert_eq!(run.accept(&mut os), Accept::Done);
    assert_eq!(run.allocate(), Some(ptr));
    assert!(run.free(ptr).is_ok());
}

#[test]
fn allocator_extent_free_keeps_page_entry_while_cached() {
    let mut machine = Machine::new();
    let mut tls = ThreadHeaps::new();
    tls.bind(&mut machine.process).unwrap();
    let ptr = machine.alloc_extent(&tls, layout(128 * 1024, 4096), ExtentInit::Uninit);
    let place = machine.extent_at(ptr);
    assert!(tls
        .free_extent(place.0, place.1, ptr, &mut machine.process)
        .is_ok());
    assert_eq!(machine.extent_at(ptr), place);
    machine.unbind(&mut tls);
}

#[test]
fn allocator_allocates_small_from_current_heap() {
    let mut machine = Machine::new();
    let mut tls = ThreadHeaps::new();
    let id = tls.bind(&mut machine.process).unwrap();
    let ptr = machine.alloc_small(&mut tls, layout(64, 8));
    let place = machine.run_at(ptr);
    assert_eq!(machine.id_of(place.0), id);
    machine.free_run(&tls, place, ptr);
    machine.unbind(&mut tls);
}

#[test]
fn allocator_allocates_extent_from_current_heap() {
    let mut machine = Machine::new();
    let mut tls = ThreadHeaps::new();
    let id = tls.bind(&mut machine.process).unwrap();
    let ptr = machine.alloc_extent(&tls, layout(128 * 1024, 4096), ExtentInit::Uninit);
    let place = machine.extent_at(ptr);
    assert_eq!(machine.id_of(place.0), id);
    assert!(tls
        .free_extent(place.0, place.1, ptr, &mut machine.process)
        .is_ok());
    machine.unbind(&mut tls);
}

#[test]
fn allocator_rejects_duplicate_remote_free() {
    let mut machine = Machine::new();
    let mut tls = ThreadHeaps::new();
    tls.bind(&mut machine.process).unwrap();
    let ptr = machine.alloc_small(&mut tls, layout(64, 8));
    let owner = machine.owner(ptr);
    // The heap stays Active: it is still bound.
    assert!(Allocator::free_remote(&mut tls, &mut machine.process, owner, ptr).is_ok());
    assert!(matches!(
        Allocator::free_remote(&mut tls, &mut machine.process, owner, ptr),
        Err(ThreadFreeError::Heap(HeapError::DoubleFree))
    ));
    machine.unbind(&mut tls);
}

#[test]
fn retained_remote_claim_completes_under_draining() {
    let mut machine = Machine::new();
    let mut tls = ThreadHeaps::new();
    let id = tls.bind(&mut machine.process).unwrap();
    let ptr = machine.alloc_small(&mut tls, layout(64, 8));
    let owner = machine.owner(ptr);
    let Process { pages, heaps, os } = &mut machine.process;
    assert_eq!(heaps.claim(owner, ptr, pages), Ok(()));
    assert!(heaps.unbind(id, pages, os).is_ok());
    assert_eq!(machine.mode(id), Some(HeapMode::Draining));
    let Process { pages, heaps, os } = &mut machine.process;
    // The claimed run is queued first, then taken in.
    assert_eq!(heaps.flush(id, Some(owner), pages, os), Ok(()));
    assert!(machine.process.heaps.get(id).is_none());
}

#[test]
fn remote_frees_to_distinct_heaps_publish_independently_without_batching() {
    let mut machine = Machine::new();
    let layout = layout(64, 8);
    let mut threads = [ThreadHeaps::new(), ThreadHeaps::new()];
    let mut live = Vec::new();
    let mut ids = Vec::new();
    for thread in &mut threads {
        ids.push(thread.bind(&mut machine.process).unwrap());
        live.push(machine.alloc_live(thread, layout, 8));
    }
    let mut freer = ThreadHeaps::new();
    for ptrs in &live {
        for &ptr in ptrs {
            let owner = machine.owner(ptr);
            assert!(Allocator::free_remote(&mut freer, &mut machine.process, owner, ptr).is_ok());
        }
    }
    for (k, thread) in threads.iter_mut().enumerate() {
        let place = machine.run_at(live[k][0]);
        assert!(machine.run(place).is_live());
        let Process { pages, heaps, os } = &mut machine.process;
        assert_eq!(heaps.flush_heap(place.0, None, pages, os), Ok(()));
        assert!(!machine.run(place).is_live());
        machine.unbind(thread);
        assert!(machine.process.heaps.get(ids[k]).is_none());
    }
}

#[test]
fn flush_accepts_nonempty_run_inbox_before_reclaim() {
    let mut machine = Machine::new();
    let mut tls = ThreadHeaps::new();
    let id = tls.bind(&mut machine.process).unwrap();
    let live = machine.alloc_live(&mut tls, layout(64, 8), 8);
    let owner = machine.owner(live[0]);
    let index = owner.heap();
    let Process { pages, heaps, os } = &mut machine.process;
    for ptr in live {
        heaps.claim(owner, ptr, pages).unwrap();
    }
    assert_eq!(heaps.enqueue(id, owner, pages), Ok(()));
    assert_eq!(heaps.close(id, index, pages), Ok(()));

    assert_eq!(heaps.flush(id, None, pages, os), Ok(()));
    assert!(machine.process.heaps.get(id).is_none());
}

#[test]
fn flush_accepts_nonempty_extent_inbox_before_reclaim() {
    let mut machine = Machine::new();
    let mut tls = ThreadHeaps::new();
    let id = tls.bind(&mut machine.process).unwrap();
    let ptr = machine.alloc_extent(&tls, layout(128 * 1024, 4096), ExtentInit::Uninit);
    let owner = machine.owner(ptr);
    let index = owner.heap();
    let Process { pages, heaps, os } = &mut machine.process;
    heaps.claim(owner, ptr, pages).unwrap();
    assert_eq!(heaps.enqueue(id, owner, pages), Ok(()));
    assert_eq!(heaps.close(id, index, pages), Ok(()));

    assert_eq!(heaps.flush(id, None, pages, os), Ok(()));
    assert!(machine.process.heaps.get(id).is_none());
}

#[test]
fn concurrent_active_leases_exact_once() {
    let mut machine = Machine::new();
    let mut tls = ThreadHeaps::new();
    let id = tls.bind(&mut machine.process).unwrap();
    let live = machine.alloc_live(&mut tls, layout(64, 8), 64);
    let owner = machine.owner(live[0]);
    let place = machine.run_at(live[0]);
    // Four freers take turns.
    for turn in 0..16 {
        for freer in 0..4 {
            let ptr = live[freer * 16 + turn];
            let Process { pages, heaps, .. } = &mut machine.process;
            heaps.claim(owner, ptr, pages).unwrap();
            assert_eq!(heaps.enqueue(id, owner, pages), Ok(()));
        }
    }
    assert_eq!(machine.process.heaps.arena.get(place.0).unwrap().leases(), 0);
    let Process { pages, heaps, os } = &mut machine.process;
    assert_eq!(heaps.flush_heap(place.0, None, pages, os), Ok(()));
    assert!(!machine.run(place).is_live());
    machine.unbind(&mut tls);
}

#[test]
fn allocator_tracks_live_run_allocations_through_draining_reclaim() {
    let mut machine = Machine::new();
    let layout = layout(64, 8);
    let mut tls = ThreadHeaps::new();
    let id = tls.bind(&mut machine.process).unwrap();
    let first = machine.alloc_small(&mut tls, layout);
    let second = machine.alloc_small(&mut tls, layout);
    machine.unbind(&mut tls);

    // The heap is Draining with live blocks.
    assert_eq!(machine.mode(id), Some(HeapMode::Draining));
    let owner = machine.owner(first);
    assert_eq!(machine.free_in(id, owner, first), Ok(()));
    assert!(machine.process.heaps.get(id).is_some());
    let owner = machine.owner(second);
    assert_eq!(machine.free_in(id, owner, second), Ok(()));
    assert!(machine.process.heaps.get(id).is_none());
}

#[test]
fn allocator_reuses_released_heap_after_draining_free() {
    let mut machine = Machine::new();
    let mut tls = ThreadHeaps::new();
    let heap = tls.bind(&mut machine.process).unwrap();
    let ptr = machine.alloc_small(&mut tls, layout(64, 8));
    let owner = machine.owner(ptr);
    machine.unbind(&mut tls);

    assert_eq!(machine.free_in(heap, owner, ptr), Ok(()));
    assert!(machine.process.pages.get(ptr).is_some());
    let reused = tls.bind(&mut machine.process).unwrap();
    assert_eq!(reused.index(), heap.index());
    assert_ne!(reused.generation(), heap.generation());
    machine.unbind(&mut tls);
}

#[test]
fn allocator_release_retains_empty_heap_run_page_entry_for_reuse() {
    let mut machine = Machine::new();
    let layout = layout(64, 8);
    let mut tls = ThreadHeaps::new();
    let heap = tls.bind(&mut machine.process).unwrap();
    let ptr = machine.alloc_small(&mut tls, layout);
    let place = machine.run_at(ptr);
    machine.free_run(&tls, place, ptr);
    assert!(machine.process.pages.get(ptr).is_some());
    machine.unbind(&mut tls);

    assert!(machine.process.pages.get(ptr).is_some());

    let reused = tls.bind(&mut machine.process).unwrap();
    assert_eq!(reused.index(), heap.index());
    assert_ne!(reused.generation(), heap.generation());
    let reused_ptr = machine.alloc_small(&mut tls, layout);
    assert!(machine.process.pages.get(ptr).is_some());
    assert!(machine.process.pages.get(reused_ptr).is_some());
    let reused_run = machine.run_at(reused_ptr);
    machine.free_run(&tls, reused_run, reused_ptr);
    machine.unbind(&mut tls);
}

#[test]
fn allocator_zeroed_large_allocation_uses_current_heap() {
    let mut machine = Machine::new();
    let layout = layout(128 * 1024, 4096);
    let mut tls = ThreadHeaps::new();
    let id = tls.bind(&mut machine.process).unwrap();
    let ptr = machine.alloc_extent(&tls, layout, ExtentInit::Zeroed);
    assert!((ptr..ptr + layout.size()).all(|addr| !machine.bytes.contains_key(&addr)));
    let place = machine.extent_at(ptr);
    assert_eq!(machine.id_of(place.0), id);
    assert!(tls
        .free_extent(place.0, place.1, ptr, &mut machine.process)
        .is_ok());
    machine.unbind(&mut tls);
}

#[test]
fn allocator_realloc_growth_uses_current_heap_extent() {
    let mut machine = Machine::new();
    let mut tls = ThreadHeaps::new();
    let small = layout(64, 8);
    let large = layout(128 * 1024, 8);

    let ptr = machine.serve(&mut tls, small);
    for addr in ptr..ptr + small.size() {
        machine.bytes.insert(addr, 0xab);
    }
    let id = machine.id_of(machine.run_at(ptr).0);

    let grown = machine.realloc(&mut tls, ptr, small, large.size());
    let place = machine.extent_at(grown);
    assert_eq!(machine.id_of(place.0), id);
    for addr in grown..grown + small.size() {
        assert_eq!(machine.bytes.get(&addr), Some(&0xab));
    }

    machine.dealloc(&mut tls, grown, large);
}

#[test]
fn dealloc_mixed_class_reverse_drop_uses_current() {
    let mut machine = Machine::new();
    let mut tls = ThreadHeaps::new();
    let eight = layout(8, 8);
    let sixty_four = layout(64, 8);
    let a = machine.serve(&mut tls, eight);
    let b = machine.serve(&mut tls, sixty_four);
    assert!(a != 0 && b != 0);
    machine.dealloc(&mut tls, b, sixty_four);
    machine.dealloc(&mut tls, a, eight);
}

#[test]
fn dealloc_non_current_same_class_falls_back_to_pagemap() {
    let mut machine = Machine::new();
    let layout = layout(64, 8);
    let mut tls = ThreadHeaps::new();
    tls.bind(&mut machine.process).unwrap();
    let capacity = RUN_SIZE / 64;
    let first = machine.alloc_live(&mut tls, layout, capacity);
    let extra = machine.alloc_small(&mut tls, layout);
    let run_a = machine.run_at(first[0]);
    let run_b = machine.run_at(extra);
    assert!(run_a != run_b);
    let class = class_of(layout);
    assert!(matches!(
        tls.free(first[0], class, &mut machine.process),
        Ok(false)
    ));
    machine.dealloc(&mut tls, first[0], layout);
    assert_eq!(
        machine.process.lookup(first[0], LayoutSpec::from_layout(layout)),
        Some(PageOwner::Run {
            heap: run_a.0,
            run: run_a.1
        })
    );
    machine.free_run(&tls, run_b, extra);
    machine.free_all(&tls, &first[1..]);
    machine.unbind(&mut tls);
}

#[test]
fn realloc_in_class_stays_on_current_run() {
    let mut machine = Machine::new();
    let mut tls = ThreadHeaps::new();
    let old = layout(16, 8);
    let new = layout(24, 8);
    let ptr = machine.serve(&mut tls, old);
    machine.bytes.insert(ptr, 0x5a);
    let grown = machine.realloc(&mut tls, ptr, old, new.size());
    assert_eq!(machine.bytes.get(&grown), Some(&0x5a));
    machine.dealloc(&mut tls, grown, new);
}

#[test]
fn realloc_repeated_in_class_hits_lookup() {
    let mut machine = Machine::new();
    let mut tls = ThreadHeaps::new();
    let layout = layout(32, 8);
    let ptr = machine.serve(&mut tls, layout);
    for _ in 0..8 {
        let next = machine.realloc(&mut tls, ptr, layout, layout.size());
        assert_eq!(next, ptr);
    }
    machine.dealloc(&mut tls, ptr, layout);
}

#[test]
fn realloc_to_extent_uses_pagemap() {
    let mut machine = Machine::new();
    let mut tls = ThreadHeaps::new();
    let small = layout(64, 8);
    let large = layout(128 * 1024, 8);
    let ptr = machine.serve(&mut tls, small);
    let grown = machine.realloc(&mut tls, ptr, small, large.size());
    assert!(matches!(machine.owner(grown), PageOwner::Extent { .. }));
    machine.dealloc(&mut tls, grown, large);
}

#[test]
fn adopt_then_owner_local_free() {
    let mut machine = Machine::new();
    let layout = layout(64, 8);
    let mut tls = ThreadHeaps::new();
    let id = tls.bind(&mut machine.process).unwrap();
    let first = machine.alloc_small(&mut tls, layout);
    let second = machine.alloc_small(&mut tls, layout);
    let place = machine.run_at(first);
    machine.unbind(&mut tls);

    assert_eq!(machine.mode(id), Some(HeapMode::Draining));
    let owner = machine.owner(first);
    assert!(Allocator::free_remote(&mut tls, &mut machine.process, owner, first).is_ok());
    assert_eq!(machine.mode(id), Some(HeapMode::Active));
    machine.free_run(&tls, place, second);
    machine.unbind(&mut tls);
    assert!(machine.process.heaps.get(id).is_none());
}

#[test]
fn concurrent_frees_complete_across_adoption() {
    let mut machine = Machine::new();
    let layout = layout(64, 8);
    let mut tls = ThreadHeaps::new();
    let id = tls.bind(&mut machine.process).unwrap();
    let live = machine.alloc_live(&mut tls, layout, 2);
    machine.unbind(&mut tls);

    assert_eq!(machine.mode(id), Some(HeapMode::Draining));
    let mut freers = [ThreadHeaps::new(), ThreadHeaps::new()];
    for (freer, &ptr) in freers.iter_mut().zip(&live) {
        let owner = machine.owner(ptr);
        assert!(Allocator::free_remote(freer, &mut machine.process, owner, ptr).is_ok());
    }
    for freer in &mut freers {
        machine.unbind(freer);
    }
    assert!(machine.process.heaps.get(id).is_none());
}

#[test]
fn adopter_exit_unbinds_adopted_heap() {
    let mut machine = Machine::new();
    let layout = layout(64, 8);
    let mut tls = ThreadHeaps::new();
    let id = tls.bind(&mut machine.process).unwrap();
    let first = machine.alloc_small(&mut tls, layout);
    let second = machine.alloc_small(&mut tls, layout);
    machine.unbind(&mut tls);

    let mut adopter = ThreadHeaps::new();
    let owner = machine.owner(first);
    assert!(Allocator::free_remote(&mut adopter, &mut machine.process, owner, first).is_ok());
    assert_eq!(machine.mode(id), Some(HeapMode::Active));
    machine.unbind(&mut adopter);

    assert_eq!(machine.mode(id), Some(HeapMode::Draining));
    let owner = machine.owner(second);
    assert_eq!(machine.free_in(id, owner, second), Ok(()));
    assert!(machine.process.heaps.get(id).is_none());
}

#[test]
fn blocks_of_two_threads_share_no_byte() {
    let mut machine = Machine::new();
    let mut threads = [ThreadHeaps::new(), ThreadHeaps::new()];
    let mut blocks = Vec::new();
    for (k, size) in [1, 24, 100, 5000, 40_000, 64, 64].into_iter().enumerate() {
        let ptr = machine.serve(&mut threads[k % 2], layout(size, 8));
        blocks.push((ptr, size));
    }
    for (i, &(left, len)) in blocks.iter().enumerate() {
        for &(right, other) in &blocks[i + 1..] {
            assert!(left + len <= right || right + other <= left);
        }
    }
}

#[test]
fn refused_requests_change_nothing() {
    let mut machine = Machine::new();
    let mut tls = ThreadHeaps::new();
    let allocator = Allocator::new();
    // No memory: null, and the request is left for the system.
    assert!(matches!(
        allocator.allocate(layout(64, 8), &mut tls, &mut machine.process),
        Ok(None)
    ));
    assert!(machine.process.os.wanted.is_some());
    // Addresses that no page knows.
    assert!(allocator
        .dealloc(0x10, layout(64, 8), &mut tls, &mut machine.process)
        .is_err());
    assert!(allocator
        .dealloc(0, layout(64, 8), &mut tls, &mut machine.process)
        .is_err());
    assert_eq!(allocator.usable_size(0x10, &machine.process), 0);
    assert!(matches!(
        allocator.realloc(0, layout(8, 8), usize::MAX, &mut tls, &mut machine.process),
        Ok(None)
    ));
}

#[test]
fn zeroed_block_is_cleared_after_reuse() {
    let mut machine = Machine::new();
    let mut tls = ThreadHeaps::new();
    let layout = layout(64, 8);
    let ptr = machine.serve(&mut tls, layout);
    for addr in ptr..ptr + 64 {
        machine.bytes.insert(addr, 0xee);
    }
    machine.dealloc(&mut tls, ptr, layout);
    let allocator = Allocator::new();
    let again = machine.served(|process| allocator.alloc_zeroed(layout, &mut tls, process));
    assert_eq!(again, ptr);
    assert!((ptr..ptr + 64).all(|addr| !machine.bytes.contains_key(&addr)));
}

#[test]
fn usable_size_is_zero_where_no_block_starts() {
    let mut machine = Machine::new();
    let mut tls = ThreadHeaps::new();
    let allocator = Allocator::new();
    let small = machine.serve(&mut tls, layout(60, 8));
    let large = machine.serve(&mut tls, layout(100_000, 8));
    assert_eq!(allocator.usable_size(small, &machine.process), 64);
    assert_eq!(allocator.usable_size(large, &machine.process), 100_000);
    assert_eq!(allocator.usable_size(small + 1, &machine.process), 0);
    assert_eq!(allocator.usable_size(large + 8, &machine.process), 0);
    assert_eq!(allocator.usable_size(0, &machine.process), 0);
    assert_eq!(allocator.usable_size(0x1000, &machine.process), 0);
}

#[test]
fn free_under_a_small_layout_aborts_on_an_extent() {
    let mut machine = Machine::new();
    let mut tls = ThreadHeaps::new();
    let allocator = Allocator::new();
    let large = machine.serve(&mut tls, layout(100_000, 8));
    assert!(allocator
        .dealloc(large, layout(64, 8), &mut tls, &mut machine.process)
        .is_err());
    assert!(allocator
        .dealloc(0, layout(64, 8), &mut tls, &mut machine.process)
        .is_err());
    assert_eq!(allocator.usable_size(large, &machine.process), 100_000);
    machine.dealloc(&mut tls, large, layout(100_000, 8));
}

#[test]
fn own_small_block_moves_with_its_bytes() {
    let mut machine = Machine::new();
    let mut tls = ThreadHeaps::new();
    let before = machine.serve(&mut tls, layout(48, 8));
    for offset in 0..48 {
        machine.bytes.insert(before + offset, offset as u8 + 1);
    }
    let after = machine.realloc(&mut tls, before, layout(48, 8), 4_000);
    assert_ne!(before, after);
    for offset in 0..48 {
        assert_eq!(machine.bytes.get(&(after + offset)), Some(&(offset as u8 + 1)));
    }
    assert_eq!(machine.serve(&mut tls, layout(48, 8)), before);
}

#[test]
fn unbind_drains_a_heap_in_use_and_frees_an_idle_one() {
    let mut machine = Machine::new();
    let mut busy = ThreadHeaps::new();
    let busy_id = busy.bind(&mut machine.process).unwrap();
    let ptr = machine.serve(&mut busy, layout(64, 8));
    machine.unbind(&mut busy);
    assert_eq!(machine.mode(busy_id), Some(HeapMode::Draining));

    let mut idle = ThreadHeaps::new();
    let idle_id = idle.bind(&mut machine.process).unwrap();
    machine.unbind(&mut idle);
    assert_eq!(machine.mode(idle_id), None);

    machine.dealloc(&mut busy, ptr, layout(64, 8));
}

#[test]
fn refused_realloc_leaves_the_block_and_its_bytes_alone() {
    let mut machine = Machine::new();
    let mut tls = ThreadHeaps::new();
    let allocator = Allocator::new();
    let ptr = machine.serve(&mut tls, layout(48, 8));
    for offset in 0..48 {
        machine.bytes.insert(ptr + offset, offset as u8 + 1);
    }
    let effects = machine.process.os.effects.len();

    assert!(matches!(
        allocator.realloc(ptr, layout(48, 8), 1 << 20, &mut tls, &mut machine.process),
        Ok(None)
    ));
    assert_eq!(machine.process.os.effects.len(), effects);
    assert_eq!(allocator.usable_size(ptr, &machine.process), 48);
    for offset in 0..48 {
        assert_eq!(machine.bytes.get(&(ptr + offset)), Some(&(offset as u8 + 1)));
    }
    machine.dealloc(&mut tls, ptr, layout(48, 8));
}

#[test]
fn given_blocks_can_be_given_back_by_their_thread() {
    let mut machine = Machine::new();
    let mut tls = ThreadHeaps::new();
    let allocator = Allocator::new();
    for asked in [layout(1, 1), layout(24, 8), layout(32_768, 16), layout(100_000, 8), layout(64, 8_192)] {
        let ptr = machine.serve(&mut tls, asked);
        assert!(machine.process.lookup(ptr, LayoutSpec::from_layout(asked)).is_some());
        assert!(tls.owns(machine.owner(ptr).heap(), &machine.process));
        assert!(allocator.dealloc(ptr, asked, &mut tls, &mut machine.process).is_ok());
    }
}

#[test]
fn block_of_another_thread_moves_to_ones_own_heap() {
    let mut machine = Machine::new();
    let mut first = ThreadHeaps::new();
    let mut second = ThreadHeaps::new();
    let before = machine.serve(&mut first, layout(48, 8));
    machine.bytes.insert(before, 7);

    let after = machine.realloc(&mut second, before, layout(48, 8), 4_000);
    assert_ne!(after, before);
    assert_eq!(machine.bytes.get(&after), Some(&7));
    assert!(second.owns(machine.owner(after).heap(), &machine.process));
    assert!(!second.owns(machine.owner(before).heap(), &machine.process));
    machine.dealloc(&mut second, after, layout(4_000, 8));

    // The old block waits for its own thread, and cannot be moved again.
    assert!(Allocator::new()
        .resize(before, layout(4_000, 8), &mut second, &mut machine.process)
        .is_err());
}

#[test]
fn owned_pages_lie_in_what_was_mapped() {
    let mut machine = Machine::new();
    let mut tls = ThreadHeaps::new();
    let start = machine.next;
    let small = machine.serve(&mut tls, layout(64, 8));
    let large = machine.serve(&mut tls, layout(100_000, 8));
    for ptr in [small, large] {
        assert!(start <= ptr && ptr < machine.next);
    }
    assert_eq!(machine.process.pages.get(machine.next), None);
    assert_eq!(machine.process.pages.get(start - 1), None);
}
