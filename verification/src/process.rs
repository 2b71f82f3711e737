//! Process-wide allocator state: page ownership, heaps, and the mailbox to the
//! operating system.

use vstd::prelude::*;

use crate::config::AllocatorConfig;

use crate::heap::extent::ExtentState;
use crate::heap::heaps::{lemma_heap_holder, Heaps};

use crate::heap::run::law_blocks_share_no_byte;
use crate::heap::service::{lemma_extent_holder, lemma_run_holder};
use crate::heap::state::HeapMode;
use crate::layout::LayoutSpec;
use crate::heap::spare::{
    extents_stay,
    from_run,
    gives_up,
    lemma_spares_copies_nothing,
    lemma_zero_ready,
    lemma_zero_stays,
    run_cleared,
    spares,
    zero_ready,
};
use crate::memory::{
    after_all,
    covers,
    law_owners_share_no_byte,
    lemma_bytes_kept,
    lemma_unowned_apart,
    owned,
    touched,
    unowned,
    AddressRange,
    Effect,
    Mapping,
    Os,
    PageMap,
    PageOwner,
};
use crate::size_class::{serves, small, SizeClass, SizeClasses};

verus! {

/// Everything that the threads of a process share.
pub struct Process {
    pub pages: PageMap,
    pub heaps: Heaps,
    pub os: Os,
}

/// Heaps outside `mine` that are Active in `before` are Active in `after` under the
/// same id, and no heap has lost a run or an extent slot.
pub open spec fn peers_kept(before: Heaps, after: Heaps, mine: Set<u32>) -> bool {
    &&& after.grown(before)
    &&& after.config == before.config
    &&& forall|index: u32|
        #![trigger before.arena@.contains_key(index)]
        #![trigger after.arena@.contains_key(index)]
        before.arena@.contains_key(index) && !mine.contains(index)
            && before.arena@[index].state@.mode == HeapMode::Active ==> after.arena@.contains_key(
            index,
        ) && after.arena@[index].state@.mode == HeapMode::Active && after.arena@[index].spec_id()
            == before.arena@[index].spec_id()
}

/// Keeping peers twice keeps them, when a heap taken up in between was nobody's.
pub proof fn lemma_peers_trans(
    before: Heaps,
    middle: Heaps,
    after: Heaps,
    mine: Set<u32>,
    later: Set<u32>,
)
    requires
        peers_kept(before, middle, mine),
        peers_kept(middle, after, later),
        forall|index: u32| #[trigger]
            later.contains(index) && !mine.contains(index) ==> !(before.arena@.contains_key(index)
                && before.arena@[index].state@.mode == HeapMode::Active),
    ensures
        peers_kept(before, after, mine),
{
    after.lemma_grown_trans(middle, before);
    assert forall|index: u32|
        #![trigger before.arena@.contains_key(index)]
        #![trigger after.arena@.contains_key(index)]
        before.arena@.contains_key(index) && !mine.contains(index)
            && before.arena@[index].state@.mode == HeapMode::Active implies after.arena@.contains_key(
        index,
    ) && after.arena@[index].state@.mode == HeapMode::Active && after.arena@[index].spec_id()
        == before.arena@[index].spec_id() by {
        assert(middle.arena@.contains_key(index));
        assert(!later.contains(index));
    }
}

/// An operation on one heap that leaves its mode and generation alone keeps all peers.
pub proof fn lemma_peers_only(before: Heaps, after: Heaps, index: u32, mine: Set<u32>)
    requires
        after.only(before, index),
        after.grown(before),
        mine.contains(index) || before.arena@[index].state@.mode != HeapMode::Active || (
        after.arena@[index].state@.mode == HeapMode::Active && after.arena@[index].spec_id()
            == before.arena@[index].spec_id()),
    ensures
        peers_kept(before, after, mine),
{
}

/// No heap changed its mode or its id, and no heap lost a run or an extent slot.
pub open spec fn states_kept(before: Heaps, after: Heaps) -> bool {
    &&& after.grown(before)
    &&& after.config == before.config
    &&& after.stack@ == before.stack@
    &&& forall|index: u32|
        #![trigger before.arena@.contains_key(index)]
        #![trigger after.arena@.contains_key(index)]
        before.arena@.contains_key(index) ==> after.arena@.contains_key(index)
            && after.arena@[index].state@.mode == before.arena@[index].state@.mode
            && after.arena@[index].spec_id() == before.arena@[index].spec_id()
}

/// An operation on one heap that leaves its state alone keeps every state.
pub proof fn lemma_states_only(before: Heaps, after: Heaps, index: u32)
    requires
        after.only(before, index),
        after.grown(before),
        after.stack@ == before.stack@,
        after.arena@[index].state@ == before.arena@[index].state@,
    ensures
        states_kept(before, after),
{
    assert(before.arena@.contains_key(index));
}

pub proof fn lemma_states_trans(before: Heaps, middle: Heaps, after: Heaps)
    requires
        states_kept(before, middle),
        states_kept(middle, after),
    ensures
        states_kept(before, after),
{
    after.lemma_grown_trans(middle, before);
    assert forall|index: u32|
        #![trigger before.arena@.contains_key(index)]
        #![trigger after.arena@.contains_key(index)]
        before.arena@.contains_key(index) implies after.arena@.contains_key(index)
        && after.arena@[index].state@.mode == before.arena@[index].state@.mode
        && after.arena@[index].spec_id() == before.arena@[index].spec_id() by {
        assert(middle.arena@.contains_key(index));
    }
}

/// A new block at `ptr` is held, and nothing else changed hands.
pub open spec fn added(before: Process, after: Process, ptr: usize) -> bool {
    &&& ptr > 0
    &&& !before.holds(ptr as int)
    &&& forall|addr: int| #[trigger] after.holds(addr) == (addr == ptr || before.holds(addr))
}

/// The block at `ptr` is no longer held, and nothing else changed hands.
pub open spec fn removed(before: Process, after: Process, ptr: usize) -> bool {
    &&& before.holds(ptr as int)
    &&& forall|addr: int| #[trigger] after.holds(addr) == (addr != ptr && before.holds(addr))
}

/// The same blocks are held.
pub open spec fn same_held(before: Process, after: Process) -> bool {
    forall|addr: int| #[trigger] after.holds(addr) == before.holds(addr)
}

impl Process {
    pub open spec fn wf(self) -> bool {
        self.heaps.wf(self.pages@) && self.os.wf()
    }

    /// A block that a caller holds starts at `addr`.
    pub open spec fn holds(self, addr: int) -> bool {
        self.heaps.holds(addr)
    }

    /// Owner of the page that holds `addr`.
    pub open spec fn owner_at(self, addr: int) -> Option<PageOwner> {
        let page = (addr / 4096) as usize;
        if self.pages@.contains_key(page) {
            Some(self.pages@[page])
        } else {
            None
        }
    }

    /// Usable bytes of the block at `addr`.
    pub open spec fn block_len(self, addr: int) -> int {
        match self.owner_at(addr) {
            Some(PageOwner::Run { heap, run }) => {
                self.heaps.arena@[heap].inner.runs.runs@[run].stride as int
            },
            Some(PageOwner::Extent { heap, extent }) => {
                self.heaps.arena@[heap].inner.extents.extents@[extent].len as int
            },
            None => 0,
        }
    }

    /// The block at `ptr` is one of a run of `class`.
    pub open spec fn small_block(self, ptr: usize, class: SizeClass) -> bool {
        &&& self.owner_at(ptr as int) matches Some(PageOwner::Run { .. })
        &&& self.block_len(ptr as int) == class.size
    }

    /// A run that has a block at `addr` has it allocated.
    pub open spec fn freeable(self, addr: int) -> bool {
        match self.owner_at(addr) {
            Some(owner) => self.heaps.arena@[owner.spec_heap()].freeable(owner, addr as usize),
            None => true,
        }
    }

    pub fn new(config: AllocatorConfig, discards: bool) -> (process: Self)
        ensures
            process.wf(),
            process.heaps.config == config,
            process.os.discards == discards,
            process.os.effects@.len() == 0,
            process.os.grant is None,
            process.pages@ == Map::<usize, PageOwner>::empty(),
            forall|addr: int| !#[trigger] process.holds(addr),
    {
        Self { pages: PageMap::new(), heaps: Heaps::new(config), os: Os::new(discards) }
    }

    /// The run that has a payload block range around `ptr`, found by its pages.
    pub fn header_of(&self, ptr: usize) -> (owner: Option<PageOwner>)
        requires
            self.wf(),
        ensures
            owner == match self.owner_at(ptr as int) {
                Some(PageOwner::Run { heap, run }) => Some(PageOwner::Run { heap, run }),
                _ => None,
            },
    {
        match self.pages.get(ptr) {
            Some(PageOwner::Run { heap, run }) => Some(PageOwner::Run { heap, run }),
            Some(PageOwner::Extent { .. }) => None,
            None => None,
        }
    }

    /// Owner of the block at `ptr` that was allocated for `spec`: a run for a layout
    /// that a size class serves, else whatever owns the page.
    pub fn lookup(&self, ptr: usize, spec: LayoutSpec) -> (owner: Option<PageOwner>)
        requires
            self.wf(),
            spec.wf(),
        ensures
            owner == self.looked_up(ptr, spec),
            owner matches Some(owner) ==> self.heaps.has_owner(owner),
    {
        let owner = match SizeClasses::class_for(spec) {
            Some(_) => self.header_of(ptr),
            None => self.pages.get(ptr),
        };
        proof {
            if owner is Some {
                self.heaps.lemma_page_owner(self.pages@, (ptr / 4096) as usize);
            }
        }
        owner
    }

    /// What looking up `ptr` for `spec` gives.
    pub open spec fn looked_up(self, ptr: usize, spec: LayoutSpec) -> Option<PageOwner> {
        if small(spec) {
            match self.owner_at(ptr as int) {
                Some(PageOwner::Run { heap, run }) => Some(PageOwner::Run { heap, run }),
                _ => None,
            }
        } else {
            self.owner_at(ptr as int)
        }
    }
}

/// The mapping on offer covers `page`, or a map that some heap keeps for its runs does.
pub open spec fn at_hand(process: Process, page: int) -> bool {
    process.os.offers(page) || exists|index: u32| #[trigger]
        process.heaps.arena@.contains_key(index)
            && process.heaps.arena@[index].inner.runs.keeps(page)
}

/// Every page that gained an owner was at hand before, and so was whatever is at hand now.
#[verifier::opaque]
pub open spec fn drawn(before: Process, after: Process) -> bool {
    &&& forall|page: int| #[trigger] at_hand(after, page) ==> at_hand(before, page)
    &&& forall|page: usize| #[trigger]
        after.pages@.contains_key(page) && !before.pages@.contains_key(page) ==> at_hand(
            before,
            page as int,
        )
}

/// What was drawn in two steps was drawn.
pub proof fn lemma_drawn_trans(before: Process, middle: Process, after: Process)
    requires
        drawn(before, middle),
        drawn(middle, after),
    ensures
        drawn(before, after),
{
    reveal(drawn);
    assert forall|page: usize| #[trigger]
        after.pages@.contains_key(page) && !before.pages@.contains_key(page) implies at_hand(
        before,
        page as int,
    ) by {
        if !middle.pages@.contains_key(page) {
            assert(at_hand(middle, page as int));
        }
    }
}

/// What one heap drew was drawn.
pub proof fn lemma_drawn(before: Process, after: Process, index: u32)
    requires
        after.heaps.only(before.heaps, index),
        after.os.grant == before.os.grant || after.os.grant is None,
        after.heaps.arena@[index].inner.runs.drew(
            before.heaps.arena@[index].inner.runs,
            before.pages@,
            after.pages@,
            before.os,
        ),
    ensures
        drawn(before, after),
{
    reveal(drawn);
    assert(before.heaps.arena@.contains_key(index));
    assert forall|page: int| #[trigger] at_hand(after, page) implies at_hand(before, page) by {
        if !after.os.offers(page) {
            let other = choose|other: u32| #[trigger]
                after.heaps.arena@.contains_key(other)
                    && after.heaps.arena@[other].inner.runs.keeps(page);
            assert(before.heaps.arena@.contains_key(other));
        }
    }
}

/// Where no heap got another map and no page an owner, nothing was drawn.
pub proof fn lemma_none_drawn(before: Process, after: Process)
    requires
        after.os.grant == before.os.grant,
        forall|page: usize| #[trigger]
            after.pages@.contains_key(page) ==> before.pages@.contains_key(page),
        forall|index: u32| #[trigger]
            after.heaps.arena@.contains_key(index) ==> if before.heaps.arena@.contains_key(index) {
                after.heaps.arena@[index].inner.runs.maps
                    == before.heaps.arena@[index].inner.runs.maps
            } else {
                after.heaps.arena@[index].inner.runs.maps@ == Map::<u32, Mapping>::empty()
            },
    ensures
        drawn(before, after),
{
    reveal(drawn);
    assert forall|page: int| #[trigger] at_hand(after, page) implies at_hand(before, page) by {
        if !after.os.offers(page) {
            let index = choose|index: u32| #[trigger]
                after.heaps.arena@.contains_key(index)
                    && after.heaps.arena@[index].inner.runs.keeps(page);
            let now = after.heaps.arena@[index].inner.runs;
            let map = choose|map: u32| #[trigger]
                now.maps@.contains_key(map) && covers(now.maps@[map].spec_range(), page);
            assert(before.heaps.arena@.contains_key(index));
            assert(before.heaps.arena@[index].inner.runs.maps@.contains_key(map));
            assert(before.heaps.arena@[index].inner.runs.keeps(page));
        }
    }
}

/// The page of a held block names the run or extent that holds it.
pub proof fn lemma_holder(process: Process, addr: int)
    requires
        process.wf(),
        process.holds(addr),
    ensures
        0 < addr <= usize::MAX,
        process.owner_at(addr) is Some,
        process.heaps.has_owner(process.owner_at(addr)->0),
        match process.owner_at(addr)->0 {
            PageOwner::Run { heap, run } => process.heaps.arena@[heap].inner.runs.runs@[run].holds(
                addr,
            ),
            PageOwner::Extent { heap, extent } => {
                let extent = process.heaps.arena@[heap].inner.extents.extents@[extent];
                extent.state == ExtentState::Allocated && extent.base == addr
            },
        },
{
    let index = choose|index: u32| #[trigger]
        process.heaps.arena@.contains_key(index) && process.heaps.arena@[index].holds(addr);
    assert(process.heaps.heap_wf(index, process.pages@));
    let heap = process.heaps.arena@[index];
    lemma_heap_holder(heap, process.pages@, addr);
    process.heaps.lemma_page_owner(process.pages@, (addr / 4096) as usize);
    if heap.inner.runs.holds(addr) {
        let slot = choose|slot: u32| #[trigger]
            heap.inner.runs.runs@.contains_key(slot) && heap.inner.runs.runs@[slot].holds(addr);
        lemma_run_holder(heap, process.pages@, slot, addr);
    } else {
        let extents = heap.inner.extents.extents@;
        let slot = choose|slot: u32| #[trigger]
            extents.contains_key(slot) && extents[slot].state == ExtentState::Allocated
                && extents[slot].base == addr;
        assert(extents[slot].wf());
        lemma_extent_holder(heap, process.pages@, slot);
    }
}

/// Two blocks that callers hold share no byte.
pub proof fn law_held_blocks_share_no_byte(process: Process, left: int, right: int)
    requires
        process.wf(),
        process.holds(left),
        process.holds(right),
        left != right,
    ensures
        left + process.block_len(left) <= right || right + process.block_len(right) <= left,
{
    lemma_holder(process, left);
    lemma_holder(process, right);
    let one = process.owner_at(left)->0;
    let two = process.owner_at(right)->0;
    lemma_owner_range(process, one);
    lemma_owner_range(process, two);
    if one == two {
        match one {
            PageOwner::Run { heap, run } => {
                assert(process.heaps.heap_wf(heap, process.pages@));
                assert(process.heaps.arena@[heap].inner.runs.run_wf(
                    run,
                    process.heaps.arena@[heap].spec_index(),
                ));
                let run = process.heaps.arena@[heap].inner.runs.runs@[run];
                run.lemma_located(left as usize);
                run.lemma_located(right as usize);
                law_blocks_share_no_byte(
                    run,
                    run.located(left as usize)->Ok_0.index.index as int,
                    run.located(right as usize)->Ok_0.index.index as int,
                );
            },
            PageOwner::Extent { .. } => {},
        }
    } else {
        law_owners_share_no_byte(
            process.pages@,
            owner_range(process, one),
            one,
            owner_range(process, two),
            two,
        );
        lemma_block_in_range(process, left);
        lemma_block_in_range(process, right);
    }
}

/// A held block of a class that serves `spec` is aligned for it.
pub proof fn lemma_small_aligned(process: Process, ptr: usize, class: SizeClass, spec: LayoutSpec)
    requires
        process.wf(),
        process.holds(ptr as int),
        process.small_block(ptr, class),
        class.wf(),
        spec.wf(),
        serves(class.index as int, spec),
    ensures
        ptr % spec.align == 0,
        process.block_len(ptr as int) >= spec.size,
{
    lemma_holder(process, ptr as int);
    if let Some(PageOwner::Run { heap, run }) = process.owner_at(ptr as int) {
        assert(process.heaps.heap_wf(heap, process.pages@));
        let found = process.heaps.arena@[heap];
        assert(found.inner.runs.run_wf(run, found.spec_index()));
        let run = found.inner.runs.runs@[run];
        run.lemma_located(ptr);
        crate::size_class::lemma_class_bounds(class.index as int);
        crate::heap::run::lemma_block_aligned(
            run,
            run.located(ptr)->Ok_0.index.index as int,
            spec.align as int,
        );
    }
}

/// The bytes that an owner's pages cover.
pub open spec fn owner_range(process: Process, owner: PageOwner) -> AddressRange {
    match owner {
        PageOwner::Run { heap, run } => process.heaps.arena@[heap].inner.runs.runs@[run].spec_range(),
        PageOwner::Extent { heap, extent } => {
            process.heaps.arena@[heap].inner.extents.extents@[extent].mapping->0.spec_range()
        },
    }
}

/// A page's owner has a proper range and owns all its pages.
proof fn lemma_owner_range(process: Process, owner: PageOwner)
    requires
        process.wf(),
        exists|page: usize| #[trigger]
            process.pages@.contains_key(page) && process.pages@[page] == owner,
    ensures
        owner_range(process, owner).wf(),
        owned(process.pages@, owner_range(process, owner), owner),
{
    let page = choose|page: usize| #[trigger]
        process.pages@.contains_key(page) && process.pages@[page] == owner;
    process.heaps.lemma_page_owner(process.pages@, page);
    let index = owner.spec_heap();
    assert(process.heaps.heap_wf(index, process.pages@));
    let heap = process.heaps.arena@[index];
    match owner {
        PageOwner::Run { run, .. } => {
            assert(heap.inner.runs.run_wf(run, heap.spec_index()));
            assert(owned(
                process.pages@,
                heap.inner.runs.runs@[run].spec_range(),
                crate::heap::run::heap::run_owner(heap.spec_index(), run),
            ));
        },
        PageOwner::Extent { extent, .. } => {
            assert(heap.inner.extents.extents@[extent].wf());
            assert(owned(
                process.pages@,
                heap.inner.extents.extents@[extent].mapping->0.spec_range(),
                crate::heap::extent::heap::extent_owner(heap.spec_index(), extent),
            ));
        },
    }
}

/// A held block lies inside its owner's range.
proof fn lemma_block_in_range(process: Process, addr: int)
    requires
        process.wf(),
        process.holds(addr),
    ensures
        ({
            let range = owner_range(process, process.owner_at(addr)->0);
            range.base <= addr && addr + process.block_len(addr) <= range.base + range.len
                && process.block_len(addr) > 0
        }),
{
    lemma_holder(process, addr);
    let owner = process.owner_at(addr)->0;
    let index = owner.spec_heap();
    assert(process.heaps.heap_wf(index, process.pages@));
    let heap = process.heaps.arena@[index];
    match owner {
        PageOwner::Run { run, .. } => {
            assert(heap.inner.runs.run_wf(run, heap.spec_index()));
            let run = heap.inner.runs.runs@[run];
            run.lemma_located(addr as usize);
            run.lemma_block(run.located(addr as usize)->Ok_0.index.index as int);
        },
        PageOwner::Extent { extent, .. } => {
            assert(heap.inner.extents.extents@[extent].wf());
        },
    }
}

/// `range` shares no byte with the `len` bytes from `addr`.
pub open spec fn apart(range: AddressRange, addr: int, len: int) -> bool {
    range.base + range.len <= addr || addr + len <= range.base
}

/// Every block that is held throughout keeps its length, and no effect of the operation
/// touches it. Effects are only added.
#[verifier::opaque]
pub open spec fn spared(before: Process, after: Process) -> bool {
    &&& before.os.effects@.is_prefix_of(after.os.effects@)
    &&& forall|addr: int|
        #![trigger before.holds(addr)]
        #![trigger after.holds(addr)]
        before.holds(addr) && after.holds(addr) ==> block_spared(before, after, addr)
}

/// The block at `addr` keeps its owner and its length, and no new effect touches it.
pub open spec fn block_spared(before: Process, after: Process, addr: int) -> bool {
    &&& after.owner_at(addr) == before.owner_at(addr)
    &&& after.block_len(addr) == before.block_len(addr)
    &&& forall|k: int|
        before.os.effects@.len() <= k < after.os.effects@.len() ==> apart(
            touched(#[trigger] after.os.effects@[k]),
            addr,
            before.block_len(addr),
        )
}

/// The effect gives back the mapping that was on offer.
pub open spec fn hands_back(before: Process, effect: Effect) -> bool {
    before.os.grant matches Some(mapping) && effect == Effect::Unmap(mapping.spec_range())
}

/// Every block that is held throughout keeps its owner and its length, and no effect of the
/// operation touches it, but for giving the offered mapping back. Effects are only added.
#[verifier::opaque]
pub open spec fn untouched(before: Process, after: Process) -> bool {
    &&& before.os.effects@.is_prefix_of(after.os.effects@)
    &&& forall|addr: int|
        #![trigger before.holds(addr)]
        #![trigger after.holds(addr)]
        before.holds(addr) && after.holds(addr) ==> block_untouched(before, after, addr)
}

/// The block at `addr` keeps its owner and its length, and every new effect leaves it alone
/// or gives the offered mapping back.
pub open spec fn block_untouched(before: Process, after: Process, addr: int) -> bool {
    &&& after.owner_at(addr) == before.owner_at(addr)
    &&& after.block_len(addr) == before.block_len(addr)
    &&& forall|k: int|
        before.os.effects@.len() <= k < after.os.effects@.len() ==> apart(
            touched(#[trigger] after.os.effects@[k]),
            addr,
            before.block_len(addr),
        ) || hands_back(before, after.os.effects@[k])
}

/// What spares every block leaves it untouched.
pub proof fn lemma_spared_untouched(before: Process, after: Process)
    requires
        spared(before, after),
    ensures
        untouched(before, after),
{
    reveal(spared);
    reveal(untouched);
    assert forall|addr: int|
        #![trigger before.holds(addr)]
        #![trigger after.holds(addr)]
        before.holds(addr) && after.holds(addr) implies block_untouched(before, after, addr) by {
        assert(block_spared(before, after, addr));
    }
}

/// An operation that was offered a mapping without an owner, and touched nothing else,
/// touched no held block at all.
pub proof fn law_fresh_grant_spares(before: Process, after: Process)
    requires
        before.wf(),
        fresh_grant(before),
        untouched(before, after),
    ensures
        spared(before, after),
{
    reveal(spared);
    reveal(untouched);
    let effects = after.os.effects@;
    assert forall|addr: int|
        #![trigger before.holds(addr)]
        #![trigger after.holds(addr)]
        before.holds(addr) && after.holds(addr) implies block_spared(before, after, addr) by {
        assert(block_untouched(before, after, addr));
        lemma_holder(before, addr);
        lemma_block_in_range(before, addr);
        let owner = before.owner_at(addr)->0;
        lemma_owner_range(before, owner);
        assert forall|k: int| before.os.effects@.len() <= k < effects.len() implies apart(
            touched(#[trigger] effects[k]),
            addr,
            before.block_len(addr),
        ) by {
            if hands_back(before, effects[k]) {
                lemma_unowned_apart(
                    before.pages@,
                    owner_range(before, owner),
                    owner,
                    before.os.grant->0.spec_range(),
                );
            }
        }
    }
}

/// What is untouched twice is untouched, when no other mapping is offered in between.
pub proof fn lemma_untouched_trans(before: Process, middle: Process, after: Process)
    requires
        untouched(before, middle),
        untouched(middle, after),
        middle.os.grant == before.os.grant || middle.os.grant is None,
        forall|addr: int| #[trigger]
            before.holds(addr) && after.holds(addr) ==> middle.holds(addr),
    ensures
        untouched(before, after),
{
    reveal(untouched);
    let half = middle.os.effects@;
    let effects = after.os.effects@;
    assert(before.os.effects@.is_prefix_of(effects)) by {
        assert(effects.take(before.os.effects@.len() as int) =~= before.os.effects@);
    }
    assert forall|addr: int|
        #![trigger before.holds(addr)]
        #![trigger after.holds(addr)]
        before.holds(addr) && after.holds(addr) implies block_untouched(before, after, addr) by {
        assert(middle.holds(addr));
        assert(block_untouched(before, middle, addr));
        assert(block_untouched(middle, after, addr));
        assert forall|k: int| before.os.effects@.len() <= k < effects.len() implies apart(
            touched(#[trigger] effects[k]),
            addr,
            before.block_len(addr),
        ) || hands_back(before, effects[k]) by {
            if k < half.len() {
                assert(effects[k] == half[k]);
            }
        }
    }
}

/// What is untouched and then spared is untouched.
pub proof fn lemma_untouched_spared(before: Process, middle: Process, after: Process)
    requires
        untouched(before, middle),
        spared(middle, after),
        forall|addr: int| #[trigger]
            before.holds(addr) && after.holds(addr) ==> middle.holds(addr),
    ensures
        untouched(before, after),
{
    reveal(spared);
    reveal(untouched);
    let half = middle.os.effects@;
    let effects = after.os.effects@;
    assert(before.os.effects@.is_prefix_of(effects)) by {
        assert(effects.take(before.os.effects@.len() as int) =~= before.os.effects@);
    }
    assert forall|addr: int|
        #![trigger before.holds(addr)]
        #![trigger after.holds(addr)]
        before.holds(addr) && after.holds(addr) implies block_untouched(before, after, addr) by {
        assert(middle.holds(addr));
        assert(block_untouched(before, middle, addr));
        assert(block_spared(middle, after, addr));
        assert forall|k: int| before.os.effects@.len() <= k < effects.len() implies apart(
            touched(#[trigger] effects[k]),
            addr,
            before.block_len(addr),
        ) || hands_back(before, effects[k]) by {
            if k < half.len() {
                assert(effects[k] == half[k]);
            }
        }
    }
}

/// The mapping on offer, if any, has no owner yet.
pub open spec fn fresh_grant(process: Process) -> bool {
    process.os.grant matches Some(mapping) ==> unowned(process.pages@, mapping.spec_range())
}

pub proof fn lemma_spared_trans(before: Process, middle: Process, after: Process)
    requires
        spared(before, middle),
        spared(middle, after),
        forall|addr: int| #[trigger]
            before.holds(addr) && after.holds(addr) ==> middle.holds(addr),
    ensures
        spared(before, after),
{
    reveal(spared);
    let half = middle.os.effects@;
    let effects = after.os.effects@;
    assert(before.os.effects@.is_prefix_of(effects)) by {
        assert(effects.take(before.os.effects@.len() as int) =~= before.os.effects@);
    }
    assert forall|addr: int|
        #![trigger before.holds(addr)]
        #![trigger after.holds(addr)]
        before.holds(addr) && after.holds(addr) implies block_spared(before, after, addr) by {
        assert(middle.holds(addr));
        assert(block_spared(before, middle, addr));
        assert(block_spared(middle, after, addr));
        assert forall|k: int| before.os.effects@.len() <= k < effects.len() implies apart(
            touched(#[trigger] effects[k]),
            addr,
            before.block_len(addr),
        ) by {
            if k < half.len() {
                assert(effects[k] == half[k]);
            }
        }
    }
}

/// Where no run, extent, or page changed, everything is spared.
pub proof fn lemma_spared_inner(before: Process, after: Process)
    requires
        before.wf(),
        after.os.effects == before.os.effects,
        after.pages@ == before.pages@,
        forall|index: u32| #[trigger]
            before.heaps.arena@.contains_key(index) ==> after.heaps.arena@.contains_key(index)
                && after.heaps.arena@[index].inner == before.heaps.arena@[index].inner,
    ensures
        spared(before, after),
{
    reveal(spared);
    assert forall|addr: int|
        #![trigger before.holds(addr)]
        #![trigger after.holds(addr)]
        before.holds(addr) && after.holds(addr) implies block_spared(before, after, addr) by {
        lemma_holder(before, addr);
        let owner = before.owner_at(addr)->0;
        assert(before.heaps.arena@.contains_key(owner.spec_heap()));
    }
}

/// A run of a heap owns its payload's pages.
proof fn lemma_run_range(process: Process, heap: u32, run: u32)
    requires
        process.wf(),
        process.heaps.arena@.contains_key(heap),
        process.heaps.arena@[heap].inner.runs.runs@.contains_key(run),
    ensures
        owner_range(process, PageOwner::Run { heap, run }).wf(),
        owned(
            process.pages@,
            owner_range(process, PageOwner::Run { heap, run }),
            PageOwner::Run { heap, run },
        ),
{
    assert(process.heaps.heap_wf(heap, process.pages@));
    let found = process.heaps.arena@[heap];
    assert(found.inner.runs.run_wf(run, found.spec_index()));
    assert(owned(
        process.pages@,
        found.inner.runs.runs@[run].spec_range(),
        crate::heap::run::heap::run_owner(found.spec_index(), run),
    ));
}

/// A mapped extent of a heap owns its mapping's pages.
proof fn lemma_extent_range(process: Process, heap: u32, extent: u32)
    requires
        process.wf(),
        process.heaps.arena@.contains_key(heap),
        process.heaps.arena@[heap].inner.extents.extents@.contains_key(extent),
        process.heaps.arena@[heap].inner.extents.extents@[extent].mapping is Some,
    ensures
        owner_range(process, PageOwner::Extent { heap, extent }).wf(),
        owned(
            process.pages@,
            owner_range(process, PageOwner::Extent { heap, extent }),
            PageOwner::Extent { heap, extent },
        ),
{
    assert(process.heaps.heap_wf(heap, process.pages@));
    let found = process.heaps.arena@[heap];
    assert(found.inner.extents.extents@[extent].wf());
    assert(owned(
        process.pages@,
        found.inner.extents.extents@[extent].mapping->0.spec_range(),
        crate::heap::extent::heap::extent_owner(found.spec_index(), extent),
    ));
}

/// A block held before and after an operation on one heap has the same owner.
proof fn lemma_same_owner(before: Process, after: Process, index: u32, addr: int)
    requires
        before.wf(),
        after.wf(),
        after.heaps.only(before.heaps, index),
        after.heaps.grown(before.heaps),
        extents_stay(before.heaps.arena@[index], after.heaps.arena@[index]),
        before.holds(addr),
        after.holds(addr),
    ensures
        after.owner_at(addr) == before.owner_at(addr),
        after.block_len(addr) == before.block_len(addr),
        before.owner_at(addr) matches Some(PageOwner::Run { heap, run })
            ==> after.heaps.arena@[heap].inner.runs.runs@[run].holds(addr),
        before.owner_at(addr) matches Some(PageOwner::Extent { heap, extent })
            ==> after.heaps.arena@[heap].inner.extents.extents@[extent].state
            == ExtentState::Allocated,
{
    lemma_holder(before, addr);
    lemma_holder(after, addr);
    let owner = before.owner_at(addr)->0;
    let heap = owner.spec_heap();
    assert(before.heaps.arena@.contains_key(heap));
    assert(after.heaps.arena@.contains_key(heap));
    assert(before.heaps.heap_wf(heap, before.pages@));
    assert(after.heaps.heap_wf(heap, after.pages@));
    let was = before.heaps.arena@[heap];
    let now = after.heaps.arena@[heap];
    assert(now.shapes_kept(was));
    match owner {
        PageOwner::Run { run, .. } => {
            assert(was.inner.runs.runs@.contains_key(run));
            assert(now.inner.runs.runs@[run].same_shape(was.inner.runs.runs@[run]));
            assert(now.inner.runs.runs@[run].located(addr as usize) is Ok);
            lemma_run_holder(now, after.pages@, run, addr);
        },
        PageOwner::Extent { extent, .. } => {
            assert(was.inner.extents.extents@.contains_key(extent));
            if heap == index {
                let holder = choose|holder: u32| #[trigger]
                    after.heaps.arena@.contains_key(holder) && after.heaps.arena@[holder].holds(
                        addr,
                    );
                if holder != index {
                    assert(before.heaps.arena@.contains_key(holder));
                    assert(before.heaps.heap_wf(holder, before.pages@));
                    lemma_heap_holder(before.heaps.arena@[holder], before.pages@, addr);
                }
                assert(now.holds(addr));
                assert(now.inner.extents.extents@.contains_key(extent));
            }
            assert(now.inner.extents.extents@[extent].wf());
            lemma_extent_holder(now, after.pages@, extent);
        },
    }
}

/// Bytes that one heap gives up lie in no block that is held throughout.
proof fn lemma_given_up_apart(before: Process, after: Process, index: u32, addr: int, effect: Effect)
    requires
        before.wf(),
        after.wf(),
        after.heaps.only(before.heaps, index),
        after.heaps.grown(before.heaps),
        extents_stay(before.heaps.arena@[index], after.heaps.arena@[index]),
        before.holds(addr),
        after.holds(addr),
        gives_up(before.heaps.arena@[index], after.heaps.arena@[index], effect),
    ensures
        apart(touched(effect), addr, before.block_len(addr)),
{
    let was = before.heaps.arena@[index];
    let now = after.heaps.arena@[index];
    let range = touched(effect);
    lemma_holder(before, addr);
    lemma_same_owner(before, after, index, addr);
    lemma_block_in_range(before, addr);
    let owner = before.owner_at(addr)->0;
    lemma_owner_range(before, owner);
    if from_run(was, now, range) {
        let slot = choose|slot: u32| #[trigger]
            was.inner.runs.runs@.contains_key(slot) && range
                == was.inner.runs.runs@[slot].spec_range() && run_cleared(
                was,
                now,
                slot,
            );
        let other = PageOwner::Run { heap: index, run: slot };
        lemma_run_range(before, index, slot);
        if owner != other {
            law_owners_share_no_byte(
                before.pages@,
                owner_range(before, owner),
                owner,
                owner_range(before, other),
                other,
            );
        }
    } else {
        let slot = choose|slot: u32| #[trigger]
            was.inner.extents.extents@.contains_key(slot)
                && was.inner.extents.extents@[slot].mapping is Some && ({
                let whole = was.inner.extents.extents@[slot].mapping->0.spec_range();
                whole.base <= range.base && range.base + range.len <= whole.base
                    + whole.len
            }) && !(was.inner.extents.extents@[slot].state == ExtentState::Allocated
                && now.inner.extents.extents@[slot].state == ExtentState::Allocated);
        let other = PageOwner::Extent { heap: index, extent: slot };
        lemma_extent_range(before, index, slot);
        if owner != other {
            law_owners_share_no_byte(
                before.pages@,
                owner_range(before, owner),
                owner,
                owner_range(before, other),
                other,
            );
        }
    }
}

/// An operation on one heap that spares that heap's blocks spares every block.
pub proof fn lemma_spared(before: Process, after: Process, index: u32, grant: Option<Mapping>)
    requires
        before.wf(),
        after.wf(),
        after.heaps.only(before.heaps, index),
        after.heaps.grown(before.heaps),
        spares(
            before.heaps.arena@[index],
            after.heaps.arena@[index],
            before.os.effects@,
            after.os.effects@,
            before.os.discards,
            grant,
        ),
        grant matches Some(mapping) ==> mapping.wf() && unowned(
            before.pages@,
            mapping.spec_range(),
        ),
    ensures
        spared(before, after),
{
    reveal(spared);
    reveal(spares);
    let was = before.heaps.arena@[index];
    let now = after.heaps.arena@[index];
    let effects = after.os.effects@;
    assert forall|addr: int|
        #![trigger before.holds(addr)]
        #![trigger after.holds(addr)]
        before.holds(addr) && after.holds(addr) implies block_spared(before, after, addr) by {
        lemma_holder(before, addr);
        lemma_same_owner(before, after, index, addr);
        lemma_block_in_range(before, addr);
        let owner = before.owner_at(addr)->0;
        lemma_owner_range(before, owner);
        assert forall|k: int| before.os.effects@.len() <= k < effects.len() implies apart(
            touched(#[trigger] effects[k]),
            addr,
            before.block_len(addr),
        ) by {
            if gives_up(was, now, effects[k]) {
                lemma_given_up_apart(before, after, index, addr, effects[k]);
            } else {
                lemma_unowned_apart(
                    before.pages@,
                    owner_range(before, owner),
                    owner,
                    grant->0.spec_range(),
                );
            }
        }
    }
}

/// An operation on one heap leaves every block untouched, whoever owns the mapping on offer.
pub proof fn lemma_untouched(before: Process, after: Process, index: u32)
    requires
        before.wf(),
        after.wf(),
        after.heaps.only(before.heaps, index),
        after.heaps.grown(before.heaps),
        spares(
            before.heaps.arena@[index],
            after.heaps.arena@[index],
            before.os.effects@,
            after.os.effects@,
            before.os.discards,
            before.os.grant,
        ),
    ensures
        untouched(before, after),
{
    reveal(untouched);
    reveal(spares);
    let was = before.heaps.arena@[index];
    let now = after.heaps.arena@[index];
    let effects = after.os.effects@;
    assert forall|addr: int|
        #![trigger before.holds(addr)]
        #![trigger after.holds(addr)]
        before.holds(addr) && after.holds(addr) implies block_untouched(before, after, addr) by {
        lemma_same_owner(before, after, index, addr);
        assert forall|k: int| before.os.effects@.len() <= k < effects.len() implies apart(
            touched(#[trigger] effects[k]),
            addr,
            before.block_len(addr),
        ) || hands_back(before, effects[k]) by {
            if gives_up(was, now, effects[k]) {
                lemma_given_up_apart(before, after, index, addr, effects[k]);
            }
        }
    }
}

/// Memory is zero wherever a heap counts on it.
pub open spec fn all_zero_ready(process: Process, bytes: spec_fn(int) -> u8) -> bool {
    &&& process.os.grant matches Some(mapping) ==> forall|addr: int|
        mapping.spec_range().has(addr) ==> #[trigger] bytes(addr) == 0
    &&& forall|index: u32| #[trigger]
        process.heaps.arena@.contains_key(index) ==> zero_ready(
            process.heaps.arena@[index],
            process.os.grant,
            bytes,
        )
}

/// The effects of an operation leave `size` bytes from `ptr` zero.
pub open spec fn zeroed(before: Process, after: Process, ptr: usize, size: usize) -> bool {
    forall|bytes: spec_fn(int) -> u8, addr: int|
        all_zero_ready(
            before,
            #[trigger] after_all(before.os.effects@, before.os.discards, bytes),
        ) && ptr <= addr < ptr + size ==> #[trigger] after_all(
            after.os.effects@,
            after.os.discards,
            bytes,
        )(addr) == 0
}

/// Memory that heaps count on stays zero through an operation on one heap.
pub proof fn lemma_all_zero_ready(
    before: Process,
    after: Process,
    index: u32,
    unused: Option<Mapping>,
    bytes: spec_fn(int) -> u8,
)
    requires
        after.heaps.only(before.heaps, index),
        after.os.grant == before.os.grant || after.os.grant is None,
        after.os.discards == before.os.discards,
        spares(
            before.heaps.arena@[index],
            after.heaps.arena@[index],
            before.os.effects@,
            after.os.effects@,
            before.os.discards,
            unused,
        ),
        all_zero_ready(before, after_all(before.os.effects@, before.os.discards, bytes)),
    ensures
        all_zero_ready(after, after_all(after.os.effects@, after.os.discards, bytes)),
{
    let discards = before.os.discards;
    let was = after_all(before.os.effects@, discards, bytes);
    let now = after_all(after.os.effects@, discards, bytes);
    lemma_spares_copies_nothing(
        before.heaps.arena@[index],
        after.heaps.arena@[index],
        before.os.effects@,
        after.os.effects@,
        discards,
        unused,
    );
    if let Some(mapping) = after.os.grant {
        assert forall|addr: int| mapping.spec_range().has(addr) implies #[trigger] now(addr)
            == 0 by {
            assert(was(addr) == 0);
            lemma_zero_stays(before.os.effects@, after.os.effects@, discards, bytes, addr);
        }
    }
    assert forall|other: u32| #[trigger] after.heaps.arena@.contains_key(other) implies zero_ready(
        after.heaps.arena@[other],
        after.os.grant,
        now,
    ) by {
        assert(before.heaps.arena@.contains_key(other));
        if other == index {
            lemma_zero_ready(
                before.heaps.arena@[index],
                after.heaps.arena@[index],
                before.os.effects@,
                after.os.effects@,
                discards,
                before.os.grant,
                unused,
                bytes,
            );
        } else {
            let heap = after.heaps.arena@[other];
            assert forall|slot: u32, addr: int|
                #![trigger heap.inner.extents.extents@.contains_key(slot), now(addr)]
                heap.inner.extents.extents@.contains_key(slot)
                    && heap.inner.extents.extents@[slot].clean
                    && heap.inner.extents.extents@[slot].mapping is Some
                    && heap.inner.extents.extents@[slot].mapping->0.spec_range().has(addr) implies
                now(addr) == 0 by {
                assert(was(addr) == 0);
                lemma_zero_stays(before.os.effects@, after.os.effects@, discards, bytes, addr);
            }
            if let Some(mapping) = after.os.grant {
                assert forall|addr: int| mapping.spec_range().has(addr) implies #[trigger] now(addr)
                    == 0 by {
                    assert(was(addr) == 0);
                    lemma_zero_stays(before.os.effects@, after.os.effects@, discards, bytes, addr);
                }
            }
        }
    }
}

/// The effects leave at `to` the `len` bytes that were at `from`.
pub open spec fn copied(before: Process, after: Process, from: usize, to: usize, len: int) -> bool {
    forall|bytes: spec_fn(int) -> u8, i: int|
        0 <= i < len ==> #[trigger] after_all(
            after.os.effects@,
            before.os.discards,
            bytes,
        )(to + i) == #[trigger] after_all(before.os.effects@, before.os.discards, bytes)(from + i)
}

/// The bytes of a block that is held throughout keep their values.
pub proof fn law_held_bytes_are_kept(
    before: Process,
    after: Process,
    bytes: spec_fn(int) -> u8,
    block: int,
    offset: int,
)
    requires
        spared(before, after),
        before.holds(block),
        after.holds(block),
        0 <= offset < before.block_len(block),
    ensures
        after_all(after.os.effects@, before.os.discards, bytes)(block + offset) == after_all(
            before.os.effects@,
            before.os.discards,
            bytes,
        )(block + offset),
{
    reveal(spared);
    assert(block_spared(before, after, block));
    lemma_bytes_kept(
        before.os.effects@,
        after.os.effects@,
        before.os.discards,
        bytes,
        block + offset,
    );
}

/// Writing to a new block touches no other block.
pub proof fn lemma_write_spares(
    before: Process,
    allocated: Process,
    after: Process,
    to: usize,
    effect: Effect,
)
    requires
        before.wf(),
        allocated.wf(),
        spared(before, allocated),
        added(before, allocated, to),
        touched(effect).base == to,
        touched(effect).len <= allocated.block_len(to as int),
        after.heaps == allocated.heaps,
        after.pages == allocated.pages,
        after.os.effects@ == allocated.os.effects@.push(effect),
    ensures
        spared(before, after),
        same_held(allocated, after),
{
    assert(allocated.holds(to as int));
    assert forall|addr: int| #[trigger] after.holds(addr) == allocated.holds(addr) by {}
    reveal(spared);
    let effects = after.os.effects@;
    assert(effects.take(before.os.effects@.len() as int) =~= before.os.effects@);
    assert forall|addr: int|
        #![trigger before.holds(addr)]
        #![trigger after.holds(addr)]
        before.holds(addr) && after.holds(addr) implies block_spared(before, after, addr) by {
        assert(block_spared(before, allocated, addr));
        law_held_blocks_share_no_byte(allocated, addr, to as int);
        assert forall|k: int| before.os.effects@.len() <= k < effects.len() implies apart(
            touched(#[trigger] effects[k]),
            addr,
            before.block_len(addr),
        ) by {
            if k < allocated.os.effects@.len() {
                assert(effects[k] == allocated.os.effects@[k]);
            }
        }
    }
}

/// Writing to a new block leaves every other block untouched.
pub proof fn lemma_write_untouched(
    before: Process,
    allocated: Process,
    after: Process,
    to: usize,
    effect: Effect,
)
    requires
        before.wf(),
        allocated.wf(),
        untouched(before, allocated),
        added(before, allocated, to),
        touched(effect).base == to,
        touched(effect).len <= allocated.block_len(to as int),
        after.heaps == allocated.heaps,
        after.pages == allocated.pages,
        after.os.effects@ == allocated.os.effects@.push(effect),
    ensures
        untouched(before, after),
{
    assert(allocated.holds(to as int));
    assert forall|addr: int| #[trigger] after.holds(addr) == allocated.holds(addr) by {}
    reveal(untouched);
    let effects = after.os.effects@;
    assert(effects.take(before.os.effects@.len() as int) =~= before.os.effects@);
    assert forall|addr: int|
        #![trigger before.holds(addr)]
        #![trigger after.holds(addr)]
        before.holds(addr) && after.holds(addr) implies block_untouched(before, after, addr) by {
        assert(block_untouched(before, allocated, addr));
        law_held_blocks_share_no_byte(allocated, addr, to as int);
        assert forall|k: int| before.os.effects@.len() <= k < effects.len() implies apart(
            touched(#[trigger] effects[k]),
            addr,
            before.block_len(addr),
        ) || hands_back(before, effects[k]) by {
            if k < allocated.os.effects@.len() {
                assert(effects[k] == allocated.os.effects@[k]);
            }
        }
    }
}

/// Copying into a new block touches no other block.
pub proof fn lemma_copy_spares(
    before: Process,
    allocated: Process,
    after: Process,
    from: usize,
    to: usize,
    len: usize,
)
    requires
        before.wf(),
        allocated.wf(),
        spared(before, allocated),
        added(before, allocated, to),
        before.holds(from as int),
        len <= before.block_len(from as int),
        len <= allocated.block_len(to as int),
        allocated.os.discards == before.os.discards,
        after.heaps == allocated.heaps,
        after.pages == allocated.pages,
        after.os.effects@ == allocated.os.effects@.push(Effect::Copy { from, to, len }),
    ensures
        spared(before, after),
        copied(before, after, from, to, len as int),
{
    assert(allocated.holds(from as int));
    lemma_write_spares(before, allocated, after, to, Effect::Copy { from, to, len });
    assert forall|bytes: spec_fn(int) -> u8, i: int| 0 <= i < len implies #[trigger] after_all(
        after.os.effects@,
        before.os.discards,
        bytes,
    )(to + i) == #[trigger] after_all(before.os.effects@, before.os.discards, bytes)(from + i) by {
        law_held_bytes_are_kept(before, allocated, bytes, from as int, i);
        assert(after.os.effects@.drop_last() =~= allocated.os.effects@);
        assert(after.os.effects@.last() == (Effect::Copy { from, to, len }));
    }
}

} // verus!
