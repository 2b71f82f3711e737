//! Address ranges, page ownership, and the mailbox to the operating system.
//!
//! Nothing here touches memory. [`Os`] hands out mappings that the program granted
//! and lists what the program has to do with bytes and mappings, in order.

use std::collections::HashMap;

use vstd::prelude::*;

use crate::config::{Hints, HugePage, Numa};

verus! {

broadcast use vstd::std_specs::hash::group_hash_axioms;

/// Bytes per page.
pub const PAGE_SIZE: usize = 4096;

/// `len` bytes from `base` on.
#[derive(Clone, Copy, Debug, PartialEq, Eq, Structural)]
pub struct AddressRange {
    pub base: usize,
    pub len: usize,
}

impl AddressRange {
    /// Not empty, not at address zero, and inside the address space.
    pub open spec fn wf(self) -> bool {
        self.base > 0 && self.len > 0 && self.base + self.len <= usize::MAX
    }

    /// `addr` is one of the bytes.
    pub open spec fn has(self, addr: int) -> bool {
        self.base <= addr < self.base + self.len
    }

    /// No byte is in both ranges.
    pub open spec fn disjoint(self, other: AddressRange) -> bool {
        self.base + self.len <= other.base || other.base + other.len <= self.base
    }

    pub fn new(base: usize, len: usize) -> (range: Self)
        ensures
            range == (AddressRange { base, len }),
    {
        Self { base, len }
    }

    pub fn base(self) -> (base: usize)
        ensures
            base == self.base,
    {
        self.base
    }

    pub fn len(self) -> (len: usize)
        ensures
            len == self.len,
    {
        self.len
    }

    /// Whether `other` lies inside this range.
    pub fn contains(self, other: AddressRange) -> (inside: bool)
        ensures
            inside == (self.base <= other.base && other.base + other.len <= self.base + self.len),
    {
        if other.base < self.base {
            return false;
        }
        let offset: usize = other.base - self.base;
        offset <= self.len && other.len <= self.len - offset
    }

    /// Distance of `addr` from the base, when `addr` is inside.
    pub fn offset_of(self, addr: usize) -> (offset: Option<usize>)
        ensures
            self.has(addr as int) ==> offset == Some((addr - self.base) as usize),
            !self.has(addr as int) ==> offset is None,
    {
        if addr < self.base || addr - self.base >= self.len {
            None
        } else {
            Some(addr - self.base)
        }
    }
}

/// Whole pages obtained from the operating system.
#[derive(Debug, PartialEq, Eq, Structural)]
pub struct Mapping {
    pub base: usize,
    pub len: usize,
}

impl Mapping {
    /// Whole pages inside the address space, not at address zero.
    pub open spec fn wf(self) -> bool {
        &&& self.base > 0
        &&& self.base % PAGE_SIZE == 0
        &&& self.len > 0
        &&& self.len % PAGE_SIZE == 0
        &&& self.base + self.len <= usize::MAX
    }

    /// The bytes of the mapping.
    pub open spec fn spec_range(self) -> AddressRange {
        AddressRange { base: self.base, len: self.len }
    }

    pub fn base(&self) -> (base: usize)
        ensures
            base == self.base,
    {
        self.base
    }

    pub fn len(&self) -> (len: usize)
        ensures
            len == self.len,
    {
        self.len
    }

    pub fn range(&self) -> (range: AddressRange)
        ensures
            range == self.spec_range(),
    {
        AddressRange::new(self.base, self.len)
    }
}

/// The run or extent that owns a page, by the slots of its heap and of itself.
#[derive(Clone, Copy, Debug, PartialEq, Eq, Structural)]
pub enum PageOwner {
    Run { heap: u32, run: u32 },
    Extent { heap: u32, extent: u32 },
}

impl PageOwner {
    /// Slot of the owning heap.
    pub open spec fn spec_heap(self) -> u32 {
        match self {
            PageOwner::Run { heap, .. } => heap,
            PageOwner::Extent { heap, .. } => heap,
        }
    }

    pub fn heap(self) -> (heap: u32)
        ensures
            heap == self.spec_heap(),
    {
        match self {
            PageOwner::Run { heap, .. } => heap,
            PageOwner::Extent { heap, .. } => heap,
        }
    }
}

#[derive(Clone, Copy, Debug, PartialEq, Eq, Structural)]
pub enum PageMapError {
    /// A page of the range already has an owner.
    Occupied,
    /// A page of the range is not the owner's.
    NotOwner,
}

/// The page that holds `addr`.
pub open spec fn page_of(addr: int) -> int {
    addr / 4096
}

/// `page` holds a byte of `range`.
pub open spec fn covers(range: AddressRange, page: int) -> bool {
    page_of(range.base as int) <= page <= page_of(range.base + range.len - 1)
}

/// Every page of `range` belongs to `owner`.
pub open spec fn owned(pages: Map<usize, PageOwner>, range: AddressRange, owner: PageOwner) -> bool {
    forall|page: usize|
        #![trigger pages.contains_key(page)]
        #![trigger pages[page]]
        covers(range, page as int) ==> pages.contains_key(page) && pages[page] == owner
}

/// No page of `range` has an owner.
pub open spec fn unowned(pages: Map<usize, PageOwner>, range: AddressRange) -> bool {
    forall|page: usize| covers(range, page as int) ==> !#[trigger] pages.contains_key(page)
}

/// `pages` once every page of `range` belongs to `owner`.
pub open spec fn with_owner(
    pages: Map<usize, PageOwner>,
    range: AddressRange,
    owner: PageOwner,
) -> Map<usize, PageOwner> {
    Map::new(
        |page: usize| covers(range, page as int) || pages.contains_key(page),
        |page: usize|
            if covers(range, page as int) {
                owner
            } else {
                pages[page]
            },
    )
}

/// `pages` once no page of `range` has an owner.
pub open spec fn without_owner(
    pages: Map<usize, PageOwner>,
    range: AddressRange,
) -> Map<usize, PageOwner> {
    Map::new(
        |page: usize| !covers(range, page as int) && pages.contains_key(page),
        |page: usize| pages[page],
    )
}

/// Which run or extent owns each page.
pub struct PageMap {
    pub entries: HashMap<usize, PageOwner>,
}

impl View for PageMap {
    type V = Map<usize, PageOwner>;

    open spec fn view(&self) -> Map<usize, PageOwner> {
        self.entries@
    }
}

impl PageMap {
    pub fn new() -> (pages: Self)
        ensures
            pages@ == Map::<usize, PageOwner>::empty(),
    {
        Self { entries: HashMap::new() }
    }

    /// Owner of the page that holds `addr`.
    pub fn get(&self, addr: usize) -> (owner: Option<PageOwner>)
        ensures
            owner == if self@.contains_key((addr / 4096) as usize) {
                Some(self@[(addr / 4096) as usize])
            } else {
                None
            },
    {
        let page: usize = addr / PAGE_SIZE;
        match self.entries.get(&page) {
            Some(owner) => Some(*owner),
            None => None,
        }
    }

    /// Give every page of `range` to `owner`. Fails, changing nothing, when a page
    /// already has an owner.
    pub fn publish(&mut self, range: AddressRange, owner: PageOwner) -> (published: Result<
        (),
        PageMapError,
    >)
        requires
            range.wf(),
        ensures
            unowned(old(self)@, range) ==> published == Ok::<(), PageMapError>(()),
            !unowned(old(self)@, range) ==> published == Err::<(), PageMapError>(
                PageMapError::Occupied,
            ) && final(self)@ == old(self)@,
            published is Ok ==> final(self)@ == with_owner(old(self)@, range, owner),
    {
        let first: usize = range.base / PAGE_SIZE;
        let last: usize = (range.base + (range.len - 1)) / PAGE_SIZE;
        let ghost before = self@;
        let mut page: usize = first;
        while page <= last
            invariant
                first == page_of(range.base as int),
                last == page_of(range.base + range.len - 1),
                last < usize::MAX,
                first <= page <= last + 1,
                self@ == before,
                forall|p: usize| first <= p < page ==> !#[trigger] before.contains_key(p),
            decreases last + 1 - page,
        {
            if self.entries.contains_key(&page) {
                assert(covers(range, page as int));
                return Err(PageMapError::Occupied);
            }
            page = page + 1;
        }
        let mut page: usize = first;
        while page <= last
            invariant
                first == page_of(range.base as int),
                last == page_of(range.base + range.len - 1),
                last < usize::MAX,
                first <= page <= last + 1,
                forall|p: usize| #[trigger]
                    self@.contains_key(p) == (first <= p < page || before.contains_key(p)),
                forall|p: usize| #[trigger]
                    self@.contains_key(p) ==> self@[p] == if first <= p < page {
                        owner
                    } else {
                        before[p]
                    },
            decreases last + 1 - page,
        {
            let ghost was = self@;
            self.entries.insert(page, owner);
            assert(self@ == was.insert(page, owner));
            page = page + 1;
        }
        assert(self@ =~= with_owner(before, range, owner));
        Ok(())
    }

    /// Take every page of `range` from `owner`. Fails, changing nothing, when a page
    /// is not the owner's.
    pub fn unpublish(&mut self, range: AddressRange, owner: PageOwner) -> (unpublished: Result<
        (),
        PageMapError,
    >)
        requires
            range.wf(),
        ensures
            owned(old(self)@, range, owner) ==> unpublished == Ok::<(), PageMapError>(()),
            !owned(old(self)@, range, owner) ==> unpublished == Err::<(), PageMapError>(
                PageMapError::NotOwner,
            ) && final(self)@ == old(self)@,
            unpublished is Ok ==> final(self)@ == without_owner(old(self)@, range),
    {
        let first: usize = range.base / PAGE_SIZE;
        let last: usize = (range.base + (range.len - 1)) / PAGE_SIZE;
        let ghost before = self@;
        let mut page: usize = first;
        while page <= last
            invariant
                first == page_of(range.base as int),
                last == page_of(range.base + range.len - 1),
                last < usize::MAX,
                first <= page <= last + 1,
                self@ == before,
                forall|p: usize|
                    #![trigger before.contains_key(p)]
                    #![trigger before[p]]
                    first <= p < page ==> before.contains_key(p) && before[p] == owner,
            decreases last + 1 - page,
        {
            let same = match self.entries.get(&page) {
                Some(current) => *current == owner,
                None => false,
            };
            if !same {
                assert(covers(range, page as int));
                return Err(PageMapError::NotOwner);
            }
            page = page + 1;
        }
        let mut page: usize = first;
        while page <= last
            invariant
                first == page_of(range.base as int),
                last == page_of(range.base + range.len - 1),
                last < usize::MAX,
                first <= page <= last + 1,
                forall|p: usize| #[trigger]
                    self@.contains_key(p) == (!(first <= p < page) && before.contains_key(p)),
                forall|p: usize| #[trigger] self@.contains_key(p) ==> self@[p] == before[p],
            decreases last + 1 - page,
        {
            let ghost was = self@;
            let _removed = self.entries.remove(&page);
            assert(self@ == was.remove(page));
            page = page + 1;
        }
        assert(self@ =~= without_owner(before, range));
        assert(owned(before, range, owner));
        Ok(())
    }
}

/// Pages of heaps other than `heap` are as before.
pub open spec fn others_kept(
    before: Map<usize, PageOwner>,
    after: Map<usize, PageOwner>,
    heap: u32,
) -> bool {
    forall|page: usize|
        #![trigger before.contains_key(page)]
        #![trigger after.contains_key(page)]
        ({
            let kept = |pages: Map<usize, PageOwner>|
                pages.contains_key(page) && pages[page].spec_heap() != heap;
            kept(before) == kept(after) && (kept(before) ==> before[page] == after[page])
        })
}

/// Keeping other heaps' pages twice keeps them.
pub proof fn lemma_others_kept_trans(
    before: Map<usize, PageOwner>,
    middle: Map<usize, PageOwner>,
    after: Map<usize, PageOwner>,
    heap: u32,
)
    requires
        others_kept(before, middle, heap),
        others_kept(middle, after, heap),
    ensures
        others_kept(before, after, heap),
{
    assert forall|page: usize|
        #![trigger before.contains_key(page)]
        #![trigger after.contains_key(page)]
        ({
            let kept = |pages: Map<usize, PageOwner>|
                pages.contains_key(page) && pages[page].spec_heap() != heap;
            kept(before) == kept(after) && (kept(before) ==> before[page] == after[page])
        }) by {
        assert(middle.contains_key(page) || !middle.contains_key(page));
    }
}

/// Two ranges whose pages belong to different owners share no byte.
pub proof fn law_owners_share_no_byte(
    pages: Map<usize, PageOwner>,
    left: AddressRange,
    left_owner: PageOwner,
    right: AddressRange,
    right_owner: PageOwner,
)
    requires
        left.wf(),
        right.wf(),
        owned(pages, left, left_owner),
        owned(pages, right, right_owner),
        left_owner != right_owner,
    ensures
        left.disjoint(right),
{
    if !left.disjoint(right) {
        let addr: usize = if left.base <= right.base {
            right.base
        } else {
            left.base
        };
        let page: usize = (addr / 4096) as usize;
        assert(covers(left, page as int));
        assert(covers(right, page as int));
        assert(pages.contains_key(page));
    }
}

/// An owned range and an unowned one share no byte.
pub proof fn lemma_unowned_apart(
    pages: Map<usize, PageOwner>,
    left: AddressRange,
    owner: PageOwner,
    right: AddressRange,
)
    requires
        left.wf(),
        right.wf(),
        owned(pages, left, owner),
        unowned(pages, right),
    ensures
        left.disjoint(right),
{
    if !left.disjoint(right) {
        let addr: int = if left.base >= right.base {
            left.base as int
        } else {
            right.base as int
        };
        let page: usize = page_of(addr) as usize;
        assert(covers(left, page as int));
        assert(covers(right, page as int));
        assert(pages.contains_key(page));
    }
}

/// What the program has to do with bytes and mappings.
#[derive(Clone, Copy, Debug, PartialEq, Eq, Structural)]
pub enum Effect {
    /// Return the mapping to the operating system.
    Unmap(AddressRange),
    /// Drop the pages' contents. They read as zero where the platform honours it.
    Discard(AddressRange),
    /// Fill with zero.
    Zero(AddressRange),
    /// Copy `len` bytes from `from` to `to`.
    Copy { from: usize, to: usize, len: usize },
}

/// The bytes that `effect` writes or gives up.
pub open spec fn touched(effect: Effect) -> AddressRange {
    match effect {
        Effect::Unmap(range) => range,
        Effect::Discard(range) => range,
        Effect::Zero(range) => range,
        Effect::Copy { to, len, .. } => AddressRange { base: to, len },
    }
}

/// The bytes in memory after `effect`, on a platform that honours discards or not.
pub open spec fn after(effect: Effect, discards: bool, bytes: spec_fn(int) -> u8) -> spec_fn(int) -> u8 {
    match effect {
        Effect::Unmap(_) => bytes,
        Effect::Discard(range) => if discards {
            |addr: int|
                if range.has(addr) {
                    0u8
                } else {
                    bytes(addr)
                }
        } else {
            bytes
        },
        Effect::Zero(range) => |addr: int|
            if range.has(addr) {
                0u8
            } else {
                bytes(addr)
            },
        Effect::Copy { from, to, len } => |addr: int|
            if to <= addr < to + len {
                bytes(from + (addr - to))
            } else {
                bytes(addr)
            },
    }
}

/// The bytes in memory after all of `effects`, in order.
pub open spec fn after_all(effects: Seq<Effect>, discards: bool, bytes: spec_fn(int) -> u8) -> spec_fn(
    int,
) -> u8
    decreases effects.len(),
{
    if effects.len() == 0 {
        bytes
    } else {
        after(effects.last(), discards, after_all(effects.drop_last(), discards, bytes))
    }
}

/// A byte that no new effect touches keeps its value.
pub proof fn lemma_bytes_kept(
    old_effects: Seq<Effect>,
    effects: Seq<Effect>,
    discards: bool,
    bytes: spec_fn(int) -> u8,
    addr: int,
)
    requires
        old_effects.is_prefix_of(effects),
        forall|k: int|
            old_effects.len() <= k < effects.len() ==> !touched(#[trigger] effects[k]).has(addr),
    ensures
        after_all(effects, discards, bytes)(addr) == after_all(old_effects, discards, bytes)(addr),
    decreases effects.len(),
{
    if effects.len() == old_effects.len() {
        assert(effects =~= old_effects);
    } else {
        let rest = effects.drop_last();
        assert(old_effects.is_prefix_of(rest)) by {
            assert(rest.take(old_effects.len() as int) =~= effects.take(old_effects.len() as int));
        }
        assert forall|k: int| old_effects.len() <= k < rest.len() implies !touched(
            #[trigger] rest[k],
        ).has(addr) by {
            assert(rest[k] == effects[k]);
        }
        lemma_bytes_kept(old_effects, rest, discards, bytes, addr);
        assert(!touched(effects[effects.len() - 1]).has(addr));
    }
}

/// A mapping that could not be served from what was granted.
#[derive(Clone, Copy, Debug, PartialEq, Eq, Structural)]
pub struct MapRequest {
    pub len: usize,
    pub align: usize,
    pub hints: Hints,
}

/// `mapping` is what `request` asks for: whole pages of just that length, at a base of that
/// alignment.
pub open spec fn answers(mapping: Mapping, request: MapRequest) -> bool {
    &&& mapping.wf()
    &&& mapping.len == request.len
    &&& mapping.base as int % request.align as int == 0
}

/// The operating system as the library sees it: one mapping granted ahead of need,
/// the last request that found none, and the effects still to be carried out.
pub struct Os {
    pub grant: Option<Mapping>,
    pub wanted: Option<MapRequest>,
    pub effects: Vec<Effect>,
    /// Whether a discard makes pages read as zero.
    pub discards: bool,
}

impl Os {
    /// What was granted is a mapping.
    pub open spec fn wf(&self) -> bool {
        self.grant matches Some(mapping) ==> mapping.wf()
    }

    /// The mapping on offer covers `page`.
    pub open spec fn offers(&self, page: int) -> bool {
        self.grant matches Some(mapping) && covers(mapping.spec_range(), page)
    }

    /// The granted mapping serves a request for `len` bytes aligned to `align`.
    pub open spec fn can_map(&self, len: int, align: int) -> bool {
        self.grant matches Some(mapping) && mapping.len == len && mapping.base as int % align == 0
    }

    /// The request left for the system is for `len` bytes of plain pages.
    pub open spec fn asks_pages(&self, len: int) -> bool {
        self.wanted matches Some(request) && request.len == len && request.align == PAGE_SIZE
            && request.hints.hugepage == HugePage::Off && request.hints.numa == Numa::Off
    }

    pub fn new(discards: bool) -> (os: Self)
        ensures
            os.wf(),
            os.grant is None,
            os.wanted is None,
            os.effects@ == Seq::<Effect>::empty(),
            os.discards == discards,
    {
        Self { grant: None, wanted: None, effects: Vec::new(), discards }
    }

    pub fn page_size() -> (size: usize)
        ensures
            size == PAGE_SIZE,
    {
        PAGE_SIZE
    }

    /// Offer a zero-filled mapping. `false` for a range that is not whole pages
    /// inside the address space.
    pub fn grant(&mut self, base: usize, len: usize) -> (granted: bool)
        requires
            old(self).wf(),
        ensures
            final(self).wf(),
            granted == (Mapping { base, len }).wf(),
            final(self).grant == if granted {
                Some(Mapping { base, len })
            } else {
                old(self).grant
            },
            granted ==> final(self).wanted is None,
            !granted ==> final(self).wanted == old(self).wanted,
            final(self).effects == old(self).effects,
            final(self).discards == old(self).discards,
    {
        if base == 0 || base % PAGE_SIZE != 0 || len == 0 || len % PAGE_SIZE != 0 {
            return false;
        }
        if base > usize::MAX - len {
            return false;
        }
        self.grant = Some(Mapping { base, len });
        self.wanted = None;
        true
    }

    /// A fresh mapping of exactly `len` bytes.
    pub fn map(&mut self, len: usize) -> (mapping: Option<Mapping>)
        requires
            old(self).wf(),
        ensures
            final(self).wf(),
            final(self).effects == old(self).effects,
            final(self).discards == old(self).discards,
            old(self).can_map(len as int, PAGE_SIZE as int) ==> mapping == old(self).grant
                && final(self).grant is None && final(self).wanted is None,
            !old(self).can_map(len as int, PAGE_SIZE as int) ==> mapping is None && final(self).grant
                == old(self).grant && final(self).asks_pages(len as int),
            mapping matches Some(m) ==> m.wf() && m.len == len,
    {
        self.map_aligned_payload(len, PAGE_SIZE, Hints::new())
    }

    /// A fresh mapping of exactly `len` bytes whose base is a multiple of `align`.
    pub fn map_aligned_payload(&mut self, len: usize, align: usize, hints: Hints) -> (mapping:
        Option<Mapping>)
        requires
            old(self).wf(),
            align > 0,
        ensures
            final(self).wf(),
            final(self).effects == old(self).effects,
            final(self).discards == old(self).discards,
            old(self).can_map(len as int, align as int) ==> mapping == old(self).grant && final(self).grant is None && final(self).wanted is None,
            !old(self).can_map(len as int, align as int) ==> mapping is None && final(self).grant
                == old(self).grant && final(self).wanted == Some(MapRequest { len, align, hints }),
            mapping matches Some(m) ==> m.wf() && m.len == len && m.base % align == 0,
    {
        let fits = match &self.grant {
            Some(mapping) => mapping.len == len && mapping.base % align == 0,
            None => false,
        };
        if fits {
            self.wanted = None;
            self.grant.take()
        } else {
            self.wanted = Some(MapRequest { len, align, hints });
            None
        }
    }

    /// Return a mapping.
    pub fn unmap(&mut self, mapping: Mapping)
        requires
            old(self).wf(),
        ensures
            final(self).wf(),
            final(self).effects@ == old(self).effects@.push(Effect::Unmap(mapping.spec_range())),
            final(self).grant == old(self).grant,
            final(self).wanted == old(self).wanted,
            final(self).discards == old(self).discards,
    {
        self.effects.push(Effect::Unmap(mapping.range()));
    }

    /// Drop the contents of `range`. `true` when its bytes now read as zero.
    pub fn discard(&mut self, range: AddressRange) -> (zeroed: bool)
        requires
            old(self).wf(),
        ensures
            final(self).wf(),
            zeroed == old(self).discards,
            final(self).effects@ == old(self).effects@.push(Effect::Discard(range)),
            final(self).grant == old(self).grant,
            final(self).wanted == old(self).wanted,
            final(self).discards == old(self).discards,
    {
        self.effects.push(Effect::Discard(range));
        self.discards
    }

    /// Fill `len` bytes from `base` with zero.
    pub fn zero(&mut self, base: usize, len: usize)
        requires
            old(self).wf(),
        ensures
            final(self).wf(),
            final(self).effects@ == old(self).effects@.push(
                Effect::Zero(AddressRange { base, len }),
            ),
            final(self).grant == old(self).grant,
            final(self).wanted == old(self).wanted,
            final(self).discards == old(self).discards,
    {
        self.effects.push(Effect::Zero(AddressRange::new(base, len)));
    }

    /// Copy `len` bytes between two blocks.
    pub fn copy(&mut self, from: usize, to: usize, len: usize)
        requires
            old(self).wf(),
        ensures
            final(self).wf(),
            final(self).effects@ == old(self).effects@.push(Effect::Copy { from, to, len }),
            final(self).grant == old(self).grant,
            final(self).wanted == old(self).wanted,
            final(self).discards == old(self).discards,
    {
        self.effects.push(Effect::Copy { from, to, len });
    }
}

} // verus!
