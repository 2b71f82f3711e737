pub mod cache;
pub mod config;
pub mod heap;

use vstd::arithmetic::power2::is_pow2;
use vstd::prelude::*;

use super::inbox::Link;
use crate::layout::{lemma_round_up, round_up, LayoutSpec};
use crate::memory::{AddressRange, Effect, Mapping, Os};
use crate::size_class::{serves, SizeClasses, COUNT};

verus! {

/// Zeroed Keep reuse at or above this size discards instead of filling.
pub const LAZY_ZERO: usize = 65536;

/// How a newly allocated extent's bytes should be initialized.
///
/// Fresh mappings are already zero. Cached extents may be dirty, so `Zeroed` zeros
/// on cache hits: a discard on insert already dropped the pages, else Keep discards
/// from [`LAZY_ZERO`] bytes on, or fills. An allocate-time discard does not mark the
/// extent clean.
#[derive(Clone, Copy, Debug, PartialEq, Eq, Structural)]
pub enum ExtentInit {
    Uninit,
    Zeroed,
}

#[derive(Clone, Copy, Debug, PartialEq, Eq, Structural)]
pub struct ExtentId {
    /// One-based.
    pub index: u32,
}

impl ExtentId {
    pub open spec fn spec_index(self) -> int {
        self.index - 1
    }

    pub fn from_index(index: u32) -> (id: Option<Self>)
        ensures
            index < u32::MAX ==> id == Some(ExtentId { index: (index + 1) as u32 }),
            index == u32::MAX ==> id is None,
    {
        match index.checked_add(1) {
            Some(one_based) => Some(Self { index: one_based }),
            None => None,
        }
    }

    pub fn index(self) -> (index: u32)
        requires
            self.index > 0,
        ensures
            index == self.spec_index(),
    {
        self.index - 1
    }
}

#[derive(Clone, Copy, Debug, PartialEq, Eq, Structural)]
pub enum ExtentError {
    InvalidPointer,
    DoubleFree,
}

#[derive(Clone, Copy, Debug, PartialEq, Eq, Structural)]
pub enum ExtentState {
    Free,
    Allocated,
    Claimed,
}

impl ExtentState {
    pub open spec fn spec_raw(self) -> u8 {
        match self {
            ExtentState::Free => 0,
            ExtentState::Allocated => 1,
            ExtentState::Claimed => 2,
        }
    }

    pub fn raw(self) -> (raw: u8)
        ensures
            raw == self.spec_raw(),
    {
        match self {
            ExtentState::Free => 0,
            ExtentState::Allocated => 1,
            ExtentState::Claimed => 2,
        }
    }

    pub fn from_raw(raw: u8) -> (state: Option<Self>)
        ensures
            raw <= 2 ==> state is Some && state->0.spec_raw() == raw,
            raw > 2 ==> state is None,
    {
        match raw {
            0 => Some(ExtentState::Free),
            1 => Some(ExtentState::Allocated),
            2 => Some(ExtentState::Claimed),
            _ => None,
        }
    }
}

/// Where a block for `spec` lies in a mapping: its base rounded up, if the block
/// still fits.
pub open spec fn placed(mapping: Mapping, spec: LayoutSpec) -> Option<usize> {
    let base = round_up(mapping.base as int, spec.align as int);
    if mapping.base + spec.align - 1 <= usize::MAX && base + spec.size <= mapping.base
        + mapping.len {
        Some(base as usize)
    } else {
        None
    }
}

/// Place a block for `spec` in a mapping.
pub fn place(mapping: &Mapping, spec: LayoutSpec) -> (base: Option<usize>)
    requires
        mapping.wf(),
        spec.wf(),
    ensures
        base == placed(*mapping, spec),
        base matches Some(base) ==> base > 0 && base % spec.align == 0 && mapping.base <= base
            && base + spec.size <= mapping.base + mapping.len,
{
    proof {
        reveal(is_pow2);
        lemma_round_up(mapping.base as int, spec.align as int);
    }
    match spec.align_addr(mapping.base()) {
        None => None,
        Some(base) => {
            let range = AddressRange::new(base, spec.size());
            if mapping.range().contains(range) {
                Some(base)
            } else {
                None
            }
        },
    }
}

/// A mapping of the computed length always has room for its block.
pub proof fn law_own_mapping_fits(mapping: Mapping, spec: LayoutSpec, page_size: int)
    requires
        mapping.wf(),
        spec.wf(),
        page_size > 0,
        mapping.len == spec.spec_mapping_len(page_size),
    ensures
        placed(mapping, spec) is Some,
{
    reveal(is_pow2);
    lemma_round_up(mapping.base as int, spec.align as int);
    lemma_round_up(spec.size + spec.align - 1, page_size);
}

/// A block is placed at the first address of its mapping that has its alignment, where it
/// still ends inside; a mapping where it does not gets none.
pub proof fn law_block_is_placed_first(mapping: Mapping, spec: LayoutSpec)
    requires
        mapping.wf(),
        spec.wf(),
        mapping.base + spec.align - 1 <= usize::MAX,
    ensures
        match placed(mapping, spec) {
            Some(base) => {
                &&& base as int % spec.align as int == 0
                &&& mapping.base <= base < mapping.base + spec.align
                &&& base + spec.size <= mapping.base + mapping.len
            },
            None => forall|base: int|
                mapping.base <= base && #[trigger] (base % spec.align as int) == 0 ==> base
                    + spec.size > mapping.base + mapping.len,
        },
{
    reveal(is_pow2);
    let align = spec.align as int;
    let first = round_up(mapping.base as int, align);
    lemma_round_up(mapping.base as int, align);
    assert forall|base: int|
        mapping.base <= base && #[trigger] (base % align) == 0 implies first <= base by {
        if base < first {
            vstd::arithmetic::div_mod::lemma_fundamental_div_mod(base, align);
            vstd::arithmetic::div_mod::lemma_fundamental_div_mod(first, align);
            let low = base / align;
            let high = first / align;
            assert(high * align - low * align >= align) by (nonlinear_arith)
                requires
                    align > 0,
                    align * low < align * high,
            ;
            assert(low * align == align * low && high * align == align * high)
                by (nonlinear_arith);
        }
    }
}

/// One dedicated mapping and the block in it.
pub struct Extent {
    pub id: ExtentId,
    /// Slot of the owning heap.
    pub heap: u32,
    pub mapping: Option<Mapping>,
    /// User base; zero while unmapped.
    pub base: usize,
    /// User length.
    pub len: usize,
    pub state: ExtentState,
    /// Coalesced inbox membership.
    pub link: Link,
    /// Rest of the cache or unmapped list.
    pub next: Option<u32>,
    /// Pages known zero-filled while cached.
    pub clean: bool,
}

impl Extent {
    /// The user block lies in the mapping; without one the extent is free and empty.
    pub open spec fn wf(self) -> bool {
        &&& self.id.index > 0
        &&& match self.mapping {
            Some(mapping) => {
                &&& mapping.wf()
                &&& self.base > 0
                &&& self.len > 0
                &&& mapping.base <= self.base
                &&& self.base + self.len <= mapping.base + mapping.len
            },
            None => self.state == ExtentState::Free && self.base == 0 && self.len == 0,
        }
        &&& self.clean ==> self.state == ExtentState::Free
    }

    /// Allocated or claimed.
    pub open spec fn live(self) -> bool {
        self.state != ExtentState::Free
    }

    /// What resizing in place to `spec` gives.
    pub open spec fn resized(self, ptr: usize, spec: LayoutSpec) -> Result<bool, ExtentError> {
        if ptr == 0 || ptr != self.base {
            Err(ExtentError::InvalidPointer)
        } else {
            Ok(
                (forall|i: int| 0 <= i < COUNT ==> !#[trigger] serves(i, spec)) && ptr
                    % spec.align == 0 && (self.mapping matches Some(mapping) && ptr + spec.size
                    <= mapping.base + mapping.len),
            )
        }
    }

    pub fn new(id: ExtentId, heap: u32, mapping: Mapping, spec: LayoutSpec) -> (extent: Option<Self>)
        requires
            id.index > 0,
            mapping.wf(),
            spec.wf(),
        ensures
            extent is Some <==> placed(mapping, spec) is Some,
            extent matches Some(extent) ==> extent.wf() && extent == (Extent {
                id,
                heap,
                mapping: Some(mapping),
                base: placed(mapping, spec)->0,
                len: spec.size,
                state: ExtentState::Allocated,
                link: Link { queued: false },
                next: None,
                clean: false,
            }) && extent.base % spec.align == 0,
    {
        match place(&mapping, spec) {
            None => None,
            Some(base) => Some(
                Self {
                    id,
                    heap,
                    mapping: Some(mapping),
                    base,
                    len: spec.size(),
                    state: ExtentState::Allocated,
                    link: Link::new(),
                    next: None,
                    clean: false,
                },
            ),
        }
    }

    pub fn id(&self) -> (id: ExtentId)
        ensures
            id == self.id,
    {
        self.id
    }

    pub fn heap(&self) -> (heap: u32)
        ensures
            heap == self.heap,
    {
        self.heap
    }

    pub fn next(&self) -> (next: Option<u32>)
        ensures
            next == self.next,
    {
        self.next
    }

    pub fn set_next(&mut self, next: Option<u32>)
        ensures
            *final(self) == (Extent { next, ..*old(self) }),
    {
        self.next = next;
    }

    /// Drop the mapping's contents, recording whether they now read as zero.
    pub fn discard(&mut self, os: &mut Os)
        requires
            old(self).mapping is Some,
            old(os).wf(),
        ensures
            *final(self) == (Extent { clean: old(os).discards, ..*old(self) }),
            final(os).wf(),
            final(os).effects@ == old(os).effects@.push(
                Effect::Discard(old(self).mapping->0.spec_range()),
            ),
            final(os).grant == old(os).grant,
            final(os).wanted == old(os).wanted,
            final(os).discards == old(os).discards,
    {
        match &self.mapping {
            Some(mapping) => {
                self.clean = os.discard(mapping.range());
            },
            None => {},
        }
    }

    /// User base. Zero while unmapped.
    pub fn ptr(&self) -> (ptr: usize)
        ensures
            ptr == self.base,
    {
        self.base
    }

    /// Holder-side user length.
    pub fn len(&self) -> (len: usize)
        ensures
            len == self.len,
    {
        self.len
    }

    /// Allocated or claimed. Cached Free extents are not live.
    pub fn is_live(&self) -> (live: bool)
        ensures
            live == self.live(),
    {
        match self.state {
            ExtentState::Free => false,
            ExtentState::Allocated => true,
            ExtentState::Claimed => true,
        }
    }

    pub fn starts_at(&self, ptr: usize) -> (starts: bool)
        ensures
            starts == (ptr != 0 && ptr == self.base),
    {
        ptr != 0 && ptr == self.ptr()
    }

    /// Take `spec` as the block's new layout when the mapping still holds it.
    ///
    /// A layout that a size class serves is refused: a small free looks for a run,
    /// so such a block must move.
    pub fn resize_in_place(&mut self, ptr: usize, spec: LayoutSpec) -> (resized: Result<
        bool,
        ExtentError,
    >)
        requires
            old(self).wf(),
            spec.wf(),
        ensures
            final(self).wf(),
            resized == old(self).resized(ptr, spec),
            *final(self) == if resized == Ok::<bool, ExtentError>(true) {
                Extent { len: spec.size, ..*old(self) }
            } else {
                *old(self)
            },
    {
        if !self.starts_at(ptr) {
            return Err(ExtentError::InvalidPointer);
        }
        if SizeClasses::class_for(spec).is_some() {
            return Ok(false);
        }
        if !spec.is_addr_aligned(ptr) {
            return Ok(false);
        }
        let requested = AddressRange::new(ptr, spec.size());
        let fits = match &self.mapping {
            Some(mapping) => mapping.range().contains(requested),
            None => false,
        };
        if !fits {
            return Ok(false);
        }
        self.len = requested.len();
        Ok(true)
    }

    /// Give up the mapping and become an empty slot.
    pub fn unmount(&mut self) -> (mapping: Option<Mapping>)
        ensures
            mapping == old(self).mapping,
            *final(self) == (Extent {
                state: ExtentState::Free,
                base: 0,
                len: 0,
                clean: false,
                mapping: None,
                ..*old(self)
            }),
    {
        self.state = ExtentState::Free;
        self.base = 0;
        self.len = 0;
        self.clean = false;
        self.mapping.take()
    }

    /// Take a mapping into an empty slot. Hands the mapping back when the block does
    /// not fit.
    pub fn remount(&mut self, mapping: Mapping, spec: LayoutSpec) -> (mounted: Result<usize, Mapping>)
        requires
            old(self).wf(),
            old(self).mapping is None,
            mapping.wf(),
            spec.wf(),
        ensures
            final(self).wf(),
            match placed(mapping, spec) {
                None => mounted == Err::<usize, Mapping>(mapping) && *final(self) == *old(self),
                Some(base) => mounted == Ok::<usize, Mapping>(base) && base % spec.align == 0
                    && *final(self) == (Extent {
                    mapping: Some(mapping),
                    base,
                    len: spec.size,
                    clean: false,
                    state: ExtentState::Allocated,
                    ..*old(self)
                }),
            },
    {
        match place(&mapping, spec) {
            None => Err(mapping),
            Some(base) => {
                self.mapping = Some(mapping);
                self.base = base;
                self.len = spec.size();
                self.clean = false;
                self.state = ExtentState::Allocated;
                Ok(base)
            },
        }
    }

    /// Owner-local free: exact pointer, then Allocated to Free. A block already free
    /// or claimed is a double free.
    pub fn free(&mut self, ptr: usize) -> (freed: Result<(), ExtentError>)
        requires
            old(self).wf(),
        ensures
            final(self).wf(),
            freed == if ptr == 0 || ptr != old(self).base {
                Err::<(), ExtentError>(ExtentError::InvalidPointer)
            } else if old(self).state != ExtentState::Allocated {
                Err::<(), ExtentError>(ExtentError::DoubleFree)
            } else {
                Ok::<(), ExtentError>(())
            },
            *final(self) == if freed is Ok {
                Extent { state: ExtentState::Free, ..*old(self) }
            } else {
                *old(self)
            },
    {
        match self.validate_exact(ptr) {
            Err(error) => Err(error),
            Ok(()) => {
                if self.state != ExtentState::Allocated {
                    return Err(ExtentError::DoubleFree);
                }
                self.state = ExtentState::Free;
                Ok(())
            },
        }
    }

    /// Freer: exact pointer, then Allocated to Claimed.
    pub fn claim(&mut self, ptr: usize) -> (claimed: Result<(), ExtentError>)
        requires
            old(self).wf(),
        ensures
            final(self).wf(),
            claimed == if ptr == 0 || ptr != old(self).base {
                Err::<(), ExtentError>(ExtentError::InvalidPointer)
            } else if old(self).state != ExtentState::Allocated {
                Err::<(), ExtentError>(ExtentError::DoubleFree)
            } else {
                Ok::<(), ExtentError>(())
            },
            *final(self) == if claimed is Ok {
                Extent { state: ExtentState::Claimed, ..*old(self) }
            } else {
                *old(self)
            },
    {
        match self.validate_exact(ptr) {
            Err(error) => Err(error),
            Ok(()) => match self.state {
                ExtentState::Allocated => {
                    self.state = ExtentState::Claimed;
                    Ok(())
                },
                ExtentState::Claimed => Err(ExtentError::DoubleFree),
                ExtentState::Free => Err(ExtentError::DoubleFree),
            },
        }
    }

    /// Owner: exact pointer, Claimed to Free, then clear the queued mark.
    pub fn accept(&mut self, ptr: usize) -> (accepted: Result<(), ExtentError>)
        requires
            old(self).wf(),
        ensures
            final(self).wf(),
            accepted == if ptr == 0 || ptr != old(self).base {
                Err::<(), ExtentError>(ExtentError::InvalidPointer)
            } else if old(self).state == ExtentState::Free {
                Err::<(), ExtentError>(ExtentError::DoubleFree)
            } else if old(self).state == ExtentState::Allocated {
                Err::<(), ExtentError>(ExtentError::InvalidPointer)
            } else {
                Ok::<(), ExtentError>(())
            },
            *final(self) == if accepted is Ok {
                Extent { state: ExtentState::Free, link: Link { queued: false }, ..*old(self) }
            } else {
                *old(self)
            },
    {
        match self.validate_exact(ptr) {
            Err(error) => Err(error),
            Ok(()) => match self.state {
                ExtentState::Claimed => {
                    self.state = ExtentState::Free;
                    self.link.clear_queued();
                    Ok(())
                },
                ExtentState::Free => Err(ExtentError::DoubleFree),
                ExtentState::Allocated => Err(ExtentError::InvalidPointer),
            },
        }
    }

    /// What making a dirty block of `spec` zero takes.
    pub open spec fn zeroing(self, spec: LayoutSpec, base: usize, discards: bool) -> Seq<Effect> {
        let fill = Effect::Zero(AddressRange { base, len: spec.size });
        if spec.size >= LAZY_ZERO {
            let drop_pages = Effect::Discard(self.mapping->0.spec_range());
            if discards {
                seq![drop_pages]
            } else {
                seq![drop_pages, fill]
            }
        } else {
            seq![fill]
        }
    }

    /// Owner-local reuse of a cached Free mapping. `Zeroed` zeros a block not known
    /// to be zero.
    pub fn reuse(&mut self, spec: LayoutSpec, init: ExtentInit, os: &mut Os) -> (ptr: Option<usize>)
        requires
            old(self).wf(),
            old(self).mapping is Some,
            spec.wf(),
            old(os).wf(),
        ensures
            final(self).wf(),
            final(os).wf(),
            final(os).grant == old(os).grant,
            final(os).wanted == old(os).wanted,
            final(os).discards == old(os).discards,
            ptr == if old(self).state != ExtentState::Free {
                None::<usize>
            } else {
                placed(old(self).mapping->0, spec)
            },
            ptr is None ==> *final(self) == *old(self) && final(os).effects == old(os).effects,
            ptr matches Some(ptr) ==> ptr > 0 && ptr % spec.align == 0 && *final(self) == (Extent {
                base: ptr,
                len: spec.size,
                clean: false,
                state: ExtentState::Allocated,
                ..*old(self)
            }) && final(os).effects@ == old(os).effects@ + (if init == ExtentInit::Zeroed && !old(self).clean {
                old(self).zeroing(spec, ptr, old(os).discards)
            } else {
                Seq::<Effect>::empty()
            }),
    {
        if self.state != ExtentState::Free {
            return None;
        }
        let placement = match &self.mapping {
            None => None,
            Some(mapping) => place(mapping, spec),
        };
        match placement {
            None => None,
            Some(base) => {
                let clean = self.clean;
                self.base = base;
                self.len = spec.size();
                self.clean = false;
                self.state = ExtentState::Allocated;
                if init == ExtentInit::Zeroed && !clean {
                    self.zero_user(spec, os);
                }
                Some(base)
            },
        }
    }

    /// Make the user block zero.
    fn zero_user(&self, spec: LayoutSpec, os: &mut Os)
        requires
            self.wf(),
            self.mapping is Some,
            old(os).wf(),
        ensures
            final(os).wf(),
            final(os).grant == old(os).grant,
            final(os).wanted == old(os).wanted,
            final(os).discards == old(os).discards,
            final(os).effects@ == old(os).effects@ + self.zeroing(
                spec,
                self.base,
                old(os).discards,
            ),
    {
        let zeroed = match &self.mapping {
            Some(mapping) => spec.size() >= LAZY_ZERO && os.discard(mapping.range()),
            None => false,
        };
        if !zeroed {
            os.zero(self.base, spec.size());
        }
    }

    /// `ptr` is this extent's user base.
    pub fn validate_exact(&self, ptr: usize) -> (valid: Result<(), ExtentError>)
        ensures
            valid == if ptr == 0 || ptr != self.base {
                Err::<(), ExtentError>(ExtentError::InvalidPointer)
            } else {
                Ok::<(), ExtentError>(())
            },
    {
        if self.starts_at(ptr) {
            Ok(())
        } else {
            Err(ExtentError::InvalidPointer)
        }
    }
}

/// The zeroing steps leave the whole block zero, whatever was there.
pub proof fn law_zeroing_zeroes(
    extent: Extent,
    spec: LayoutSpec,
    base: usize,
    discards: bool,
    bytes: spec_fn(int) -> u8,
    addr: int,
)
    requires
        extent.mapping matches Some(mapping) && mapping.base <= base && base + spec.size
            <= mapping.base + mapping.len,
        base <= addr < base + spec.size,
    ensures
        crate::memory::after_all(extent.zeroing(spec, base, discards), discards, bytes)(addr) == 0,
{
    let steps = extent.zeroing(spec, base, discards);
    reveal_with_fuel(crate::memory::after_all, 3);
    if steps.len() == 2 {
        assert(steps.last() == Effect::Zero(AddressRange { base, len: spec.size }));
    } else {
        assert(steps.drop_last() =~= Seq::empty());
    }
}

} // verus!
