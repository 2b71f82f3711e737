//! The page that was looked up last, with its run.

use vstd::prelude::*;

use crate::memory::{PageMap, PageOwner, PAGE_SIZE};

verus! {

/// One page and its run. Extents are not kept: their pages may change owner.
pub struct PageCache {
    pub entry: Option<(usize, PageOwner)>,
}

impl PageCache {
    /// The entry is what the page map says.
    pub open spec fn valid(self, pages: Map<usize, PageOwner>) -> bool {
        self.entry matches Some((page, owner)) ==> owner is Run && pages.contains_key(page)
            && pages[page] == owner
    }

    pub fn new() -> (cache: Self)
        ensures
            cache.entry is None,
    {
        Self { entry: None }
    }

    pub fn clear(&mut self)
        ensures
            final(self).entry is None,
    {
        self.entry = None;
    }

    /// Who owns the page of `ptr`.
    pub fn lookup_owner(&mut self, pages: &PageMap, ptr: usize) -> (owner: Option<PageOwner>)
        requires
            old(self).valid(pages@),
        ensures
            final(self).valid(pages@),
            owner == if pages@.contains_key((ptr / 4096) as usize) {
                Some(pages@[(ptr / 4096) as usize])
            } else {
                None
            },
            match owner {
                Some(owner) if owner is Run => final(self).entry == Some(
                    ((ptr / 4096) as usize, owner),
                ),
                _ => final(self).entry == old(self).entry,
            },
    {
        let page: usize = ptr / PAGE_SIZE;
        if let Some((cached, owner)) = self.entry {
            if cached == page {
                return Some(owner);
            }
        }
        match pages.get(ptr) {
            Some(owner) => {
                if let PageOwner::Run { .. } = owner {
                    self.entry = Some((page, owner));
                }
                Some(owner)
            },
            None => None,
        }
    }
}

/// A cache stays valid as long as pages of runs keep their run.
pub proof fn law_cache_outlives_extents(
    cache: PageCache,
    before: Map<usize, PageOwner>,
    after: Map<usize, PageOwner>,
)
    requires
        cache.valid(before),
        forall|page: usize| #[trigger]
            before.contains_key(page) && before[page] is Run ==> after.contains_key(page)
                && after[page] == before[page],
    ensures
        cache.valid(after),
{
}

} // verus!
