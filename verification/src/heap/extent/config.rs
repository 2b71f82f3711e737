use vstd::prelude::*;

use crate::config::Budget;

verus! {

/// Dedicated extent mapping cache configuration.
#[derive(Clone, Copy, Debug, PartialEq, Eq, Structural)]
pub struct ExtentConfig {
    pub policy: ExtentPolicy,
    pub budget: Budget,
}

impl ExtentConfig {
    #[must_use]
    pub fn new() -> (config: Self)
        ensures
            config == (ExtentConfig {
                policy: ExtentPolicy::Keep,
                budget: Budget { slots: 64, bytes: 67108864 },
            }),
    {
        Self { policy: ExtentPolicy::Keep, budget: Budget::new(64, 64 * 1024 * 1024) }
    }

    #[must_use]
    pub fn policy(self) -> (policy: ExtentPolicy)
        ensures
            policy == self.policy,
    {
        self.policy
    }

    #[must_use]
    pub fn budget(self) -> (budget: Budget)
        ensures
            budget == self.budget,
    {
        self.budget
    }

    #[must_use]
    pub fn with_policy(self, policy: ExtentPolicy) -> (config: Self)
        ensures
            config == (ExtentConfig { policy, ..self }),
    {
        Self { policy, budget: self.budget }
    }

    #[must_use]
    pub fn with_budget(self, budget: Budget) -> (config: Self)
        ensures
            config == (ExtentConfig { budget, ..self }),
    {
        Self { policy: self.policy, budget }
    }
}

impl Default for ExtentConfig {
    fn default() -> (config: Self)
        ensures
            config == (ExtentConfig {
                policy: ExtentPolicy::Keep,
                budget: Budget { slots: 64, bytes: 67108864 },
            }),
    {
        Self::new()
    }
}

/// Retention policy for freed dedicated extent mappings.
///
/// Allocation-side lookup always reuses a retained mapping with exactly the
/// requested length; there is no size-bucket or best-fit reuse strategy.
#[derive(Clone, Copy, Debug, PartialEq, Eq, Structural)]
pub enum ExtentPolicy {
    /// Retain a freed mapping only while both slot and byte budget have free
    /// capacity; otherwise the mapping is unmapped. Keep never evicts a
    /// retained mapping to admit another. Reused pages stay dirty.
    Keep,
    /// Like [`Self::Keep`], then discard the mapping's pages. Zeroed reuse skips
    /// the fill when the discard succeeded.
    Discard,
    /// Do not retain freed extent mappings; unmap immediately.
    Unmap,
}

impl ExtentPolicy {
    /// `Unmap` does not retain; every other policy does.
    pub fn retains(self) -> (retains: bool)
        ensures
            retains == (self != ExtentPolicy::Unmap),
    {
        !matches!(self, ExtentPolicy::Unmap)
    }
}

} // verus!
