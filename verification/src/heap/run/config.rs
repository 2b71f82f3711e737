use vstd::prelude::*;

verus! {

/// Retention of resident pages on an empty run.
///
/// Heap maps stay mapped. `Discard` only drops payload pages.
#[derive(Clone, Copy, Debug, PartialEq, Eq, Structural)]
pub enum RunPolicy {
    /// Leave empty-run payload pages resident for reuse.
    Keep,
    /// Discard empty-run payload pages. The next checkout rebuilds via `extend`.
    Discard,
}

/// Empty-run resident-page policy.
#[derive(Clone, Copy, Debug, PartialEq, Eq, Structural)]
pub struct RunConfig {
    pub policy: RunPolicy,
}

impl RunConfig {
    #[must_use]
    pub fn new() -> (config: Self)
        ensures
            config == (RunConfig { policy: RunPolicy::Keep }),
    {
        Self { policy: RunPolicy::Keep }
    }

    #[must_use]
    pub fn policy(self) -> (policy: RunPolicy)
        ensures
            policy == self.policy,
    {
        self.policy
    }

    #[must_use]
    pub fn with_policy(self, policy: RunPolicy) -> (config: Self)
        ensures
            config == (RunConfig { policy }),
    {
        Self { policy }
    }
}

impl Default for RunConfig {
    fn default() -> (config: Self)
        ensures
            config == (RunConfig { policy: RunPolicy::Keep }),
    {
        Self::new()
    }
}

} // verus!
