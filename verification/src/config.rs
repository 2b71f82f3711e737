use vstd::prelude::*;
use vstd::string::*;

use crate::decimal::parse_usize;
use crate::heap::extent::config::{ExtentConfig, ExtentPolicy};
use crate::heap::run::config::{RunConfig, RunPolicy};

verus! {

/// Payload hugepage policy.
#[derive(Clone, Copy, Debug, PartialEq, Eq, Structural)]
pub enum HugePage {
    /// Ordinary anonymous pages, with no hugepage advice.
    Off,
    /// Ordinary mapping followed by the best-effort hugepage hint.
    Thp,
}

/// Payload NUMA policy.
#[derive(Clone, Copy, Debug, PartialEq, Eq, Structural)]
pub enum Numa {
    /// Kernel first-touch placement.
    Off,
    /// Best-effort preferred placement on the allocating thread's node.
    Local,
}

impl Default for HugePage {
    fn default() -> (policy: Self)
        ensures
            policy == HugePage::Off,
    {
        HugePage::Off
    }
}

impl Default for Numa {
    fn default() -> (policy: Self)
        ensures
            policy == Numa::Off,
    {
        Numa::Off
    }
}

/// Best-effort hugepage and NUMA hints for a payload map.
#[derive(Clone, Copy, Debug, PartialEq, Eq, Structural)]
pub struct Hints {
    pub hugepage: HugePage,
    pub numa: Numa,
}

impl Hints {
    #[must_use]
    pub fn new() -> (hints: Self)
        ensures
            hints == (Hints { hugepage: HugePage::Off, numa: Numa::Off }),
    {
        Self { hugepage: HugePage::Off, numa: Numa::Off }
    }

    #[must_use]
    pub fn hugepage(self) -> (policy: HugePage)
        ensures
            policy == self.hugepage,
    {
        self.hugepage
    }

    #[must_use]
    pub fn numa(self) -> (policy: Numa)
        ensures
            policy == self.numa,
    {
        self.numa
    }

    #[must_use]
    pub fn with_hugepage(self, hugepage: HugePage) -> (hints: Self)
        ensures
            hints == (Hints { hugepage, ..self }),
    {
        Self { hugepage, numa: self.numa }
    }

    #[must_use]
    pub fn with_numa(self, numa: Numa) -> (hints: Self)
        ensures
            hints == (Hints { numa, ..self }),
    {
        Self { hugepage: self.hugepage, numa }
    }
}

impl Default for Hints {
    fn default() -> (hints: Self)
        ensures
            hints == (Hints { hugepage: HugePage::Off, numa: Numa::Off }),
    {
        Self::new()
    }
}

/// Slot and byte limits for allocator mapping caches.
///
/// Slot and byte limits are enforced exactly. There is no internal clamp.
#[derive(Clone, Copy, Debug, PartialEq, Eq, Structural)]
pub struct Budget {
    pub slots: usize,
    pub bytes: usize,
}

impl Budget {
    #[must_use]
    pub fn new(slots: usize, bytes: usize) -> (budget: Self)
        ensures
            budget == (Budget { slots, bytes }),
    {
        Self { slots, bytes }
    }

    #[must_use]
    pub fn slots(self) -> (slots: usize)
        ensures
            slots == self.slots,
    {
        self.slots
    }

    #[must_use]
    pub fn bytes(self) -> (bytes: usize)
        ensures
            bytes == self.bytes,
    {
        self.bytes
    }
}

/// Immutable allocator configuration for tunable allocator behavior.
#[derive(Clone, Copy, Debug, PartialEq, Eq, Structural)]
pub struct AllocatorConfig {
    pub extent: ExtentConfig,
    pub run: RunConfig,
    pub hints: Hints,
}

/// The configuration before any setting is changed.
pub open spec fn default_config() -> AllocatorConfig {
    AllocatorConfig {
        extent: ExtentConfig {
            policy: ExtentPolicy::Keep,
            budget: Budget { slots: 64, bytes: 67108864 },
        },
        run: RunConfig { policy: RunPolicy::Keep },
        hints: Hints { hugepage: HugePage::Off, numa: Numa::Off },
    }
}

/// `config` after the setting `name` was given the text `value`.
///
/// An unknown name, an unknown policy word, and text that is no machine number
/// leave the configuration as it was.
pub open spec fn overlaid(config: AllocatorConfig, name: Seq<u8>, value: Seq<u8>) -> AllocatorConfig {
    if name == "RUNIC_HUGEPAGE".spec_bytes() {
        if value == "off".spec_bytes() {
            AllocatorConfig { hints: Hints { hugepage: HugePage::Off, ..config.hints }, ..config }
        } else if value == "thp".spec_bytes() {
            AllocatorConfig { hints: Hints { hugepage: HugePage::Thp, ..config.hints }, ..config }
        } else {
            config
        }
    } else if name == "RUNIC_NUMA".spec_bytes() {
        if value == "off".spec_bytes() {
            AllocatorConfig { hints: Hints { numa: Numa::Off, ..config.hints }, ..config }
        } else if value == "local".spec_bytes() {
            AllocatorConfig { hints: Hints { numa: Numa::Local, ..config.hints }, ..config }
        } else {
            config
        }
    } else if name == "RUNIC_EXTENT_POLICY".spec_bytes() {
        match extent_policy_word(value) {
            Some(policy) => AllocatorConfig {
                extent: ExtentConfig { policy, ..config.extent },
                ..config
            },
            None => config,
        }
    } else if name == "RUNIC_RUN_POLICY".spec_bytes() {
        if value == "keep".spec_bytes() {
            AllocatorConfig { run: RunConfig { policy: RunPolicy::Keep }, ..config }
        } else if value == "discard".spec_bytes() {
            AllocatorConfig { run: RunConfig { policy: RunPolicy::Discard }, ..config }
        } else {
            config
        }
    } else if name == "RUNIC_EXTENT_SLOTS".spec_bytes() {
        match crate::decimal::parsed(value, usize::MAX as nat) {
            Some(slots) => with_budget_of(
                config,
                Budget { slots: slots as usize, ..config.extent.budget },
            ),
            None => config,
        }
    } else if name == "RUNIC_EXTENT_BYTES".spec_bytes() {
        match crate::decimal::parsed(value, usize::MAX as nat) {
            Some(bytes) => with_budget_of(
                config,
                Budget { bytes: bytes as usize, ..config.extent.budget },
            ),
            None => config,
        }
    } else {
        config
    }
}

/// `config` with another extent cache budget.
pub open spec fn with_budget_of(config: AllocatorConfig, budget: Budget) -> AllocatorConfig {
    AllocatorConfig { extent: ExtentConfig { budget, ..config.extent }, ..config }
}

/// The extent policy that a word names.
pub open spec fn extent_policy_word(value: Seq<u8>) -> Option<ExtentPolicy> {
    if value == "keep".spec_bytes() {
        Some(ExtentPolicy::Keep)
    } else if value == "discard".spec_bytes() {
        Some(ExtentPolicy::Discard)
    } else if value == "unmap".spec_bytes() {
        Some(ExtentPolicy::Unmap)
    } else {
        None
    }
}

/// The settings read at start-up, in the order in which they are applied.
#[derive(Clone, Copy, Debug)]
pub struct Environment<'a> {
    pub hugepage: Option<&'a [u8]>,
    pub numa: Option<&'a [u8]>,
    pub extent_policy: Option<&'a [u8]>,
    pub extent_slots: Option<&'a [u8]>,
    pub extent_bytes: Option<&'a [u8]>,
    pub run_policy: Option<&'a [u8]>,
}

/// A name that is none of the settings.
pub open spec fn unknown_setting(name: Seq<u8>) -> bool {
    &&& name != "RUNIC_HUGEPAGE".spec_bytes()
    &&& name != "RUNIC_NUMA".spec_bytes()
    &&& name != "RUNIC_EXTENT_POLICY".spec_bytes()
    &&& name != "RUNIC_RUN_POLICY".spec_bytes()
    &&& name != "RUNIC_EXTENT_SLOTS".spec_bytes()
    &&& name != "RUNIC_EXTENT_BYTES".spec_bytes()
}

/// A setting that is not known leaves the configuration as it was, and so does text that
/// is neither a policy word nor a machine number, whatever it is given to.
pub proof fn law_what_is_unknown_changes_nothing(
    config: AllocatorConfig,
    name: Seq<u8>,
    value: Seq<u8>,
)
    ensures
        unknown_setting(name) ==> overlaid(config, name, value) == config,
        crate::decimal::parsed(value, usize::MAX as nat) is None && extent_policy_word(value) is None
            && value != "off".spec_bytes() && value != "thp".spec_bytes() && value
            != "local".spec_bytes() ==> overlaid(config, name, value) == config,
{
}

/// Two texts are the same bytes only if they are the same text.
proof fn lemma_bytes_tell_apart(left: &str, right: &str)
    requires
        left@ != right@,
    ensures
        left.spec_bytes() != right.spec_bytes(),
{
    vstd::utf8::encode_utf8_decode_utf8(left@);
    vstd::utf8::encode_utf8_decode_utf8(right@);
}

/// The six settings have six names.
proof fn lemma_names_differ()
    ensures
        "RUNIC_HUGEPAGE".spec_bytes() != "RUNIC_NUMA".spec_bytes(),
        "RUNIC_HUGEPAGE".spec_bytes() != "RUNIC_EXTENT_POLICY".spec_bytes(),
        "RUNIC_HUGEPAGE".spec_bytes() != "RUNIC_RUN_POLICY".spec_bytes(),
        "RUNIC_HUGEPAGE".spec_bytes() != "RUNIC_EXTENT_SLOTS".spec_bytes(),
        "RUNIC_HUGEPAGE".spec_bytes() != "RUNIC_EXTENT_BYTES".spec_bytes(),
        "RUNIC_NUMA".spec_bytes() != "RUNIC_EXTENT_POLICY".spec_bytes(),
        "RUNIC_NUMA".spec_bytes() != "RUNIC_RUN_POLICY".spec_bytes(),
        "RUNIC_NUMA".spec_bytes() != "RUNIC_EXTENT_SLOTS".spec_bytes(),
        "RUNIC_NUMA".spec_bytes() != "RUNIC_EXTENT_BYTES".spec_bytes(),
        "RUNIC_EXTENT_POLICY".spec_bytes() != "RUNIC_RUN_POLICY".spec_bytes(),
        "RUNIC_EXTENT_POLICY".spec_bytes() != "RUNIC_EXTENT_SLOTS".spec_bytes(),
        "RUNIC_EXTENT_POLICY".spec_bytes() != "RUNIC_EXTENT_BYTES".spec_bytes(),
        "RUNIC_RUN_POLICY".spec_bytes() != "RUNIC_EXTENT_SLOTS".spec_bytes(),
        "RUNIC_RUN_POLICY".spec_bytes() != "RUNIC_EXTENT_BYTES".spec_bytes(),
        "RUNIC_EXTENT_SLOTS".spec_bytes() != "RUNIC_EXTENT_BYTES".spec_bytes(),
{
    reveal_strlit("RUNIC_HUGEPAGE");
    reveal_strlit("RUNIC_NUMA");
    reveal_strlit("RUNIC_EXTENT_POLICY");
    reveal_strlit("RUNIC_RUN_POLICY");
    reveal_strlit("RUNIC_EXTENT_SLOTS");
    reveal_strlit("RUNIC_EXTENT_BYTES");
    assert("RUNIC_HUGEPAGE"@[6] == 'H');
    assert("RUNIC_NUMA"@[6] == 'N');
    assert("RUNIC_EXTENT_POLICY"@[6] == 'E');
    assert("RUNIC_EXTENT_POLICY"@[13] == 'P');
    assert("RUNIC_RUN_POLICY"@[6] == 'R');
    assert("RUNIC_EXTENT_SLOTS"@[6] == 'E');
    assert("RUNIC_EXTENT_SLOTS"@[13] == 'S');
    assert("RUNIC_EXTENT_BYTES"@[6] == 'E');
    assert("RUNIC_EXTENT_BYTES"@[13] == 'B');
    lemma_bytes_tell_apart("RUNIC_HUGEPAGE", "RUNIC_NUMA");
    lemma_bytes_tell_apart("RUNIC_HUGEPAGE", "RUNIC_EXTENT_POLICY");
    lemma_bytes_tell_apart("RUNIC_HUGEPAGE", "RUNIC_RUN_POLICY");
    lemma_bytes_tell_apart("RUNIC_HUGEPAGE", "RUNIC_EXTENT_SLOTS");
    lemma_bytes_tell_apart("RUNIC_HUGEPAGE", "RUNIC_EXTENT_BYTES");
    lemma_bytes_tell_apart("RUNIC_NUMA", "RUNIC_EXTENT_POLICY");
    lemma_bytes_tell_apart("RUNIC_NUMA", "RUNIC_RUN_POLICY");
    lemma_bytes_tell_apart("RUNIC_NUMA", "RUNIC_EXTENT_SLOTS");
    lemma_bytes_tell_apart("RUNIC_NUMA", "RUNIC_EXTENT_BYTES");
    lemma_bytes_tell_apart("RUNIC_EXTENT_POLICY", "RUNIC_RUN_POLICY");
    lemma_bytes_tell_apart("RUNIC_EXTENT_POLICY", "RUNIC_EXTENT_SLOTS");
    lemma_bytes_tell_apart("RUNIC_EXTENT_POLICY", "RUNIC_EXTENT_BYTES");
    lemma_bytes_tell_apart("RUNIC_RUN_POLICY", "RUNIC_EXTENT_SLOTS");
    lemma_bytes_tell_apart("RUNIC_RUN_POLICY", "RUNIC_EXTENT_BYTES");
    lemma_bytes_tell_apart("RUNIC_EXTENT_SLOTS", "RUNIC_EXTENT_BYTES");
}

/// The policy words are different words.
proof fn lemma_words_differ()
    ensures
        "keep".spec_bytes() != "discard".spec_bytes(),
        "keep".spec_bytes() != "unmap".spec_bytes(),
        "discard".spec_bytes() != "unmap".spec_bytes(),
        "off".spec_bytes() != "thp".spec_bytes(),
        "off".spec_bytes() != "local".spec_bytes(),
{
    reveal_strlit("keep");
    reveal_strlit("discard");
    reveal_strlit("unmap");
    reveal_strlit("off");
    reveal_strlit("thp");
    reveal_strlit("local");
    assert("keep"@[0] == 'k');
    assert("discard"@[0] == 'd');
    assert("unmap"@[0] == 'u');
    assert("off"@[0] == 'o');
    assert("thp"@[0] == 't');
    assert("local"@[0] == 'l');
    lemma_bytes_tell_apart("keep", "discard");
    lemma_bytes_tell_apart("keep", "unmap");
    lemma_bytes_tell_apart("discard", "unmap");
    lemma_bytes_tell_apart("off", "thp");
    lemma_bytes_tell_apart("off", "local");
}

/// `after` is `before` in everything but perhaps the extent policy.
pub open spec fn all_but_extent_policy(before: AllocatorConfig, after: AllocatorConfig) -> bool {
    &&& after.extent.budget == before.extent.budget
    &&& after.run == before.run
    &&& after.hints == before.hints
}

/// `after` is `before` in everything but perhaps the extent budget.
pub open spec fn all_but_budget(before: AllocatorConfig, after: AllocatorConfig) -> bool {
    &&& after.extent.policy == before.extent.policy
    &&& after.run == before.run
    &&& after.hints == before.hints
}

/// `after` is `before` in everything but perhaps the hints.
pub open spec fn all_but_hints(before: AllocatorConfig, after: AllocatorConfig) -> bool {
    &&& after.extent == before.extent
    &&& after.run == before.run
}

/// Whatever the configuration was, the extent policy becomes the one that the word names:
/// `keep` is Keep, `discard` is Discard and `unmap` is Unmap. Nothing else changes, and no
/// other text changes anything.
pub proof fn law_extent_policy_is_what_the_word_says(config: AllocatorConfig, value: Seq<u8>)
    ensures
        ({
            let after = overlaid(config, "RUNIC_EXTENT_POLICY".spec_bytes(), value);
            &&& all_but_extent_policy(config, after)
            &&& value == "keep".spec_bytes() ==> after.extent.policy == ExtentPolicy::Keep
            &&& value == "discard".spec_bytes() ==> after.extent.policy == ExtentPolicy::Discard
            &&& value == "unmap".spec_bytes() ==> after.extent.policy == ExtentPolicy::Unmap
            &&& value != "keep".spec_bytes() && value != "discard".spec_bytes() && value
                != "unmap".spec_bytes() ==> after == config
        }),
{
    lemma_names_differ();
    lemma_words_differ();
}

/// Whatever the configuration was, the run policy becomes the one that the word names:
/// `keep` is Keep and `discard` is Discard. Nothing else changes, and no other text changes
/// anything.
pub proof fn law_run_policy_is_what_the_word_says(config: AllocatorConfig, value: Seq<u8>)
    ensures
        ({
            let after = overlaid(config, "RUNIC_RUN_POLICY".spec_bytes(), value);
            &&& after.extent == config.extent
            &&& after.hints == config.hints
            &&& value == "keep".spec_bytes() ==> after.run.policy == RunPolicy::Keep
            &&& value == "discard".spec_bytes() ==> after.run.policy == RunPolicy::Discard
            &&& value != "keep".spec_bytes() && value != "discard".spec_bytes() ==> after == config
        }),
{
    lemma_names_differ();
    lemma_words_differ();
}

/// Whatever the configuration was, the hugepage and NUMA hints become what the words name:
/// `off` is Off for both, `thp` is Thp and `local` is Local. Nothing else changes, and no
/// other text changes anything.
pub proof fn law_hints_are_what_the_words_say(config: AllocatorConfig, value: Seq<u8>)
    ensures
        ({
            let huge = overlaid(config, "RUNIC_HUGEPAGE".spec_bytes(), value);
            &&& all_but_hints(config, huge)
            &&& huge.hints.numa == config.hints.numa
            &&& value == "off".spec_bytes() ==> huge.hints.hugepage == HugePage::Off
            &&& value == "thp".spec_bytes() ==> huge.hints.hugepage == HugePage::Thp
            &&& value != "off".spec_bytes() && value != "thp".spec_bytes() ==> huge == config
        }),
        ({
            let node = overlaid(config, "RUNIC_NUMA".spec_bytes(), value);
            &&& all_but_hints(config, node)
            &&& node.hints.hugepage == config.hints.hugepage
            &&& value == "off".spec_bytes() ==> node.hints.numa == Numa::Off
            &&& value == "local".spec_bytes() ==> node.hints.numa == Numa::Local
            &&& value != "off".spec_bytes() && value != "local".spec_bytes() ==> node == config
        }),
{
    lemma_names_differ();
    lemma_words_differ();
}

/// Whatever the configuration was, each budget becomes the machine number that its text
/// is the decimal form of, zero included and without a clamp. Nothing else changes, and text
/// that is no number of digits after an optional plus sign, or too large a one, changes
/// nothing.
pub proof fn law_budget_is_the_number_written(config: AllocatorConfig, value: Seq<u8>, number: usize)
    ensures
        ({
            let after = overlaid(config, "RUNIC_EXTENT_SLOTS".spec_bytes(), value);
            let digits = crate::decimal::digits_of(number as nat);
            &&& all_but_budget(config, after)
            &&& after.extent.budget.bytes == config.extent.budget.bytes
            &&& value == digits || value == seq![43u8] + digits ==> after.extent.budget.slots
                == number
            &&& crate::decimal::parsed(value, usize::MAX as nat) is None ==> after == config
        }),
        ({
            let after = overlaid(config, "RUNIC_EXTENT_BYTES".spec_bytes(), value);
            let digits = crate::decimal::digits_of(number as nat);
            &&& all_but_budget(config, after)
            &&& after.extent.budget.slots == config.extent.budget.slots
            &&& value == digits || value == seq![43u8] + digits ==> after.extent.budget.bytes
                == number
            &&& crate::decimal::parsed(value, usize::MAX as nat) is None ==> after == config
        }),
{
    lemma_names_differ();
    crate::decimal::lemma_digits_of(number as nat);
    crate::decimal::law_parse_inverts_digits(number as nat, usize::MAX as nat);
    crate::decimal::law_plus_sign_does_not_count(
        crate::decimal::digits_of(number as nat),
        usize::MAX as nat,
    );
}

/// Without a setting a configuration keeps freed memory, up to 64 mappings and 64 MiB of
/// them, and asks for neither huge pages nor a node.
pub proof fn law_defaults_keep_memory()
    ensures
        default_config().extent.policy == ExtentPolicy::Keep,
        default_config().extent.budget.slots == 64,
        default_config().extent.budget.bytes == 64 * 1024 * 1024,
        default_config().run.policy == RunPolicy::Keep,
        default_config().hints.hugepage == HugePage::Off,
        default_config().hints.numa == Numa::Off,
{
}

/// What the environment leaves of each setting depends on that setting's own variable alone,
/// and a variable that is unset leaves its setting as it was.
pub proof fn law_settings_are_independent(config: AllocatorConfig, env: Environment<'_>)
    ensures
        ({
            let after = overlaid_env(config, env);
            &&& after.hints.hugepage == overlaid_if_set(
                config,
                "RUNIC_HUGEPAGE".spec_bytes(),
                env.hugepage,
            ).hints.hugepage
            &&& after.hints.numa == overlaid_if_set(
                config,
                "RUNIC_NUMA".spec_bytes(),
                env.numa,
            ).hints.numa
            &&& after.extent.policy == overlaid_if_set(
                config,
                "RUNIC_EXTENT_POLICY".spec_bytes(),
                env.extent_policy,
            ).extent.policy
            &&& after.extent.budget.slots == overlaid_if_set(
                config,
                "RUNIC_EXTENT_SLOTS".spec_bytes(),
                env.extent_slots,
            ).extent.budget.slots
            &&& after.extent.budget.bytes == overlaid_if_set(
                config,
                "RUNIC_EXTENT_BYTES".spec_bytes(),
                env.extent_bytes,
            ).extent.budget.bytes
            &&& after.run.policy == overlaid_if_set(
                config,
                "RUNIC_RUN_POLICY".spec_bytes(),
                env.run_policy,
            ).run.policy
            &&& env.hugepage is None ==> after.hints.hugepage == config.hints.hugepage
            &&& env.numa is None ==> after.hints.numa == config.hints.numa
            &&& env.extent_policy is None ==> after.extent.policy == config.extent.policy
            &&& env.extent_slots is None ==> after.extent.budget.slots
                == config.extent.budget.slots
            &&& env.extent_bytes is None ==> after.extent.budget.bytes
                == config.extent.budget.bytes
            &&& env.run_policy is None ==> after.run.policy == config.run.policy
        }),
{
    lemma_names_differ();
}

/// `config` after one setting that may be unset.
pub open spec fn overlaid_if_set(
    config: AllocatorConfig,
    name: Seq<u8>,
    value: Option<&[u8]>,
) -> AllocatorConfig {
    match value {
        Some(text) => overlaid(config, name, text@),
        None => config,
    }
}

/// `config` after every setting of `env`.
pub open spec fn overlaid_env(config: AllocatorConfig, env: Environment<'_>) -> AllocatorConfig {
    let config = overlaid_if_set(config, "RUNIC_HUGEPAGE".spec_bytes(), env.hugepage);
    let config = overlaid_if_set(config, "RUNIC_NUMA".spec_bytes(), env.numa);
    let config = overlaid_if_set(config, "RUNIC_EXTENT_POLICY".spec_bytes(), env.extent_policy);
    let config = overlaid_if_set(config, "RUNIC_EXTENT_SLOTS".spec_bytes(), env.extent_slots);
    let config = overlaid_if_set(config, "RUNIC_EXTENT_BYTES".spec_bytes(), env.extent_bytes);
    overlaid_if_set(config, "RUNIC_RUN_POLICY".spec_bytes(), env.run_policy)
}

/// Whether two byte strings are the same.
pub fn same_bytes(left: &[u8], right: &[u8]) -> (same: bool)
    ensures
        same == (left@ == right@),
{
    if left.len() != right.len() {
        return false;
    }
    let mut i: usize = 0;
    while i < left.len()
        invariant
            left@.len() == right@.len(),
            i <= left@.len(),
            forall|k: int| 0 <= k < i ==> left@[k] == right@[k],
        decreases left@.len() - i,
    {
        if left[i] != right[i] {
            assert(left@[i as int] != right@[i as int]);
            return false;
        }
        i = i + 1;
    }
    assert(left@ =~= right@);
    true
}

impl AllocatorConfig {
    #[must_use]
    pub fn new() -> (config: Self)
        ensures
            config == default_config(),
    {
        Self { extent: ExtentConfig::new(), run: RunConfig::new(), hints: Hints::new() }
    }

    #[must_use]
    pub fn extent(self) -> (extent: ExtentConfig)
        ensures
            extent == self.extent,
    {
        self.extent
    }

    #[must_use]
    pub fn run(self) -> (run: RunConfig)
        ensures
            run == self.run,
    {
        self.run
    }

    #[must_use]
    pub fn hints(self) -> (hints: Hints)
        ensures
            hints == self.hints,
    {
        self.hints
    }

    #[must_use]
    pub fn with_extent_config(self, extent: ExtentConfig) -> (config: Self)
        ensures
            config == (AllocatorConfig { extent, ..self }),
    {
        Self { extent, run: self.run, hints: self.hints }
    }

    #[must_use]
    pub fn with_run_config(self, run: RunConfig) -> (config: Self)
        ensures
            config == (AllocatorConfig { run, ..self }),
    {
        Self { extent: self.extent, run, hints: self.hints }
    }

    #[must_use]
    pub fn with_hugepage(self, hugepage: HugePage) -> (config: Self)
        ensures
            config == (AllocatorConfig { hints: Hints { hugepage, ..self.hints }, ..self }),
    {
        Self {
            extent: self.extent,
            run: self.run,
            hints: self.hints.with_hugepage(hugepage),
        }
    }

    #[must_use]
    pub fn with_numa(self, numa: Numa) -> (config: Self)
        ensures
            config == (AllocatorConfig { hints: Hints { numa, ..self.hints }, ..self }),
    {
        Self { extent: self.extent, run: self.run, hints: self.hints.with_numa(numa) }
    }

    /// The default configuration overlaid with the settings of `env`.
    ///
    /// Unknown enum values, malformed integers, and integer overflow leave that
    /// setting at its default.
    #[must_use]
    pub fn from_env(env: &Environment<'_>) -> (config: Self)
        ensures
            config == overlaid_env(default_config(), *env),
            env.extent_policy matches Some(word) ==> {
                &&& word@ == "keep".spec_bytes() ==> config.extent.policy == ExtentPolicy::Keep
                &&& word@ == "discard".spec_bytes() ==> config.extent.policy
                    == ExtentPolicy::Discard
                &&& word@ == "unmap".spec_bytes() ==> config.extent.policy == ExtentPolicy::Unmap
            },
            env.run_policy matches Some(word) ==> {
                &&& word@ == "keep".spec_bytes() ==> config.run.policy == RunPolicy::Keep
                &&& word@ == "discard".spec_bytes() ==> config.run.policy == RunPolicy::Discard
            },
            env.hugepage matches Some(word) ==> {
                &&& word@ == "off".spec_bytes() ==> config.hints.hugepage == HugePage::Off
                &&& word@ == "thp".spec_bytes() ==> config.hints.hugepage == HugePage::Thp
            },
            env.numa matches Some(word) ==> {
                &&& word@ == "off".spec_bytes() ==> config.hints.numa == Numa::Off
                &&& word@ == "local".spec_bytes() ==> config.hints.numa == Numa::Local
            },
    {
        let config = Self::new().overlay_env(env);
        proof {
            let base = default_config();
            law_settings_are_independent(base, *env);
            if let Some(word) = env.extent_policy {
                law_extent_policy_is_what_the_word_says(base, word@);
            }
            if let Some(word) = env.run_policy {
                law_run_policy_is_what_the_word_says(base, word@);
            }
            if let Some(word) = env.hugepage {
                law_hints_are_what_the_words_say(base, word@);
            }
            if let Some(word) = env.numa {
                law_hints_are_what_the_words_say(base, word@);
            }
        }
        config
    }

    #[must_use]
    pub fn overlay_env(self, env: &Environment<'_>) -> (config: Self)
        ensures
            config == overlaid_env(self, *env),
    {
        let config = overlay_var(self, "RUNIC_HUGEPAGE".as_bytes(), env.hugepage);
        let config = overlay_var(config, "RUNIC_NUMA".as_bytes(), env.numa);
        let config = overlay_var(config, "RUNIC_EXTENT_POLICY".as_bytes(), env.extent_policy);
        let config = overlay_var(config, "RUNIC_EXTENT_SLOTS".as_bytes(), env.extent_slots);
        let config = overlay_var(config, "RUNIC_EXTENT_BYTES".as_bytes(), env.extent_bytes);
        overlay_var(config, "RUNIC_RUN_POLICY".as_bytes(), env.run_policy)
    }

    /// Apply one named setting.
    #[must_use]
    pub fn overlay(self, name: &[u8], value: &[u8]) -> (config: Self)
        ensures
            config == overlaid(self, name@, value@),
    {
        if same_bytes(name, "RUNIC_HUGEPAGE".as_bytes()) {
            if same_bytes(value, "off".as_bytes()) {
                self.with_hugepage(HugePage::Off)
            } else if same_bytes(value, "thp".as_bytes()) {
                self.with_hugepage(HugePage::Thp)
            } else {
                self
            }
        } else if same_bytes(name, "RUNIC_NUMA".as_bytes()) {
            if same_bytes(value, "off".as_bytes()) {
                self.with_numa(Numa::Off)
            } else if same_bytes(value, "local".as_bytes()) {
                self.with_numa(Numa::Local)
            } else {
                self
            }
        } else if same_bytes(name, "RUNIC_EXTENT_POLICY".as_bytes()) {
            if same_bytes(value, "keep".as_bytes()) {
                self.with_extent_config(self.extent.with_policy(ExtentPolicy::Keep))
            } else if same_bytes(value, "discard".as_bytes()) {
                self.with_extent_config(self.extent.with_policy(ExtentPolicy::Discard))
            } else if same_bytes(value, "unmap".as_bytes()) {
                self.with_extent_config(self.extent.with_policy(ExtentPolicy::Unmap))
            } else {
                self
            }
        } else if same_bytes(name, "RUNIC_RUN_POLICY".as_bytes()) {
            if same_bytes(value, "keep".as_bytes()) {
                self.with_run_config(self.run.with_policy(RunPolicy::Keep))
            } else if same_bytes(value, "discard".as_bytes()) {
                self.with_run_config(self.run.with_policy(RunPolicy::Discard))
            } else {
                self
            }
        } else if same_bytes(name, "RUNIC_EXTENT_SLOTS".as_bytes()) {
            match parse_usize(value) {
                Some(slots) => self.with_extent_config(
                    self.extent.with_budget(Budget::new(slots, self.extent.budget().bytes())),
                ),
                None => self,
            }
        } else if same_bytes(name, "RUNIC_EXTENT_BYTES".as_bytes()) {
            match parse_usize(value) {
                Some(bytes) => self.with_extent_config(
                    self.extent.with_budget(Budget::new(self.extent.budget().slots(), bytes)),
                ),
                None => self,
            }
        } else {
            self
        }
    }
}

impl Default for AllocatorConfig {
    fn default() -> (config: Self)
        ensures
            config == default_config(),
    {
        Self::new()
    }
}

/// Apply one setting when it is set.
pub fn overlay_var(config: AllocatorConfig, name: &[u8], value: Option<&[u8]>) -> (overlaid_config:
    AllocatorConfig)
    ensures
        overlaid_config == overlaid_if_set(config, name@, value),
{
    match value {
        None => config,
        Some(text) => config.overlay(name, text),
    }
}

} // verus!
