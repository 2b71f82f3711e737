use runic::config::{AllocatorConfig, Budget, Environment, HugePage, Numa};
use runic::heap::extent::config::{ExtentConfig, ExtentPolicy};
use runic::heap::run::config::{RunConfig, RunPolicy};

#[test]
fn overlay_ignores_unknown_values() {
    let base = AllocatorConfig::new();
    assert_eq!(base.overlay(b"RUNIC_HUGEPAGE", b"huge"), base);
    assert_eq!(base.overlay(b"RUNIC_HUGEPAGE", b"force"), base);
    assert_eq!(base.overlay(b"RUNIC_NUMA", b"bind"), base);
    assert_eq!(base.overlay(b"RUNIC_EXTENT_POLICY", b"cache"), base);
    assert_eq!(base.overlay(b"RUNIC_RUN_POLICY", b"unmap"), base);
    assert_eq!(base.overlay(b"RUNIC_EXTENT_SLOTS", b""), base);
    assert_eq!(base.overlay(b"RUNIC_EXTENT_SLOTS", b"-1"), base);
    assert_eq!(base.overlay(b"RUNIC_EXTENT_BYTES", b"1M"), base);
    assert_eq!(
        base.overlay(b"RUNIC_EXTENT_BYTES", b"999999999999999999999999999999"),
        base
    );
    assert_eq!(base.overlay(b"RUNIC_UNKNOWN", b"fast"), base);
}

#[test]
fn overlay_sets_known_keys() {
    let config = AllocatorConfig::new()
        .overlay(b"RUNIC_HUGEPAGE", b"thp")
        .overlay(b"RUNIC_NUMA", b"local")
        .overlay(b"RUNIC_EXTENT_POLICY", b"unmap")
        .overlay(b"RUNIC_RUN_POLICY", b"discard")
        .overlay(b"RUNIC_EXTENT_SLOTS", b"4")
        .overlay(b"RUNIC_EXTENT_BYTES", b"1024");
    assert_eq!(config.hints().hugepage(), HugePage::Thp);
    assert_eq!(config.hints().numa(), Numa::Local);
    assert_eq!(config.extent().policy(), ExtentPolicy::Unmap);
    assert_eq!(config.run().policy(), RunPolicy::Discard);
    assert_eq!(config.extent().budget().slots(), 4);
    assert_eq!(config.extent().budget().bytes(), 1024);
}

#[test]
fn environment_is_applied_in_order() {
    let env = Environment {
        hugepage: Some(b"thp"),
        numa: None,
        extent_policy: Some(b"discard"),
        extent_slots: Some(b"+7"),
        extent_bytes: Some(b"nonsense"),
        run_policy: Some(b"discard"),
    };
    let config = AllocatorConfig::from_env(&env);
    let base = AllocatorConfig::new();
    assert_eq!(config.hints().hugepage(), HugePage::Thp);
    assert_eq!(config.hints().numa(), Numa::Off);
    assert_eq!(config.extent().policy(), ExtentPolicy::Discard);
    assert_eq!(config.extent().budget().slots(), 7);
    assert_eq!(
        config.extent().budget().bytes(),
        base.extent().budget().bytes()
    );
    assert_eq!(config.run().policy(), RunPolicy::Discard);
}

#[test]
fn builders_change_one_setting() {
    let budget = Budget::new(3, 4096);
    assert_eq!((budget.slots(), budget.bytes()), (3, 4096));
    let extent = ExtentConfig::new().with_policy(ExtentPolicy::Unmap).with_budget(budget);
    assert_eq!(extent.policy(), ExtentPolicy::Unmap);
    assert_eq!(extent.budget(), budget);
    let run = RunConfig::new().with_policy(RunPolicy::Discard);
    assert_eq!(run.policy(), RunPolicy::Discard);
    let config = AllocatorConfig::new()
        .with_extent_config(extent)
        .with_run_config(run)
        .with_hugepage(HugePage::Thp)
        .with_numa(Numa::Local);
    assert_eq!(config.extent(), extent);
    assert_eq!(config.run(), run);
    assert_eq!(config.hints().hugepage(), HugePage::Thp);
    assert_eq!(config.hints().numa(), Numa::Local);
}
