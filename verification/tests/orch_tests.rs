use lmutib::orch::{plan_build_from, OrchState, Phase};

#[test]
fn plan_from_default_branch_is_clean() {
    let plan = plan_build_from(b"master", b"root|configs|bar");
    assert_eq!(plan.parent_branch.as_slice(), b"master");
    assert_eq!(plan.new_branch.as_slice(), b"root|configs|bar-cb");
    assert!(!plan.save_previous_config);
}

#[test]
fn plan_from_build_branch_is_incremental() {
    let plan = plan_build_from(b"base-cb", b"foo");
    assert_eq!(plan.parent_branch.as_slice(), b"base-cb");
    assert_eq!(plan.new_branch.as_slice(), b"base-cb-foo-ib");
    assert!(plan.save_previous_config);
}

#[test]
fn base_step_designates_the_baseline() {
    let mut s = OrchState::start();
    assert_eq!(s.phase, Phase::Init);
    let plan = s.step_base(b"base", b"CONFIG_A=y\n");
    assert_eq!(s.phase, Phase::BaseBuilt);
    assert_eq!(plan.new_branch.as_slice(), b"base-cb");
    assert_eq!(s.base_label.as_ref().unwrap().as_slice(), b"base-cb");
    assert_eq!(s.base_config.as_ref().unwrap().as_slice(), b"CONFIG_A=y\n");
    assert_eq!(s.wt_config.as_ref().unwrap().as_slice(), b"CONFIG_A=y\n");
    assert_eq!(s.labels.len(), 1);
}

#[test]
fn sequential_clean_builds_never_interleave_configs() {
    // After the second configuration's clean build, the working tree's
    // active configuration is exactly the second file's contents, never
    // the first's.
    let c1: &[u8] = b"CONFIG_A=y\n";
    let c2: &[u8] = b"CONFIG_A=n\nCONFIG_B=y\n";
    let mut s = OrchState::start();
    s.step_base(b"base", b"CONFIG_BASE=y\n");
    s.step_clean(b"one", c1);
    assert_eq!(s.wt_config.as_ref().unwrap().as_slice(), c1);
    s.step_clean(b"two", c2);
    assert_eq!(s.wt_config.as_ref().unwrap().as_slice(), c2);
    assert_ne!(s.wt_config.as_ref().unwrap().as_slice(), c1);
    // The first build's label is still recorded, in order.
    assert_eq!(s.labels.len(), 3);
    assert_eq!(s.labels[1].as_slice(), b"one-cb");
    assert_eq!(s.labels[2].as_slice(), b"two-cb");
}

#[test]
fn incremental_step_saves_base_config_as_previous() {
    let mut s = OrchState::start();
    s.step_base(b"base", b"CONFIG_BASE=y\n");
    let plan = s.step_incremental(b"foo", b"CONFIG_FOO=y\n");
    assert_eq!(plan.parent_branch.as_slice(), b"base-cb");
    assert_eq!(plan.new_branch.as_slice(), b"base-cb-foo-ib");
    assert!(plan.save_previous_config);
    assert_eq!(s.wt_prev_config.as_ref().unwrap().as_slice(), b"CONFIG_BASE=y\n");
    assert_eq!(s.wt_config.as_ref().unwrap().as_slice(), b"CONFIG_FOO=y\n");
}
