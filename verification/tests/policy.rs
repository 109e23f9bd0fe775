use sdal::policy::{can_merge, can_push, can_read, check_access, Action};

#[test]
fn test_open_policy_allows_everything() {
    let decision = can_push("abcdef1234", "main");
    assert!(decision.allowed);

    let decision = can_read("abcdef1234", "feature-x");
    assert!(decision.allowed);

    let decision = can_merge("abcdef1234", "main");
    assert!(decision.allowed);
}

#[test]
fn open_policy_reason() {
    let d = check_access("", "", Action::Read);
    assert!(d.allowed);
    assert_eq!(d.reason, "open policy (Phase 1)");
}
