use sdal::commands::{
    age_text,
    check_merge_allowed, commit_parents, deleted_files, file_status, parse_reset_mode, parse_reset_target, parse_usize,
    FileStatus, ResetMode, ResetTarget,
};
use sdal::index::Index;
use sdal::maps::StrMap;

#[test]
fn reset_modes() {
    assert_eq!(parse_reset_mode("soft"), Ok(ResetMode::Soft));
    assert_eq!(parse_reset_mode("mixed"), Ok(ResetMode::Mixed));
    assert_eq!(parse_reset_mode("hard"), Ok(ResetMode::Hard));
    assert_eq!(parse_reset_mode("HARD").unwrap_err(), "Invalid mode: HARD. Use soft, mixed, or hard");
}

#[test]
fn reset_targets() {
    assert!(matches!(parse_reset_target("HEAD"), Ok(ResetTarget::Head)));
    assert!(matches!(parse_reset_target("HEAD~3"), Ok(ResetTarget::HeadAncestor(3))));
    assert!(matches!(parse_reset_target("HEAD~+2"), Ok(ResetTarget::HeadAncestor(2))));
    match parse_reset_target("HEAD~x") {
        Err(e) => assert_eq!(e, "Invalid reference: HEAD~x"),
        other => panic!("unexpected {:?}", other),
    }
    match parse_reset_target("abc123") {
        Err(e) => assert!(e.starts_with("Short hashes not yet supported")),
        other => panic!("unexpected {:?}", other),
    }
    let full = "ab".repeat(32);
    assert!(matches!(parse_reset_target(&full), Ok(ResetTarget::Commit(h)) if h == full));
}

#[test]
fn usize_parsing() {
    let p = |t: &str| parse_usize(&t.chars().collect::<Vec<char>>());
    assert_eq!(p("0"), Some(0));
    assert_eq!(p("+17"), Some(17));
    assert_eq!(p(""), None);
    assert_eq!(p("+"), None);
    assert_eq!(p("-1"), None);
    assert_eq!(p("1a"), None);
    assert_eq!(p(&usize::MAX.to_string()), Some(usize::MAX));
    assert_eq!(p("99999999999999999999999"), None);
}

#[test]
fn merge_preconditions() {
    assert_eq!(check_merge_allowed(None, "dev", true, true).unwrap_err(), "Cannot merge in detached HEAD state");
    assert_eq!(check_merge_allowed(Some("dev"), "dev", true, true).unwrap_err(), "Cannot merge branch 'dev' into itself");
    assert_eq!(
        check_merge_allowed(Some("main"), "dev", false, true).unwrap_err(),
        "Cannot merge with uncommitted changes. Commit or stash them first."
    );
    assert_eq!(
        check_merge_allowed(Some("main"), "dev", true, false).unwrap_err(),
        "Cannot merge with active checkpoints. Commit or drop them first."
    );
    assert!(check_merge_allowed(Some("main"), "dev", true, true).is_ok());
}

#[test]
fn working_file_status() {
    assert_eq!(file_status(Some("h"), None, Some("h")), FileStatus::Staged);
    assert_eq!(file_status(Some("h"), Some("h"), Some("x")), FileStatus::Modified);
    assert_eq!(file_status(None, Some("h"), Some("x")), FileStatus::Modified);
    assert_eq!(file_status(None, Some("h"), Some("h")), FileStatus::Unchanged);
    assert_eq!(file_status(None, None, None), FileStatus::Untracked);
}

#[test]
fn deleted_file_detection() {
    let mut head = StrMap::new();
    head.insert("a".to_string(), "1".to_string());
    head.insert("b".to_string(), "2".to_string());
    head.insert("c".to_string(), "3".to_string());
    let mut index = Index::new();
    index.add("c".to_string(), "3".to_string());
    let working = vec!["a".to_string()];
    assert_eq!(deleted_files(&head, &working, &index), vec!["b".to_string()]);
}

#[test]
fn parents_of_new_commits() {
    assert_eq!(commit_parents(Some(("o", "t")), Some("h")), vec!["o".to_string(), "t".to_string()]);
    assert_eq!(commit_parents(None, Some("h")), vec!["h".to_string()]);
    assert!(commit_parents(None, None).is_empty());
}

#[test]
fn ages_as_the_listing_shows_them() {
    assert_eq!(age_text(5, true), "5 secs ago");
    assert_eq!(age_text(59, true), "59 secs ago");
    assert_eq!(age_text(59, false), "0 mins ago");
    assert_eq!(age_text(60, true), "1 mins ago");
    assert_eq!(age_text(3599, true), "59 mins ago");
    assert_eq!(age_text(3600, false), "1 hours ago");
    assert_eq!(age_text(86399, true), "23 hours ago");
    assert_eq!(age_text(86400 * 3 + 5, true), "3 days ago");
    assert_eq!(age_text(-7, true), "-7 secs ago");
    assert_eq!(age_text(-59, false), "0 mins ago");
    assert_eq!(age_text(-120, false), "-2 mins ago");
    assert_eq!(age_text(i64::MIN, true), "-9223372036854775808 secs ago");
}
