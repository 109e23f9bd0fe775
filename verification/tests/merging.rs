use sdal::maps::StrMap;
use sdal::merge::{merge_trees, ConflictIndex, MergeState};
use sdal::mergetool::{diff_lines, App, Command, ConflictFile, Resolution};

fn files(pairs: &[(&str, &str)]) -> StrMap<String> {
    let mut m = StrMap::new();
    for (p, h) in pairs {
        m.insert(p.to_string(), h.to_string());
    }
    m
}

fn sorted(v: &[String]) -> Vec<String> {
    let mut v = v.to_vec();
    v.sort();
    v
}

#[test]
fn three_way_merge_outcomes() {
    let base = files(&[("same", "1"), ("ours_only_changed", "1"), ("theirs_only_changed", "1"), ("both", "1"), ("deleted_by_us", "1")]);
    let ours = files(&[("same", "1"), ("ours_only_changed", "2"), ("theirs_only_changed", "1"), ("both", "2"), ("added", "9")]);
    let theirs = files(&[("same", "1"), ("ours_only_changed", "1"), ("theirs_only_changed", "3"), ("both", "3"), ("deleted_by_us", "1")]);
    let (merged, conflicts, details) = merge_trees(&base, &ours, &theirs);
    assert_eq!(merged.get("same"), Some(&"1".to_string()));
    assert_eq!(merged.get("ours_only_changed"), Some(&"2".to_string()));
    assert_eq!(merged.get("theirs_only_changed"), Some(&"3".to_string()));
    assert_eq!(merged.get("added"), Some(&"9".to_string()));
    assert_eq!(merged.get("deleted_by_us"), None);
    assert_eq!(merged.get("both"), None);
    assert_eq!(merged.len(), 4);
    assert_eq!(conflicts, vec!["both".to_string()]);
    assert_eq!(details.get("both"), Some(&("2".to_string(), "3".to_string())));
    assert_eq!(details.len(), 1);
}

#[test]
fn merge_is_symmetric_on_concrete_sets() {
    let base = files(&[("a", "1"), ("b", "1")]);
    let ours = files(&[("a", "2"), ("b", "1"), ("c", "5")]);
    let theirs = files(&[("a", "3"), ("b", "4")]);
    let (m1, c1, _) = merge_trees(&base, &ours, &theirs);
    let (m2, c2, _) = merge_trees(&base, &theirs, &ours);
    assert_eq!(sorted(&c1), sorted(&c2));
    for p in ["a", "b", "c"] {
        assert_eq!(m1.get(p), m2.get(p));
    }
}

#[test]
fn merge_with_identical_sides_and_fast_forward() {
    let base = files(&[("a", "1")]);
    let side = files(&[("a", "2"), ("b", "3")]);
    let (m, c, _) = merge_trees(&base, &side, &side);
    assert!(c.is_empty());
    assert_eq!(m.get("a"), Some(&"2".to_string()));
    assert_eq!(m.get("b"), Some(&"3".to_string()));
    let (m, c, _) = merge_trees(&base, &base, &side);
    assert!(c.is_empty());
    assert_eq!(m.get("a"), Some(&"2".to_string()));
    assert_eq!(m.get("b"), Some(&"3".to_string()));
}

#[test]
fn modify_delete_conflict_has_no_details() {
    let base = files(&[("a", "1")]);
    let ours = files(&[("a", "2")]);
    let theirs = files(&[]);
    let (m, c, d) = merge_trees(&base, &ours, &theirs);
    assert_eq!(c, vec!["a".to_string()]);
    assert_eq!(m.get("a"), None);
    assert_eq!(d.get("a"), None);
}

#[test]
fn conflict_index_tracks_resolution() {
    let mut details = StrMap::new();
    details.insert("x".to_string(), ("o".to_string(), "t".to_string()));
    let state = MergeState {
        ours: "o".into(),
        theirs: "t".into(),
        target_branch: "dev".into(),
        conflicts: vec!["x".to_string(), "y".to_string()],
        conflict_details: details,
        merged_tree_hash: "m".into(),
    };
    let mut ci = ConflictIndex::from_merge_state(&state);
    assert_eq!(ci.entries.len(), 2);
    assert_eq!(ci.entries[0].ours_blob, "o");
    assert_eq!(ci.entries[1].ours_blob, "");
    assert!(ci.has_unresolved());
    assert_eq!(ci.unresolved_paths(), vec!["x", "y"]);
    ci.mark_resolved("x");
    assert_eq!(ci.unresolved_paths(), vec!["y"]);
    ci.mark_resolved("y");
    assert!(!ci.has_unresolved());
    assert!(ConflictIndex::new().entries.is_empty());
}

fn conflict(path: &str, ours: &[&str], theirs: &[&str]) -> ConflictFile {
    ConflictFile {
        path: path.to_string(),
        ours_blob: format!("{}-ours", path),
        theirs_blob: format!("{}-theirs", path),
        ours_lines: ours.iter().map(|s| s.to_string()).collect(),
        theirs_lines: theirs.iter().map(|s| s.to_string()).collect(),
    }
}

#[test]
fn mergetool_navigation_and_resolution() {
    let long: Vec<&str> = vec!["l"; 8];
    let mut app = App::new(vec![conflict("a", &long, &["x"]), conflict("b", &["y"], &["z"])]);
    assert_eq!(app.max_scroll(), 3);
    for _ in 0..5 {
        assert!(!app.handle_command(Command::ScrollDown));
    }
    assert_eq!((app.scroll_ours, app.scroll_theirs), (3, 3));
    app.handle_command(Command::ScrollUp);
    assert_eq!(app.scroll_ours, 2);
    app.handle_command(Command::NextConflict);
    assert_eq!(app.current, 1);
    assert_eq!(app.scroll_ours, 0);
    app.handle_command(Command::NextConflict);
    assert_eq!(app.current, 1);
    assert_eq!(app.current_conflict().path, "b");

    assert!(!app.handle_command(Command::Apply));
    assert!(!app.quit);
    app.handle_command(Command::SelectTheirs);
    app.handle_command(Command::PrevConflict);
    assert_eq!(app.current, 0);
    app.handle_command(Command::SelectOurs);
    assert_eq!(app.resolved_count(), 2);
    assert!(app.all_resolved());
    assert_eq!(app.chosen_blob(0), Some(&"a-ours".to_string()));
    assert_eq!(app.chosen_blob(1), Some(&"b-theirs".to_string()));
    assert_eq!(app.resolutions[1], Some(Resolution::Theirs));
    assert!(app.handle_command(Command::Apply));
    assert!(app.quit);
}

#[test]
fn mergetool_quit() {
    let mut app = App::new(vec![conflict("a", &[], &[])]);
    assert_eq!(app.max_scroll(), 0);
    assert!(!app.handle_command(Command::Quit));
    assert!(app.quit);
    assert_eq!(app.resolved_count(), 0);
    assert_eq!(app.chosen_blob(0), None);
}

#[test]
fn diff_lines_pads_and_marks_changes() {
    let ours = vec!["a".to_string(), "b".to_string(), "c".to_string()];
    let theirs = vec!["a".to_string(), "x".to_string()];
    let (o, t) = diff_lines(&ours, &theirs);
    assert_eq!(o, vec![(1, "a", false), (2, "b", true), (3, "c", true)]);
    assert_eq!(t, vec![(1, "a", false), (2, "x", true), (3, "", true)]);
    let (o, t) = diff_lines(&[], &[]);
    assert!(o.is_empty() && t.is_empty());
}
