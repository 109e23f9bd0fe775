use sdal::ignore::{matches_pattern, wildcard_match, Ignore};

#[test]
fn default_ignores_repository_dir() {
    let ig = Ignore::new();
    assert!(ig.should_ignore(".sdal"));
    assert!(ig.should_ignore("sub/.sdal"));
    assert!(!ig.should_ignore("src/main.rs"));
}

#[test]
fn patterns_from_file_content() {
    let ig = Ignore::load("\u{feff}target/\r\n# comment\n\n  *.log  \nnode_modules\nbuild/out\n");
    assert!(ig.should_ignore("target"));
    assert!(ig.should_ignore("a/target"));
    assert!(ig.should_ignore("x.log"));
    assert!(ig.should_ignore("dir/x.log"));
    assert!(ig.should_ignore("web/node_modules"));
    assert!(ig.should_ignore("build/out"));
    assert!(ig.should_ignore("build/out/file"));
    assert!(!ig.should_ignore("build/output"));
    assert!(!ig.should_ignore("# comment"));
    assert!(!ig.should_ignore("src/lib.rs"));
}

#[test]
fn empty_content_keeps_default() {
    let ig = Ignore::load("");
    assert!(ig.should_ignore(".sdal"));
    assert!(!ig.should_ignore("a"));
}

#[test]
fn wildcards() {
    assert!(wildcard_match("main.rs", "*.rs"));
    assert!(wildcard_match("a/b/c.rs", "*.rs"));
    assert!(!wildcard_match("main.rc", "*.rs"));
    assert!(wildcard_match("abc", "a*c"));
    assert!(wildcard_match("ac", "a*c"));
    assert!(!wildcard_match("a", "a*a"));
    assert!(wildcard_match("aa", "a*a"));
    assert!(wildcard_match("xaybz", "*a*b*"));
    assert!(!wildcard_match("xbyaz", "*a*b"));
    assert!(wildcard_match("anything", "*"));
    assert!(wildcard_match("", "*"));
    assert!(wildcard_match("abc", "abc"));
    assert!(!wildcard_match("abcd", "abc"));
    assert!(wildcard_match("abab", "a*b*b"));
    assert!(wildcard_match("abcbd", "a*b*d"));
}

#[test]
fn pattern_kinds() {
    assert!(matches_pattern("a/b", "a/b"));
    assert!(matches_pattern("x/logs/y", "logs/"));
    assert!(matches_pattern("logs", "logs/"));
    assert!(!matches_pattern("a.tmp", "*.tmp/"));
    assert!(matches_pattern("a.tmp/", "*.tmp/"));
    assert!(!matches_pattern("dir/a.tmp", "*.tmp/"));
    assert!(matches_pattern("docs/api/x", "docs/api"));
    assert!(!matches_pattern("x/docs/api", "docs/api"));
    assert!(!matches_pattern("logsx", "logs"));
}
