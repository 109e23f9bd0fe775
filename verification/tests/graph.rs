use std::collections::HashMap;

use sdal::maps::StrMap;
use sdal::merge::{MergeBaseSearch, MergeBaseStep};
use sdal::objects::{Blob, ChunkEntry, Commit, Object, Tree, TreeEntry};
use sdal::tree_build::{find_collision, group_paths, split_at_slash, tree_level};
use sdal::walk::{chunk_hashes, object_links, ObjectWalk};

fn s(x: &str) -> String {
    x.to_string()
}

#[test]
fn walk_hands_out_each_hash_once() {
    let mut w = ObjectWalk::new(vec![s("a"), s("b"), s("a")]);
    assert_eq!(w.next(false), Some(s("a")));
    w.push_all(vec![s("c"), s("a"), s("")]);
    assert_eq!(w.next(false), Some(s("b")));
    assert_eq!(w.next(false), Some(s("c")));
    assert_eq!(w.next(false), Some(s("")));
    assert_eq!(w.next(false), None);
    assert!(w.is_visited("a") && w.is_visited("b") && w.is_visited("c"));
    assert!(!w.is_visited("d"));
}

#[test]
fn walk_skips_empty_hashes_when_asked() {
    let mut w = ObjectWalk::new(vec![s(""), s("x")]);
    assert_eq!(w.next(true), Some(s("x")));
    assert_eq!(w.next(true), None);
    assert!(!w.is_visited(""));
    assert!(w.mark_visited(s("y")));
    assert!(!w.mark_visited(s("y")));
    w.push(s("y"));
    assert_eq!(w.next(true), None);
}

#[test]
fn links_of_objects() {
    let c = Object::Commit(Commit {
        tree: s("t"),
        parents: vec![s("p1"), s("p2")],
        author: s("a"),
        message: s("m"),
        timestamp: 0,
    });
    assert_eq!(object_links(&c), vec![s("p1"), s("p2"), s("t")]);
    let t = Object::Tree(Tree {
        entries: vec![
            (s("f"), TreeEntry::Blob { hash: s("h1"), size: 1 }),
            (s("d"), TreeEntry::Tree { hash: s("h2") }),
        ],
    });
    assert_eq!(object_links(&t), vec![s("h1"), s("h2")]);
    let blob = Blob { chunks: vec![ChunkEntry { hash: s("c1"), size: 1, offset: 0 }], total_size: 1 };
    assert_eq!(chunk_hashes(&blob), vec![s("c1")]);
    assert!(object_links(&Object::Blob(blob)).is_empty());
}

fn merge_base(graph: &HashMap<&str, Vec<&str>>, ours: &str, theirs: &str) -> Option<String> {
    let mut search = MergeBaseSearch::new(ours, theirs);
    loop {
        match search.step() {
            MergeBaseStep::Load(h) => {
                let parents = graph.get(h.as_str()).map(|p| p.iter().map(|x| x.to_string()).collect()).unwrap_or_default();
                search.feed(parents);
            }
            MergeBaseStep::Found(h) => return Some(h),
            MergeBaseStep::NoCommonAncestor => return None,
        }
    }
}

#[test]
fn merge_base_search_load_order() {
    let mut g: HashMap<&str, Vec<&str>> = HashMap::new();
    g.insert("o2", vec!["o1a", "o1b"]);
    g.insert("o1a", vec!["base"]);
    g.insert("o1b", vec!["base"]);
    g.insert("base", vec![]);
    g.insert("t2", vec!["t1"]);
    g.insert("t1", vec!["base"]);
    let mut search = MergeBaseSearch::new("o2", "t2");
    let mut loads = Vec::new();
    let found = loop {
        match search.step() {
            MergeBaseStep::Load(h) => {
                let parents = g[h.as_str()].iter().map(|x| x.to_string()).collect();
                loads.push(h);
                search.feed(parents);
            }
            MergeBaseStep::Found(h) => break Some(h),
            MergeBaseStep::NoCommonAncestor => break None,
        }
    };
    assert_eq!(loads, vec!["o2", "o1a", "o1b", "base", "t2", "t1", "base"]);
    assert_eq!(found, Some(s("base")));
}

#[test]
fn merge_base_is_a_lowest_common_ancestor() {
    let mut g: HashMap<&str, Vec<&str>> = HashMap::new();
    g.insert("a", vec![]);
    g.insert("o", vec!["a"]);
    g.insert("t", vec!["a", "o"]);
    assert_eq!(merge_base(&g, "o", "t"), Some(s("o")));
    assert_eq!(merge_base(&g, "t", "o"), Some(s("o")));
    assert_eq!(merge_base(&g, "o", "o"), Some(s("o")));
}

#[test]
fn merge_base_of_diverged_branches() {
    let mut g: HashMap<&str, Vec<&str>> = HashMap::new();
    g.insert("root", vec![]);
    g.insert("base", vec!["root"]);
    g.insert("o1", vec!["base"]);
    g.insert("o2", vec!["o1"]);
    g.insert("t1", vec!["base"]);
    assert_eq!(merge_base(&g, "o2", "t1"), Some(s("base")));
    assert_eq!(merge_base(&g, "o2", "o1"), Some(s("o1")));
    assert_eq!(merge_base(&g, "base", "o2"), Some(s("base")));
    g.insert("lonely", vec![]);
    assert_eq!(merge_base(&g, "o2", "lonely"), None);
}

fn map(pairs: &[(&str, &str)]) -> StrMap<String> {
    let mut m = StrMap::new();
    for (k, v) in pairs {
        m.insert(s(k), s(v));
    }
    m
}

#[test]
fn grouping_a_file_set() {
    let entries = map(&[("a.txt", "1"), ("dir/b.txt", "2"), ("dir/sub/c.txt", "3"), ("other/d", "4")]);
    let (files, dirs) = group_paths(&entries);
    assert_eq!(files.len(), 1);
    assert_eq!(files.get("a.txt"), Some(&s("1")));
    assert_eq!(dirs.len(), 2);
    let dir = dirs.get("dir").unwrap();
    assert_eq!(dir.get("b.txt"), Some(&s("2")));
    assert_eq!(dir.get("sub/c.txt"), Some(&s("3")));
    assert_eq!(dirs.get("other").unwrap().get("d"), Some(&s("4")));
    assert_eq!(find_collision(&files, &dirs), None);

    let clash = map(&[("x", "1"), ("x/y", "2")]);
    let (f, d) = group_paths(&clash);
    assert_eq!(find_collision(&f, &d), Some(s("x")));
}

#[test]
fn splitting_paths() {
    assert_eq!(split_at_slash("a/b/c"), Some((s("a"), s("b/c"))));
    assert_eq!(split_at_slash("/x"), Some((s(""), s("x"))));
    assert_eq!(split_at_slash("plain"), None);
}

#[test]
fn building_one_tree_level() {
    let files = vec![(s("z.txt"), s("11")), (s("a.txt"), s("22"))];
    let subtrees = vec![(s("m"), s("33"))];
    let t = tree_level(&files, &subtrees).unwrap();
    let names: Vec<&str> = t.entries.iter().map(|(n, _)| n.as_str()).collect();
    assert_eq!(names, vec!["a.txt", "m", "z.txt"]);
    assert!(matches!(&t.entries[1].1, TreeEntry::Tree { hash } if hash == "33"));
    assert!(matches!(&t.entries[0].1, TreeEntry::Blob { hash, size: 0 } if hash == "22"));

    let dup = tree_level(&vec![(s("x"), s("1"))], &vec![(s("x"), s("2"))]);
    assert_eq!(dup.unwrap_err(), "Duplicate entry name: x");

    let backslash = tree_level(&vec![(s("a\\b"), s("1"))], &vec![]);
    assert_eq!(backslash.unwrap_err(), "Tree entry name contains path separator: a\\b");
}
