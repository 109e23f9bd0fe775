use sdal::checkpoint::{checkout_checkpoint, drop_checkpoint, Checkpoint, CheckpointIndex};
use sdal::ignore::Ignore;
use sdal::objects::{Tree, TreeEntry};
use sdal::tree_build::tree_level;

fn cp(id: &str) -> Checkpoint {
    Checkpoint { id: id.to_string(), tree_root: "a".repeat(64), parent_commit: None, timestamp: 1, message: None }
}

#[test]
fn same_entries_give_the_same_tree_bytes() {
    let files_a = vec![("b.txt".to_string(), "22".repeat(32)), ("a.txt".to_string(), "11".repeat(32))];
    let files_b = vec![("a.txt".to_string(), "11".repeat(32)), ("b.txt".to_string(), "22".repeat(32))];
    let dirs = vec![("sub".to_string(), "33".repeat(32))];
    let t1 = tree_level(&files_a, &dirs).unwrap();
    let t2 = tree_level(&files_b, &dirs).unwrap();
    let (mut b1, mut b2) = (Vec::new(), Vec::new());
    let h1 = t1.write_binary(&mut b1).unwrap();
    let h2 = t2.write_binary(&mut b2).unwrap();
    assert_eq!(b1, b2);
    assert_eq!(h1, h2);

    let mut t3 = Tree::new();
    t3.add_entry("sub".to_string(), TreeEntry::Tree { hash: "33".repeat(32) });
    t3.add_entry("b.txt".to_string(), TreeEntry::Blob { hash: "22".repeat(32), size: 9 });
    t3.add_entry("a.txt".to_string(), TreeEntry::Blob { hash: "11".repeat(32), size: 1 });
    t3.sort();
    let mut b3 = Vec::new();
    t3.write_binary(&mut b3).unwrap();
    assert_eq!(b1, b3);
}

#[test]
fn next_checkpoint_id_is_never_in_use() {
    let mut idx = CheckpointIndex::new();
    for id in ["cp_0001", "cp_0009", "cp_0003", "cp_x", "cp_+0010"] {
        idx.add(cp(id));
    }
    let next = idx.next_id();
    assert_eq!(next, "cp_0011");
    assert!(idx.find(&next).is_none());
    idx.remove("cp_+0010");
    let next = idx.next_id();
    assert_eq!(next, "cp_0011");
    assert!(idx.find(&next).is_none());
}

#[test]
fn repository_dir_is_ignored_whatever_the_rules() {
    for content in ["", "!*\n", "# nothing\n", "*.tmp\nbuild/\n"] {
        let ig = Ignore::load(content);
        assert!(ig.should_ignore(".sdal"));
        assert!(ig.should_ignore("a/.sdal/objects"));
    }
}

#[test]
fn index_operations_keep_a_valid_index_valid() {
    let now = 1_000;
    let mut idx = CheckpointIndex::new();
    assert!(idx.validate(now).is_ok());
    idx.add(cp("cp_0001"));
    idx.add(cp("cp_0002"));
    idx.add(cp("cp_0003"));
    assert!(idx.validate(now).is_ok());
    assert!(checkout_checkpoint(&mut idx, "cp_0002").is_ok());
    assert!(idx.validate(now).is_ok());
    assert!(drop_checkpoint(&mut idx, "cp_0002").is_ok());
    assert_eq!(idx.current.as_deref(), Some("cp_0003"));
    assert!(idx.validate(now).is_ok());
    assert!(idx.remove("cp_0001"));
    assert!(idx.remove("cp_0003"));
    assert_eq!(idx.current, None);
    assert!(idx.validate(now).is_ok());
}

#[test]
fn a_deleted_checkpoint_id_is_not_handed_out_again() {
    let mut idx = CheckpointIndex::new();
    let first = idx.next_id();
    idx.add(cp(&first));
    let second = idx.next_id();
    idx.add(cp(&second));
    assert!(idx.remove(&second));
    let third = idx.next_id();
    assert_ne!(third, second);
    assert_ne!(third, first);
    assert_eq!(third, "cp_0003");
}
