use sdal::checkpoint::{
    checkout_checkpoint, drop_checkpoint, format_checkpoint_id, get_current_tree, validate_checkpoint, validate_id,
    Checkpoint, CheckpointError, CheckpointIndex, CheckpointStore,
};
use sdal::hashing::sha256_hex;
use sdal::index::Index;
use sdal::invariants::assert_invariant;
use sdal::paths::{child_path, in_repository_dir, join, kept_on_clean_checkout};
use sdal::refs::{
    branch_ref, current_branch_of, head_ref_to, is_valid_hash, parse_head, ref_value, strip_prefix, validate_branch_name,
    validate_head_target, validate_ref_hash, HeadTarget, RefError, Refs,
};
use sdal::storage::{check_loaded, object_path_parts, validate_hash, verify_data_hash, StorageError};

fn h(c: &str) -> String {
    c.repeat(64)
}

fn cp(id: &str, tree: &str) -> Checkpoint {
    Checkpoint { id: id.to_string(), tree_root: tree.to_string(), parent_commit: None, timestamp: 100, message: None }
}

#[test]
fn test_assert_invariant_passes() {
    assert_invariant(true, "This should pass");
}

#[test]
fn hashes() {
    assert!(is_valid_hash(&h("a")));
    assert!(is_valid_hash(&h("F")));
    assert!(!is_valid_hash(&"a".repeat(63)));
    assert!(!is_valid_hash(&"g".repeat(64)));
    assert_eq!(sha256_hex(b""), "e3b0c44298fc1c149afbf4c8996fb92427ae41e4649b934ca495991b7852b855");
}

#[test]
fn branch_names() {
    assert!(validate_branch_name("main").is_ok());
    assert!(validate_branch_name("feature-x.1").is_ok());
    assert!(matches!(validate_branch_name(""), Err(RefError::EmptyBranchName)));
    assert!(matches!(validate_branch_name("a/b"), Err(RefError::BranchNameHasSeparator)));
    assert!(matches!(validate_branch_name("a\\b"), Err(RefError::BranchNameHasSeparator)));
    assert!(matches!(validate_branch_name("a..b"), Err(RefError::BranchNameHasDotDot)));
    assert!(matches!(validate_branch_name(".hidden"), Err(RefError::BranchNameStartsWithDot)));
}

#[test]
fn head_contents() {
    match parse_head("ref: refs/heads/main") {
        Ok(HeadTarget::Ref(r)) => assert_eq!(r, "refs/heads/main"),
        other => panic!("unexpected {:?}", other),
    }
    match parse_head(&h("0")) {
        Ok(HeadTarget::Commit(c)) => assert_eq!(c, h("0")),
        other => panic!("unexpected {:?}", other),
    }
    match parse_head("garbage") {
        Err(RefError::InvalidCommitHash(c)) => assert_eq!(c, "garbage"),
        other => panic!("unexpected {:?}", other),
    }
    assert_eq!(current_branch_of("ref: refs/heads/dev"), Some("dev".to_string()));
    assert_eq!(current_branch_of("ref: refs/tags/v1"), None);
    assert_eq!(current_branch_of(&h("1")), None);
    assert!(validate_head_target("ref: refs/heads/x").is_ok());
    assert!(validate_head_target(&h("2")).is_ok());
    assert!(matches!(validate_head_target("nope"), Err(RefError::InvalidHeadTarget)));
    assert!(validate_ref_hash("").is_ok());
    assert!(validate_ref_hash(&h("3")).is_ok());
    assert!(matches!(validate_ref_hash("xyz"), Err(RefError::InvalidCommitHash(_))));
    assert_eq!(strip_prefix("abc", "ab"), Some("c".to_string()));
    assert_eq!(strip_prefix("abc", "b"), None);
    assert_eq!(ref_value("").unwrap(), None);
    assert_eq!(ref_value(&h("4")).unwrap(), Some(h("4")));
    assert!(matches!(ref_value("abc"), Err(RefError::InvalidCommitHash(c)) if c == "abc"));
}

#[test]
fn ref_paths() {
    let refs = Refs::new("/repo/.sdal");
    assert_eq!(refs.head_path(), "/repo/.sdal/HEAD");
    assert_eq!(refs.ref_path("refs/heads/main"), "/repo/.sdal/refs/heads/main");
    assert_eq!(refs.branch_path("dev").unwrap(), "/repo/.sdal/refs/heads/dev");
    assert!(matches!(refs.branch_path("../x"), Err(RefError::BranchNameHasSeparator)));
    assert_eq!(branch_ref("main"), "refs/heads/main");
    assert_eq!(head_ref_to("main"), "ref: refs/heads/main");
}

#[test]
fn path_joining() {
    assert_eq!(join("a", "b"), "a/b");
    assert_eq!(join("a/", "b"), "a/b");
    assert_eq!(join("", "b"), "b");
    assert_eq!(join("a", "/b"), "/b");
    assert_eq!(join("a", ""), "a/");
}

#[test]
fn working_tree_paths() {
    assert_eq!(child_path("", "a.txt"), "a.txt");
    assert_eq!(child_path("dir/sub", "a.txt"), "dir/sub/a.txt");
    assert!(in_repository_dir(".sdal"));
    assert!(in_repository_dir(".sdal/objects/ab"));
    assert!(!in_repository_dir(".sdalignore"));
    assert!(!in_repository_dir("src/.sdal"));
    assert!(kept_on_clean_checkout(".sdal"));
    assert!(kept_on_clean_checkout(".sdalignore"));
    assert!(!kept_on_clean_checkout("notes.txt"));
}

#[test]
fn object_store_rules() {
    let hash = sha256_hex(b"hello");
    assert!(validate_hash(&hash).is_ok());
    match validate_hash("abc") {
        Err(StorageError::Corruption(m)) => assert_eq!(m, "Invalid hash length: expected 64, got 3"),
        other => panic!("unexpected {:?}", other),
    }
    match validate_hash(&"z".repeat(64)) {
        Err(StorageError::Corruption(m)) => assert_eq!(m, "Invalid hash format: must be hexadecimal"),
        other => panic!("unexpected {:?}", other),
    }
    let (dir, file) = object_path_parts(&hash).unwrap();
    assert_eq!(dir, &hash[..2]);
    assert_eq!(file, &hash[2..]);
    assert!(verify_data_hash(&hash, b"hello").is_ok());
    match verify_data_hash(&hash, b"hellO") {
        Err(StorageError::Corruption(m)) => {
            assert_eq!(m, format!("Hash mismatch: expected {}, computed {}", hash, sha256_hex(b"hellO")))
        }
        other => panic!("unexpected {:?}", other),
    }
    match validate_hash("\u{e9}") {
        Err(StorageError::Corruption(m)) => assert_eq!(m, "Invalid hash length: expected 64, got 2"),
        other => panic!("unexpected {:?}", other),
    }
}

#[test]
fn staging_index() {
    let mut idx = Index::new();
    assert!(!idx.is_staged("a.txt"));
    idx.add("a.txt".to_string(), h("1"));
    idx.add("b.txt".to_string(), h("2"));
    idx.add("a.txt".to_string(), h("3"));
    assert!(idx.is_staged("a.txt"));
    assert_eq!(idx.get("a.txt"), Some(&h("3")));
    assert_eq!(idx.entries.len(), 2);
    idx.remove("a.txt");
    assert!(!idx.is_staged("a.txt"));
    assert_eq!(idx.get("b.txt"), Some(&h("2")));
    idx.clear();
    assert_eq!(idx.get("b.txt"), None);
}

#[test]
fn checkpoint_ids() {
    assert_eq!(format_checkpoint_id(1), "cp_0001");
    assert_eq!(format_checkpoint_id(12345), "cp_12345");
    let mut idx = CheckpointIndex::new();
    assert_eq!(idx.next_id(), "cp_0001");
    idx.add(cp("cp_0007", &h("a")));
    idx.add(cp("cp_0002", &h("b")));
    idx.add(cp("other", &h("c")));
    assert_eq!(idx.next_id(), "cp_0008");
    assert!(idx.remove("cp_0007"));
    assert_eq!(idx.next_id(), "cp_0008");
    assert_eq!(idx.try_next_id(), Some("cp_0008".to_string()));
    idx.clear();
    assert!(idx.checkpoints.is_empty() && idx.current.is_none());
    assert_eq!(idx.next_id(), "cp_0008");
    idx.add(cp("cp_4294967295", &h("d")));
    assert_eq!(idx.try_next_id(), None);
    assert!(validate_id("cp_0001").is_ok());
    assert!(matches!(validate_id(""), Err(CheckpointError::EmptyId)));
    assert!(matches!(validate_id("a/b"), Err(CheckpointError::IdHasSeparator(_))));
    assert!(matches!(validate_id("a..b"), Err(CheckpointError::IdHasDotDot(_))));
}

#[test]
fn checkpoint_index_operations() {
    let mut idx = CheckpointIndex::new();
    assert_eq!(get_current_tree(&idx), None);
    idx.add(cp("cp_0001", &h("a")));
    idx.add(cp("cp_0002", &h("b")));
    assert_eq!(idx.current.as_deref(), Some("cp_0002"));
    assert_eq!(get_current_tree(&idx), Some(h("b")));
    assert_eq!(idx.find("cp_0001").unwrap().tree_root, h("a"));

    let got = checkout_checkpoint(&mut idx, "cp_0001").unwrap();
    assert_eq!(got.tree_root, h("a"));
    assert_eq!(idx.current.as_deref(), Some("cp_0001"));
    assert!(matches!(checkout_checkpoint(&mut idx, "cp_9999"), Err(CheckpointError::NotFound(_))));
    assert_eq!(idx.current.as_deref(), Some("cp_0001"));

    drop_checkpoint(&mut idx, "cp_0001").unwrap();
    assert_eq!(idx.checkpoints.len(), 1);
    assert_eq!(idx.current.as_deref(), Some("cp_0002"));
    assert!(matches!(drop_checkpoint(&mut idx, "cp_0001"), Err(CheckpointError::NotFound(_))));
    drop_checkpoint(&mut idx, "cp_0002").unwrap();
    assert_eq!(idx.current, None);
}

#[test]
fn checkpoint_validation() {
    let now = 1_000_000;
    assert!(validate_checkpoint(&cp("cp_0001", &h("a")), now).is_ok());
    assert!(matches!(validate_checkpoint(&cp("cp_0001", ""), now), Err(CheckpointError::EmptyTreeRoot)));
    assert!(matches!(validate_checkpoint(&cp("cp_0001", "abc"), now), Err(CheckpointError::InvalidTreeRoot)));
    let mut bad_parent = cp("cp_0001", &h("a"));
    bad_parent.parent_commit = Some("x".to_string());
    assert!(matches!(validate_checkpoint(&bad_parent, now), Err(CheckpointError::InvalidParentCommit)));
    let mut negative = cp("cp_0001", &h("a"));
    negative.timestamp = -1;
    assert!(matches!(validate_checkpoint(&negative, now), Err(CheckpointError::NegativeTimestamp)));
    let mut future = cp("cp_0001", &h("a"));
    future.timestamp = now + 31536000 + 1;
    assert!(matches!(validate_checkpoint(&future, now), Err(CheckpointError::TimestampTooFarInFuture)));
    future.timestamp = now + 31536000;
    assert!(validate_checkpoint(&future, now).is_ok());

    let mut idx = CheckpointIndex::new();
    idx.add(cp("cp_0001", &h("a")));
    assert!(idx.validate(now).is_ok());
    idx.current = Some("cp_0009".to_string());
    assert!(matches!(idx.validate(now), Err(CheckpointError::CurrentNotFound(_))));
}

#[test]
fn checkpoint_store_paths() {
    let store = CheckpointStore::new("/r/.sdal");
    assert_eq!(store.checkpoints_dir(), "/r/.sdal/checkpoints");
    assert_eq!(store.index_path(), "/r/.sdal/checkpoints/index");
    assert_eq!(store.checkpoint_entry_path("cp_0001").unwrap(), "/r/.sdal/checkpoints/entries/cp_0001");
    assert!(store.checkpoint_entry_path("../etc").is_err());
}

#[test]
fn loaded_objects_are_checked_against_their_names() {
    let hash = sha256_hex(b"object bytes");
    assert_eq!(check_loaded(&hash, b"object bytes".to_vec()).unwrap(), b"object bytes".to_vec());
    match check_loaded(&hash, b"other bytes".to_vec()) {
        Err(StorageError::Corruption(m)) => {
            assert_eq!(m, format!("Hash mismatch: expected {}, computed {}", hash, sha256_hex(b"other bytes")))
        }
        other => panic!("unexpected {:?}", other),
    }
    assert_eq!(sdal::hashing::hex_string(&[0x00, 0xab, 0x7f]), "00ab7f");
}
