use sdal::binary::CodecError;
use sdal::objects::{Blob, ChunkEntry, Commit, Object, Tree, TreeEntry};

fn blob_entry(hash: &str, size: u64) -> TreeEntry {
    TreeEntry::Blob { hash: hash.to_string(), size }
}

#[test]
fn test_tree_binary_roundtrip() {
    let mut tree = Tree::new();
    let blob_hash = "cafebabe".repeat(8);
    tree.add_entry(
        "test.txt".to_string(),
        TreeEntry::Blob {
            hash: blob_hash.clone(),
            size: 123,
        },
    );

    let tree_hash = "deadbeef".repeat(8);
    tree.add_entry(
        "subdir".to_string(),
        TreeEntry::Tree {
            hash: tree_hash.clone(),
        },
    );

    tree.sort();

    let mut buffer = Vec::new();
    let _ = tree.write_binary(&mut buffer).expect("write failed");

    assert_eq!(&buffer[0..4], b"SDTR");
    assert_eq!(buffer[4], 1);

    let loaded_tree = Tree::read_binary(&buffer[..]).expect("read failed");

    assert_eq!(loaded_tree.entries.len(), 2);

    let found_blob = loaded_tree
        .entries
        .iter()
        .find(|(n, _)| n == "test.txt")
        .unwrap();
    if let TreeEntry::Blob { hash, size } = &found_blob.1 {
        assert_eq!(hash, &blob_hash);
        assert_eq!(*size, 0);
    } else {
        panic!("Expected blob");
    }

    let found_tree = loaded_tree
        .entries
        .iter()
        .find(|(n, _)| n == "subdir")
        .unwrap();
    if let TreeEntry::Tree { hash } = &found_tree.1 {
        assert_eq!(hash, &tree_hash);
    } else {
        panic!("Expected tree");
    }
}

#[test]
fn tree_binary_exact_bytes() {
    let mut tree = Tree::new();
    tree.add_entry("a".to_string(), blob_entry(&"01".repeat(32), 5));
    let mut buf = vec![0xAA];
    let digest = tree.write_binary(&mut buf).unwrap();
    let mut expected = vec![0xAA, b'S', b'D', b'T', b'R', 1, 0, 0, 0];
    let mut payload = vec![1, 0, 0, 0, 0, 1, 0, b'a'];
    payload.extend(std::iter::repeat(1u8).take(32));
    expected.extend_from_slice(&payload);
    assert_eq!(buf, expected);
    assert_eq!(digest.len(), 32);
    let hex: String = digest.iter().map(|b| format!("{:02x}", b)).collect();
    assert_eq!(hex, sdal::hashing::sha256_hex(&buf[1..]));
}

#[test]
fn tree_write_rejects_bad_hashes() {
    let mut tree = Tree::new();
    tree.add_entry("x".to_string(), blob_entry("zz", 0));
    let mut buf = vec![1, 2];
    assert!(matches!(tree.write_binary(&mut buf), Err(CodecError::InvalidHash)));
    assert_eq!(buf, vec![1, 2]);

    let mut tree = Tree::new();
    tree.add_entry("x".to_string(), blob_entry("abcd", 0));
    assert!(matches!(tree.write_binary(&mut buf), Err(CodecError::InvalidHashLength)));
}

#[test]
fn tree_read_rejects_bad_input() {
    assert!(matches!(Tree::read_binary(b"SDT"), Err(CodecError::UnexpectedEof)));
    assert!(matches!(Tree::read_binary(b"XXXX\x01\x00\x00\x00\x00\x00\x00\x00"), Err(CodecError::InvalidMagic)));
    assert!(matches!(Tree::read_binary(b"SDTR\x02\x00\x00\x00\x00\x00\x00\x00"), Err(CodecError::UnsupportedVersion)));
    let too_many = 1_000_001u32.to_le_bytes();
    let mut data = b"SDTR\x01\x00\x00\x00".to_vec();
    data.extend_from_slice(&too_many);
    assert!(matches!(Tree::read_binary(&data), Err(CodecError::TooManyEntries)));

    let mut zero_name = b"SDTR\x01\x00\x00\x00\x01\x00\x00\x00\x00\x00\x00".to_vec();
    zero_name.extend(std::iter::repeat(0u8).take(32));
    assert!(matches!(Tree::read_binary(&zero_name), Err(CodecError::InvalidNameLength)));

    let mut bad_utf8 = b"SDTR\x01\x00\x00\x00\x01\x00\x00\x00\x00\x01\x00\xff".to_vec();
    bad_utf8.extend(std::iter::repeat(0u8).take(32));
    assert!(matches!(Tree::read_binary(&bad_utf8), Err(CodecError::InvalidUtf8Name)));

    let mut bad_type = b"SDTR\x01\x00\x00\x00\x01\x00\x00\x00\x07\x01\x00a".to_vec();
    bad_type.extend(std::iter::repeat(0u8).take(32));
    assert!(matches!(Tree::read_binary(&bad_type), Err(CodecError::InvalidEntryType)));

    let short_hash = b"SDTR\x01\x00\x00\x00\x01\x00\x00\x00\x00\x01\x00a\x00\x00".to_vec();
    assert!(matches!(Tree::read_binary(&short_hash), Err(CodecError::UnexpectedEof)));
}

#[test]
fn tree_read_rejects_unsorted_trees() {
    let mut tree = Tree::new();
    tree.add_entry("b".to_string(), blob_entry(&"00".repeat(32), 0));
    tree.add_entry("a".to_string(), blob_entry(&"11".repeat(32), 0));
    let mut buf = Vec::new();
    tree.write_binary(&mut buf).unwrap();
    assert!(matches!(Tree::read_binary(&buf), Err(CodecError::InvalidTree(_))));
}

#[test]
fn tree_read_lowercases_hashes() {
    let mut tree = Tree::new();
    tree.add_entry("f".to_string(), blob_entry(&"AB".repeat(32), 9));
    let mut buf = Vec::new();
    tree.write_binary(&mut buf).unwrap();
    let back = Tree::read_binary(&buf).unwrap();
    match &back.entries[0].1 {
        TreeEntry::Blob { hash, size } => {
            assert_eq!(hash, &"ab".repeat(32));
            assert_eq!(*size, 0);
        }
        _ => panic!("expected a blob"),
    }
}

#[test]
fn tree_sort_orders_by_name() {
    let mut tree = Tree::new();
    for name in ["zeta", "Alpha", "beta", "alpha", "é"] {
        tree.add_entry(name.to_string(), blob_entry(&"00".repeat(32), 0));
    }
    tree.sort();
    let names: Vec<&str> = tree.entries.iter().map(|(n, _)| n.as_str()).collect();
    assert_eq!(names, vec!["Alpha", "alpha", "beta", "zeta", "é"]);
    assert!(tree.validate().is_ok());
}

#[test]
fn tree_validate_errors() {
    let mut dup = Tree::new();
    dup.add_entry("a".to_string(), blob_entry("h", 0));
    dup.add_entry("a".to_string(), blob_entry("h", 0));
    assert_eq!(dup.validate().unwrap_err(), "Duplicate entry name: a");

    let mut sep = Tree::new();
    sep.entries.push(("a/b".to_string(), blob_entry("h", 0)));
    assert_eq!(sep.validate().unwrap_err(), "Tree entry name contains path separator: a/b");

    let mut unsorted = Tree::new();
    unsorted.add_entry("b".to_string(), blob_entry("h", 0));
    unsorted.add_entry("a".to_string(), blob_entry("h", 0));
    assert_eq!(unsorted.validate().unwrap_err(), "Tree entries not sorted: 'a' should come before 'b'");
}

#[test]
fn blob_validate() {
    let ok = Blob {
        chunks: vec![
            ChunkEntry { hash: "a".into(), size: 10, offset: 0 },
            ChunkEntry { hash: "b".into(), size: 5, offset: 10 },
        ],
        total_size: 15,
    };
    assert!(ok.validate().is_ok());

    let wrong_total = Blob { chunks: vec![ChunkEntry { hash: "a".into(), size: 10, offset: 0 }], total_size: 11 };
    assert_eq!(wrong_total.validate().unwrap_err(), "Blob size mismatch: total_size=11, computed=10");

    let unsorted = Blob {
        chunks: vec![
            ChunkEntry { hash: "a".into(), size: 5, offset: 5 },
            ChunkEntry { hash: "b".into(), size: 5, offset: 0 },
        ],
        total_size: 10,
    };
    assert_eq!(
        unsorted.validate().unwrap_err(),
        "Chunks not sorted by offset: chunk 0 has offset 5, chunk 1 has offset 0"
    );

    let gap = Blob {
        chunks: vec![
            ChunkEntry { hash: "a".into(), size: 5, offset: 0 },
            ChunkEntry { hash: "b".into(), size: 5, offset: 6 },
        ],
        total_size: 10,
    };
    assert_eq!(gap.validate().unwrap_err(), "Chunk 1 offset mismatch: expected 5, got 6");

    let empty = Blob { chunks: vec![], total_size: 0 };
    assert!(empty.validate().is_ok());
}

#[test]
fn commit_and_object_validate() {
    let c = Commit {
        tree: "t".into(),
        parents: vec![],
        author: "me".into(),
        message: "msg".into(),
        timestamp: 0,
    };
    assert!(c.validate().is_ok());
    let no_tree = Commit { tree: String::new(), ..c_clone(&c) };
    assert_eq!(no_tree.validate().unwrap_err(), "Commit must have a tree");
    let no_msg = Commit { message: String::new(), ..c_clone(&c) };
    assert_eq!(no_msg.validate().unwrap_err(), "Commit must have a message");
    assert!(Object::Commit(c).validate().is_ok());
    assert!(Object::Tree(Tree::new()).validate().is_ok());
    assert!(Object::Blob(Blob { chunks: vec![], total_size: 1 }).validate().is_err());
}

fn c_clone(c: &Commit) -> Commit {
    Commit {
        tree: c.tree.clone(),
        parents: c.parents.clone(),
        author: c.author.clone(),
        message: c.message.clone(),
        timestamp: c.timestamp,
    }
}

#[test]
fn tree_sort_keeps_equal_names_in_order() {
    let mut tree = Tree::new();
    tree.add_entry("b".to_string(), blob_entry(&"02".repeat(32), 1));
    tree.add_entry("a".to_string(), blob_entry(&"01".repeat(32), 1));
    tree.add_entry("b".to_string(), blob_entry(&"03".repeat(32), 1));
    tree.add_entry("a".to_string(), blob_entry(&"04".repeat(32), 1));
    tree.sort();
    let hashes: Vec<String> = tree
        .entries
        .iter()
        .map(|(_, e)| match e {
            TreeEntry::Blob { hash, .. } => hash.clone(),
            TreeEntry::Tree { hash } => hash.clone(),
        })
        .collect();
    assert_eq!(hashes, vec!["01".repeat(32), "04".repeat(32), "02".repeat(32), "03".repeat(32)]);
}
