// The store's idempotent content addressing, the digest primitives over
// the real hash and compressor, the graph walk and the checkout plan.

use oz::checkout::{FsAction, cmd_checkout};
use oz::listing::{cmd_cat_file, cmd_list_tree};
use oz::objects::{GitBlob, GitCommit, GitObject, GitTree, KvPair, TreeEntry};
use oz::store::{MemStore, object_digest};
use oz::walk::{LogItem, log_graphviz};

fn blob(bytes: &[u8]) -> GitObject {
    GitObject::Blob(GitBlob::from(bytes.to_vec()))
}

fn commit(tree: &[u8], parents: Vec<&[u8]>, msg: &[u8]) -> GitObject {
    let mut data = Vec::new();
    data.push(KvPair { key: b"tree".to_vec(), values: vec![tree.to_vec()] });
    if !parents.is_empty() {
        data.push(KvPair {
            key: b"parent".to_vec(),
            values: parents.into_iter().map(|p| p.to_vec()).collect(),
        });
    }
    data.push(KvPair { key: b"\x00".to_vec(), values: vec![msg.to_vec()] });
    GitObject::Commit(GitCommit { data })
}

#[test]
fn digest_matches_known_value() {
    // the digest of the empty blob under this encoding is a fixed,
    // well-known SHA-1 value
    let d = object_digest(&blob(b""));
    assert_eq!(d, b"e69de29bb2d1d6434b8b29ae775ad8c2e48c5391".to_vec());
}

#[test]
fn digest_deterministic() {
    let a = object_digest(&blob(b"same content"));
    let b = object_digest(&blob(b"same content"));
    assert_eq!(a, b);
    let c = object_digest(&blob(b"other content"));
    assert_ne!(a, c);
}

#[test]
fn store_write_idempotent() {
    let mut store = MemStore::new();
    let d1 = store.object_write(&blob(b"payload"));
    assert_eq!(store.count(), 1);
    let d2 = store.object_write(&blob(b"payload"));
    assert_eq!(d1, d2);
    assert_eq!(store.count(), 1);
    let raw_before = store.get_raw(&d1).unwrap();
    store.object_write(&blob(b"payload"));
    assert_eq!(store.get_raw(&d1).unwrap(), raw_before);
}

#[test]
fn stored_record_is_compressed() {
    let mut store = MemStore::new();
    let d = store.object_write(&blob(b"payload"));
    let raw = store.get_raw(&d).unwrap();
    // a zlib stream opens with 0x78; the record is not the encoded bytes
    assert_eq!(raw[0], 0x78);
    assert_ne!(raw, b"blob 7\x00payload".to_vec());
}

#[test]
fn read_back_what_was_written() {
    let mut store = MemStore::new();
    let d = store.object_write(&blob(b"round trip me"));
    match store.object_read(&d).unwrap() {
        GitObject::Blob(b) => assert_eq!(b.buffer, b"round trip me".to_vec()),
        _ => panic!("expected a blob"),
    }
    assert_eq!(store.object_read(&b"0000000000000000000000000000000000000000".to_vec()).err(),
        Some(oz::OzError::NotFound));
}

fn entry(mode: &[u8; 6], name: &str, sha: &[u8]) -> TreeEntry {
    TreeEntry { mode: mode.to_vec(), name: name.as_bytes().to_vec(), sha: sha.to_vec() }
}

#[test]
fn canonical_hashing_ignores_entry_order() {
    let mut store = MemStore::new();
    let ha = store.object_write(&blob(b"aaa"));
    let hb = store.object_write(&blob(b"bbb"));
    let t1 = GitObject::Tree(GitTree {
        items: vec![entry(b"100644", "one", &ha), entry(b"100644", "two", &hb)],
    });
    let t2 = GitObject::Tree(GitTree {
        items: vec![entry(b"100644", "two", &hb), entry(b"100644", "one", &ha)],
    });
    assert_eq!(object_digest(&t1), object_digest(&t2));
}

#[test]
fn log_diamond_visits_shared_ancestor_once() {
    let mut store = MemStore::new();
    let tree_sha = store.object_write(&GitObject::Tree(GitTree::new()));
    let root = store.object_write(&commit(&tree_sha, vec![], b"root\n"));
    let left = store.object_write(&commit(&tree_sha, vec![&root], b"left\n"));
    let right = store.object_write(&commit(&tree_sha, vec![&root], b"right\n"));
    let merge = store.object_write(&commit(&tree_sha, vec![&left, &right], b"merge\n"));

    let mut seen: Vec<Vec<u8>> = Vec::new();
    let mut out: Vec<LogItem> = Vec::new();
    log_graphviz(&store, &merge, &mut seen, &mut out).expect("the walk must succeed");

    let mut root_nodes = 0;
    let mut nodes = 0;
    let mut edges = 0;
    for item in &out {
        match item {
            LogItem::Node { sha, label } => {
                nodes += 1;
                if *sha == root {
                    root_nodes += 1;
                    assert_eq!(label, &b"root".to_vec());
                }
            },
            LogItem::Edge { .. } => edges += 1,
        }
    }
    assert_eq!(nodes, 4);
    assert_eq!(root_nodes, 1);
    assert_eq!(edges, 4);
    // depth first: the merge's node opens the stream, then its first edge
    match &out[0] {
        LogItem::Node { sha, label } => {
            assert_eq!(sha, &merge);
            assert_eq!(label, &b"merge".to_vec());
        },
        _ => panic!("the stream must open with the start node"),
    }
    match &out[1] {
        LogItem::Edge { from, to } => {
            assert_eq!(from, &merge);
            assert_eq!(to, &left);
        },
        _ => panic!("the first edge follows the start node"),
    }
}

#[test]
fn log_escapes_label_characters() {
    let mut store = MemStore::new();
    let tree_sha = store.object_write(&GitObject::Tree(GitTree::new()));
    let c = store.object_write(&commit(&tree_sha, vec![], b"say \"hi\\\" now\nbody"));
    let mut seen: Vec<Vec<u8>> = Vec::new();
    let mut out: Vec<LogItem> = Vec::new();
    log_graphviz(&store, &c, &mut seen, &mut out).unwrap();
    match &out[0] {
        LogItem::Node { label, .. } => {
            assert_eq!(label, &b"say \\\"hi\\\\\\\" now".to_vec());
        },
        _ => panic!("expected the commit's node"),
    }
}

#[test]
fn checkout_materializes_blob_and_subtree() {
    let mut store = MemStore::new();
    let hblob = store.object_write(&blob(b"file contents\n"));
    let hinner = store.object_write(&blob(b"inner\n"));
    let subtree = store.object_write(&GitObject::Tree(GitTree {
        items: vec![entry(b"100644", "b.txt", &hinner)],
    }));
    let tree = store.object_write(&GitObject::Tree(GitTree {
        items: vec![entry(b"100644", "a.txt", &hblob), entry(b"040000", "sub", &subtree)],
    }));

    let actions = cmd_checkout(&store, &tree, &b"dest".to_vec()).expect("checkout must succeed");
    assert_eq!(actions.len(), 3);
    match &actions[0] {
        FsAction::WriteFile { path, data } => {
            assert_eq!(path, &b"dest/a.txt".to_vec());
            assert_eq!(data, &b"file contents\n".to_vec());
        },
        _ => panic!("the blob entry writes a file"),
    }
    match &actions[1] {
        FsAction::MakeDir { path } => assert_eq!(path, &b"dest/sub".to_vec()),
        _ => panic!("the subtree entry creates its directory"),
    }
    match &actions[2] {
        FsAction::WriteFile { path, data } => {
            assert_eq!(path, &b"dest/sub/b.txt".to_vec());
            assert_eq!(data, &b"inner\n".to_vec());
        },
        _ => panic!("the subtree's blob is written inside it"),
    }
}

#[test]
fn checkout_of_commit_uses_its_tree() {
    let mut store = MemStore::new();
    let hblob = store.object_write(&blob(b"x"));
    let tree = store.object_write(&GitObject::Tree(GitTree {
        items: vec![entry(b"100644", "f", &hblob)],
    }));
    let c = store.object_write(&commit(&tree, vec![], b"m"));
    let actions = cmd_checkout(&store, &c, &b"out".to_vec()).unwrap();
    assert_eq!(actions.len(), 1);
    match &actions[0] {
        FsAction::WriteFile { path, .. } => assert_eq!(path, &b"out/f".to_vec()),
        _ => panic!("expected the file write"),
    }
}

#[test]
fn cat_file_returns_payload() {
    let mut store = MemStore::new();
    let d = store.object_write(&blob(b"shown verbatim"));
    let payload = cmd_cat_file(&store, b"blob".to_vec(), d).unwrap();
    assert_eq!(payload, b"shown verbatim".to_vec());
}

#[test]
fn list_tree_flat_lines() {
    let mut store = MemStore::new();
    let hblob = store.object_write(&blob(b"z"));
    let sub = store.object_write(&GitObject::Tree(GitTree {
        items: vec![entry(b"100644", "inner", &hblob)],
    }));
    let tree = store.object_write(&GitObject::Tree(GitTree {
        items: vec![entry(b"100644", "file", &hblob), entry(b"040000", "dir", &sub)],
    }));

    let lines = cmd_list_tree(&store, false, tree.clone()).unwrap();
    assert_eq!(lines.len(), 2);
    // canonical order puts "dir/" after "file"? no: 'd' < 'f', so dir first
    let mut expect0 = b"040000 tree ".to_vec();
    expect0.extend_from_slice(&sub);
    expect0.extend_from_slice(b"\tdir");
    assert_eq!(lines[0], expect0);
    let mut expect1 = b"100644 blob ".to_vec();
    expect1.extend_from_slice(&hblob);
    expect1.extend_from_slice(b"\tfile");
    assert_eq!(lines[1], expect1);

    let rec = cmd_list_tree(&store, true, tree).unwrap();
    assert_eq!(rec.len(), 2);
    let mut expect_inner = b"100644 blob ".to_vec();
    expect_inner.extend_from_slice(&hblob);
    expect_inner.extend_from_slice(b"\t/dir/inner");
    assert_eq!(rec[0], expect_inner);
    assert_eq!(rec[1], expect1);
}
