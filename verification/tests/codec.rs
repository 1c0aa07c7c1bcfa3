// Round-trip and rejection behaviour of the three codecs: object framing,
// tree payloads with their canonical ordering, and commit headers.

use oz::OzError;
use oz::kvcodec::{kv_parser, kv_serialize};
use oz::objcodec::{object_decode, object_encode};
use oz::objects::{GitBlob, GitCommit, GitObject, GitTag, GitTree, KvPair, TreeEntry};
use oz::treecodec::{tree_parse, tree_serialize};

fn entry(mode: [u8; 6], name: &str, sha: &str) -> TreeEntry {
    TreeEntry {
        mode: mode.to_vec(),
        name: name.as_bytes().to_vec(),
        sha: sha.as_bytes().to_vec(),
    }
}

#[test]
fn test_tree_serializer() {
    let sha = "29c95630072cd48c6c227938e66681536613f9ad";
    let mut data = Vec::new();
    data.push(entry([b'1', b'0', 3, 4, 5, 2], "AEADME", sha));
    data.push(entry([b'1', b'0', 3, 4, 5, 2], "REAME", sha));
    data.push(entry([b'0', b'0', 3, 4, 5, 2], "README", sha));
    data.push(entry([b'0', b'0', 3, 4, 5, 2], "README", sha));
    data.push(entry([b'0', b'0', 3, 4, 5, 2], "AEADME", sha));

    let x = tree_serialize(&mut data);
    let y = tree_parse(&x).expect("the serialized tree must parse back");

    // canonical order: by adjusted name, where non-file modes compare as
    // if the name ended with a path separator
    assert_eq!(y.len(), 5);
    assert_eq!(y[0].name, b"AEADME".to_vec());
    assert_eq!(y[0].mode[0], b'1');
    assert_eq!(y[1].name, b"AEADME".to_vec());
    assert_eq!(y[1].mode[0], b'0');
    assert_eq!(y[2].name, b"README".to_vec());
    assert_eq!(y[3].name, b"README".to_vec());
    assert_eq!(y[4].name, b"REAME".to_vec());
    for e in &y {
        assert_eq!(e.sha, sha.as_bytes().to_vec());
    }
    // the parsed entries re-serialize to the same bytes
    let mut y2 = y;
    let x2 = tree_serialize(&mut y2);
    assert_eq!(x, x2);
}

#[test]
fn parse_command() {}

#[test]
fn tree_tie_break_directory_sorts_last() {
    let h = "29c95630072cd48c6c227938e66681536613f9ad";
    let h2 = "da39a3ee5e6b4b0d3255bfef95601890afd80709";
    let mut data = vec![
        entry(*b"100644", "README", h),
        entry(*b"100644", "README", h),
        entry(*b"040000", "README", h2),
    ];
    tree_serialize(&mut data);
    // "README/" sorts after "README", so the directory entry comes last
    assert_eq!(data[0].mode, b"100644".to_vec());
    assert_eq!(data[1].mode, b"100644".to_vec());
    assert_eq!(data[2].mode, b"040000".to_vec());
}

#[test]
fn blob_round_trip() {
    let obj = GitObject::Blob(GitBlob::from(b"hello world\n".to_vec()));
    let enc = object_encode(&obj);
    assert_eq!(&enc[..12], b"blob 12\x00hell");
    match object_decode(&enc).unwrap() {
        GitObject::Blob(b) => assert_eq!(b.buffer, b"hello world\n".to_vec()),
        _ => panic!("expected a blob"),
    }
}

#[test]
fn tag_round_trip() {
    let obj = GitObject::Tag(GitTag::from(b"object x\n\nannotation".to_vec()));
    let enc = object_encode(&obj);
    match object_decode(&enc).unwrap() {
        GitObject::Tag(t) => assert_eq!(t.buffer, b"object x\n\nannotation".to_vec()),
        _ => panic!("expected a tag"),
    }
}

#[test]
fn tree_round_trip_through_framing() {
    let h = "29c95630072cd48c6c227938e66681536613f9ad";
    let items = vec![
        entry(*b"100644", "a.txt", h),
        entry(*b"100644", "with space", h),
        entry([0, b'0', b'4', b'0', b'0', b'0'], "sub", h),
    ];
    let obj = GitObject::Tree(GitTree { items });
    let enc = object_encode(&obj);
    match object_decode(&enc).unwrap() {
        GitObject::Tree(t) => {
            assert_eq!(t.items.len(), 3);
            // canonical order: "a.txt" < "sub/" < "with space"
            assert_eq!(t.items[0].name, b"a.txt".to_vec());
            assert_eq!(t.items[1].name, b"sub".to_vec());
            // the five-byte mode is reconstructed with its zero pad byte
            assert_eq!(t.items[1].mode, vec![0, b'0', b'4', b'0', b'0', b'0']);
            assert_eq!(t.items[2].name, b"with space".to_vec());
        },
        _ => panic!("expected a tree"),
    }
}

fn pair(key: &[u8], values: Vec<&[u8]>) -> KvPair {
    KvPair {
        key: key.to_vec(),
        values: values.into_iter().map(|v| v.to_vec()).collect(),
    }
}

#[test]
fn commit_round_trip() {
    let data = vec![
        pair(b"tree", vec![b"29c95630072cd48c6c227938e66681536613f9ad"]),
        pair(
            b"parent",
            vec![
                b"aaaaaaaaaaaaaaaaaaaaaaaaaaaaaaaaaaaaaaaa",
                b"bbbbbbbbbbbbbbbbbbbbbbbbbbbbbbbbbbbbbbbb",
            ],
        ),
        pair(b"author", vec![b"A U Thor <a@example.org> 0 +0000"]),
        pair(b"\x00", vec![b"subject line\n\nbody of the message\n"]),
    ];
    let payload = kv_serialize(&data);
    let back = kv_parser(&payload).expect("the serialized commit must parse back");
    assert_eq!(back.len(), 4);
    for (a, b) in back.iter().zip(data.iter()) {
        assert_eq!(a.key, b.key);
        assert_eq!(a.values, b.values);
    }
}

#[test]
fn commit_header_folding() {
    // a value with embedded newlines is folded on encode and reproduced
    // exactly on decode
    let gpg = b"-----BEGIN PGP-----\nline two\nline three\n-----END PGP-----";
    let data = vec![
        pair(b"tree", vec![b"29c95630072cd48c6c227938e66681536613f9ad"]),
        pair(b"gpgsig", vec![gpg]),
        pair(b"\x00", vec![b"msg"]),
    ];
    let payload = kv_serialize(&data);
    // the folded form carries a space after each embedded newline
    let text = payload.clone();
    let needle = b"-----BEGIN PGP-----\n line two\n line three";
    assert!(text.windows(needle.len()).any(|w| w == needle));
    let back = kv_parser(&payload).expect("must parse back");
    assert_eq!(back[1].key, b"gpgsig".to_vec());
    assert_eq!(back[1].values[0], gpg.to_vec());
}

#[test]
fn commit_from_groups_repeated_keys() {
    let payload = b"tree t1\nparent p1\nparent p2\n\nmessage".to_vec();
    let c = GitCommit::from(payload).expect("well-formed payload");
    assert_eq!(c.data[0].key, b"tree".to_vec());
    assert_eq!(c.data[1].key, b"parent".to_vec());
    assert_eq!(c.data[1].values, vec![b"p1".to_vec(), b"p2".to_vec()]);
    assert_eq!(c.data[2].key, b"\x00".to_vec());
    assert_eq!(c.data[2].values[0], b"message".to_vec());
}

#[test]
fn malformed_object_missing_nul() {
    assert_eq!(object_decode(&b"blob 3abc".to_vec()).err(), Some(OzError::MalformedObject));
}

#[test]
fn malformed_object_missing_space() {
    assert_eq!(object_decode(&b"blob3\x00abc".to_vec()).err(), Some(OzError::MalformedObject));
}

#[test]
fn malformed_object_bad_length() {
    assert_eq!(object_decode(&b"blob x\x00abc".to_vec()).err(), Some(OzError::MalformedObject));
}

#[test]
fn size_mismatch_rejected() {
    assert_eq!(object_decode(&b"blob 4\x00abc".to_vec()).err(), Some(OzError::SizeMismatch));
    assert_eq!(object_decode(&b"blob 2\x00abc".to_vec()).err(), Some(OzError::SizeMismatch));
}

#[test]
fn unknown_object_type_rejected() {
    assert_eq!(object_decode(&b"blub 3\x00abc".to_vec()).err(), Some(OzError::UnknownObjectType));
}

#[test]
fn malformed_tree_rejected() {
    // a tree payload whose digest is cut short
    let enc = b"tree 18\x00100644 a\x00shortdige".to_vec();
    assert_eq!(object_decode(&enc).err(), Some(OzError::MalformedTree));
    assert_eq!(GitTree::from(b"100644 a\x00tooshort".to_vec()).err(), Some(OzError::MalformedTree));
}

#[test]
fn malformed_commit_rejected() {
    // no blank line between header and message
    let enc = b"commit 11\x00tree abc123".to_vec();
    assert_eq!(object_decode(&enc).err(), Some(OzError::MalformedCommit));
    // a header line without a separator
    assert_eq!(kv_parser(&b"treeabc\n\nmsg".to_vec()).err(), Some(OzError::MalformedCommit));
}

#[test]
fn empty_tree_encodes_empty() {
    let t = GitTree::new();
    let obj = GitObject::Tree(t);
    let enc = object_encode(&obj);
    assert_eq!(enc, b"tree 0\x00".to_vec());
}

#[test]
fn non_utf8_name_rejected() {
    // a tree entry whose name is not valid UTF-8 is malformed
    let mut payload = b"100644 ".to_vec();
    payload.push(0xff);
    payload.push(0);
    payload.extend_from_slice(&[0u8; 20]);
    assert_eq!(tree_parse(&payload).err(), Some(OzError::MalformedTree));
    assert_eq!(GitTree::from(payload).err(), Some(OzError::MalformedTree));
}

#[test]
fn non_utf8_commit_rejected() {
    // a commit payload that is not valid UTF-8 is malformed even with a
    // proper blank line
    let payload = b"tree \xff\n\nmsg".to_vec();
    assert_eq!(kv_parser(&payload).err(), Some(OzError::MalformedCommit));
    assert_eq!(GitCommit::from(payload).err(), Some(OzError::MalformedCommit));
}
