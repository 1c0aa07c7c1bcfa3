//! The object framing codec.  An encoded object is `type-name SPACE
//! decimal-length NUL payload`; decoding locates the separators, checks the
//! declared length, and hands the payload to the codec the type name calls
//! for.

use vstd::prelude::*;

use crate::OzError;
use crate::hexnum::{all_digits, dec_encode, dec_parse, dec_rep, dec_val, lemma_dec_rep_digits,
    lemma_dec_val_of_rep};
use crate::kvcodec::{append_range, kv_bytes, kv_parse_spec, kv_parser, kv_serialize};
use crate::objects::{GitBlob, GitCommit, GitObject, GitObjectV, GitTag, GitTree, KvPairV,
    TreeEntry, TreeEntryV, encodable, wf_kv, wf_tree_entries};
use crate::treecodec::{canon, copy_range, entry_leq, find_byte, find_byte_from,
    lemma_canon_of_sorted, lemma_find_byte_found, lemma_find_byte_exact, lemma_tree_parse_of_bytes,
    tree_bytes, tree_parse, tree_parse_from, tree_serialize};

verus! {

/// The type name of an object kind, as ASCII bytes.
pub open spec fn type_tag(o: GitObjectV) -> Seq<u8> {
    match o {
        GitObjectV::Blob(_) => seq![98u8, 108u8, 111u8, 98u8],
        GitObjectV::Commit(_) => seq![99u8, 111u8, 109u8, 109u8, 105u8, 116u8],
        GitObjectV::Tag(_) => seq![116u8, 97u8, 103u8],
        GitObjectV::Tree(_) => seq![116u8, 114u8, 101u8, 101u8],
    }
}

/// The serialized payload of an object: a blob or tag verbatim, a tree in
/// its canonical entry order, a commit through the header codec.
pub open spec fn payload_bytes(o: GitObjectV) -> Seq<u8> {
    match o {
        GitObjectV::Blob(b) => b,
        GitObjectV::Commit(ps) => kv_bytes(ps),
        GitObjectV::Tag(b) => b,
        GitObjectV::Tree(es) => tree_bytes(canon(es)),
    }
}

/// The full encoded form of an object.
pub open spec fn encoded_bytes(o: GitObjectV) -> Seq<u8> {
    type_tag(o) + seq![32u8] + dec_rep(payload_bytes(o).len()) + seq![0u8] + payload_bytes(o)
}

/// The meaning of an encoded object: locate the first space and the first
/// NUL after it, read the decimal length, check it against the payload,
/// and dispatch on the type name.
pub open spec fn obj_decode_spec(data: Seq<u8>) -> Result<GitObjectV, OzError> {
    let s = find_byte(data, 32u8, 0);
    if s < 0 {
        Err(OzError::MalformedObject)
    } else {
        let p = find_byte(data, 0u8, s);
        if p < 0 {
            Err(OzError::MalformedObject)
        } else {
            let lenfield = data.subrange(s + 1, p);
            if !(lenfield.len() > 0 && all_digits(lenfield) && dec_val(lenfield) <= usize::MAX) {
                Err(OzError::MalformedObject)
            } else if data.len() - p - 1 != dec_val(lenfield) {
                Err(OzError::SizeMismatch)
            } else {
                let t = data.subrange(0, s);
                let payload = data.subrange(p + 1, data.len() as int);
                if t == seq![98u8, 108u8, 111u8, 98u8] {
                    Ok(GitObjectV::Blob(payload))
                } else if t == seq![116u8, 114u8, 101u8, 101u8] {
                    match tree_parse_from(payload, 0) {
                        Ok(es) => Ok(GitObjectV::Tree(es)),
                        Err(e) => Err(e),
                    }
                } else if t == seq![99u8, 111u8, 109u8, 109u8, 105u8, 116u8] {
                    match kv_parse_spec(payload) {
                        Ok(ps) => Ok(GitObjectV::Commit(ps)),
                        Err(e) => Err(e),
                    }
                } else if t == seq![116u8, 97u8, 103u8] {
                    Ok(GitObjectV::Tag(payload))
                } else {
                    Err(OzError::UnknownObjectType)
                }
            }
        }
    }
}

impl GitObject {
    /// Serialize the payload of this object, without the framing header.
    pub fn serialize(&self) -> (r: Vec<u8>)
        requires
            encodable(self.deep_view()),
        ensures
            r@ == payload_bytes(self.deep_view()),
    {
        match self {
            GitObject::Blob(b) => copy_range(&b.buffer, 0, b.buffer.len()),
            GitObject::Tag(t) => copy_range(&t.buffer, 0, t.buffer.len()),
            GitObject::Commit(c) => {
                proof {
                    let dv = c.data.deep_view();
                    assert(self.deep_view() == GitObjectV::Commit(dv));
                    assert(encodable(GitObjectV::Commit(dv)));
                }
                kv_serialize(&c.data)
            },
            GitObject::Tree(t) => {
                let mut items = clone_entries(&t.items);
                proof {
                    assert(self.deep_view() == GitObjectV::Tree(t.items.deep_view()));
                    assert(wf_tree_entries(items.deep_view()));
                }
                tree_serialize(&mut items)
            },
        }
    }
}

/// Copy a list of tree entries.
fn clone_entries(items: &Vec<TreeEntry>) -> (r: Vec<TreeEntry>)
    ensures
        r.deep_view() == items.deep_view(),
{
    let mut r: Vec<TreeEntry> = Vec::new();
    let mut i: usize = 0;
    proof {
        assert(r.deep_view() =~= items.deep_view().take(0));
    }
    while i < items.len()
        invariant
            i <= items@.len(),
            r.deep_view() == items.deep_view().take(i as int),
        decreases items@.len() - i,
    {
        let e = &items[i];
        let copy = TreeEntry {
            mode: copy_range(&e.mode, 0, e.mode.len()),
            name: copy_range(&e.name, 0, e.name.len()),
            sha: copy_range(&e.sha, 0, e.sha.len()),
        };
        proof {
            assert(e.mode@.subrange(0, e.mode@.len() as int) =~= e.mode@);
            assert(e.name@.subrange(0, e.name@.len() as int) =~= e.name@);
            assert(e.sha@.subrange(0, e.sha@.len() as int) =~= e.sha@);
            assert(items.deep_view()[i as int] == items@[i as int].deep_view());
            assert(copy.deep_view() =~= items.deep_view()[i as int]);
        }
        let ghost prevv = r@;
        let ghost prevd = r.deep_view();
        r.push(copy);
        proof {
            let dv = items.deep_view();
            assert forall|t: int| 0 <= t < r@.len() implies r.deep_view()[t] == prevd.push(
                copy.deep_view(),
            )[t] by {
                assert(r.deep_view()[t] == r@[t].deep_view());
                if t < prevv.len() {
                    assert(r@[t] == prevv[t]);
                    assert(prevd[t] == prevv[t].deep_view());
                } else {
                    assert(r@[t] == copy);
                }
            }
            assert(r.deep_view() =~= prevd.push(copy.deep_view()));
            assert(dv.take(i + 1) =~= dv.take(i as int).push(dv[i as int]));
            assert(r.deep_view() =~= dv.take(i + 1));
        }
        i = i + 1;
    }
    proof {
        assert(items.deep_view().take(items@.len() as int) =~= items.deep_view());
    }
    r
}

/// The type name of this object, for display and framing.
fn tag_of(obj: &GitObject) -> (r: Vec<u8>)
    ensures
        r@ == type_tag(obj.deep_view()),
{
    let mut r: Vec<u8> = Vec::new();
    match obj {
        GitObject::Blob(_) => {
            r.push(98);
            r.push(108);
            r.push(111);
            r.push(98);
            proof {
                assert(r@ =~= type_tag(obj.deep_view()));
            }
        },
        GitObject::Commit(_) => {
            r.push(99);
            r.push(111);
            r.push(109);
            r.push(109);
            r.push(105);
            r.push(116);
            proof {
                assert(r@ =~= type_tag(obj.deep_view()));
            }
        },
        GitObject::Tag(_) => {
            r.push(116);
            r.push(97);
            r.push(103);
            proof {
                assert(r@ =~= type_tag(obj.deep_view()));
            }
        },
        GitObject::Tree(_) => {
            r.push(116);
            r.push(114);
            r.push(101);
            r.push(101);
            proof {
                assert(r@ =~= type_tag(obj.deep_view()));
            }
        },
    }
    r
}

/// Encode an object: type name, one space, the payload length in decimal,
/// one NUL byte, then the payload.
pub fn object_encode(obj: &GitObject) -> (r: Vec<u8>)
    requires
        encodable(obj.deep_view()),
    ensures
        r@ == encoded_bytes(obj.deep_view()),
{
    let payload = obj.serialize();
    let mut r = tag_of(obj);
    r.push(32);
    let digits = dec_encode(payload.len());
    append_range(&mut r, &digits);
    r.push(0);
    append_range(&mut r, &payload);
    proof {
        assert(r@ =~= encoded_bytes(obj.deep_view()));
    }
    r
}

/// Decode an encoded object, or report which structural check failed.
pub fn object_decode(data: &Vec<u8>) -> (r: Result<GitObject, OzError>)
    ensures
        match r {
            Ok(o) => obj_decode_spec(data@) == Ok::<GitObjectV, OzError>(o.deep_view()),
            Err(e) => obj_decode_spec(data@) == Err::<GitObjectV, OzError>(e),
        },
{
    let s = match find_byte_from(data, 32u8, 0) {
        Some(s) => s,
        None => {
            return Err(OzError::MalformedObject);
        },
    };
    let p = match find_byte_from(data, 0u8, s) {
        Some(p) => p,
        None => {
            return Err(OzError::MalformedObject);
        },
    };
    proof {
        lemma_find_byte_found(data@, 0u8, s as int);
        lemma_find_byte_found(data@, 32u8, 0);
        assert(data@[p as int] == 0 && data@[s as int] == 32);
        assert(s != p);
        assert(s < p);
    }
    let n = match dec_parse(data, s + 1, p) {
        Some(n) => n,
        None => {
            return Err(OzError::MalformedObject);
        },
    };
    if data.len() - p - 1 != n {
        return Err(OzError::SizeMismatch);
    }
    let t = copy_range(data, 0, s);
    let payload = copy_range(data, p + 1, data.len());
    let is_blob = t.len() == 4 && t[0] == 98 && t[1] == 108 && t[2] == 111 && t[3] == 98;
    let is_tree = t.len() == 4 && t[0] == 116 && t[1] == 114 && t[2] == 101 && t[3] == 101;
    let is_commit = t.len() == 6 && t[0] == 99 && t[1] == 111 && t[2] == 109 && t[3] == 109 && t[4]
        == 105 && t[5] == 116;
    let is_tag = t.len() == 3 && t[0] == 116 && t[1] == 97 && t[2] == 103;
    proof {
        if is_blob {
            assert(t@ =~= seq![98u8, 108u8, 111u8, 98u8]);
        } else {
            assert(t@ != seq![98u8, 108u8, 111u8, 98u8]);
        }
        if is_tree {
            assert(t@ =~= seq![116u8, 114u8, 101u8, 101u8]);
        } else {
            assert(t@ != seq![116u8, 114u8, 101u8, 101u8]);
        }
        if is_commit {
            assert(t@ =~= seq![99u8, 111u8, 109u8, 109u8, 105u8, 116u8]);
        } else {
            assert(t@ != seq![99u8, 111u8, 109u8, 109u8, 105u8, 116u8]);
        }
        if is_tag {
            assert(t@ =~= seq![116u8, 97u8, 103u8]);
        } else {
            assert(t@ != seq![116u8, 97u8, 103u8]);
        }
    }
    if is_blob {
        Ok(GitObject::Blob(GitBlob { buffer: payload }))
    } else if is_tree {
        match tree_parse(&payload) {
            Ok(items) => Ok(GitObject::Tree(GitTree { items })),
            Err(e) => Err(e),
        }
    } else if is_commit {
        match kv_parser(&payload) {
            Ok(pairs) => Ok(GitObject::Commit(GitCommit { data: pairs })),
            Err(e) => Err(e),
        }
    } else if is_tag {
        Ok(GitObject::Tag(GitTag { buffer: payload }))
    } else {
        Err(OzError::UnknownObjectType)
    }
}

impl GitTree {
    /// Build a tree by decoding a tree payload.
    pub fn from(buffer: Vec<u8>) -> (r: Result<Self, OzError>)
        ensures
            match r {
                Ok(t) => tree_parse_from(buffer@, 0) == Ok::<Seq<TreeEntryV>, OzError>(
                    t.items.deep_view(),
                ),
                Err(e) => tree_parse_from(buffer@, 0) == Err::<Seq<TreeEntryV>, OzError>(e),
            },
    {
        match tree_parse(&buffer) {
            Ok(items) => Ok(GitTree { items }),
            Err(e) => Err(e),
        }
    }
}

impl GitCommit {
    /// Build a commit by decoding a header-with-message payload.
    pub fn from(buffer: Vec<u8>) -> (r: Result<Self, OzError>)
        ensures
            match r {
                Ok(c) => kv_parse_spec(buffer@) == Ok::<Seq<KvPairV>, OzError>(c.data.deep_view()),
                Err(e) => kv_parse_spec(buffer@) == Err::<Seq<KvPairV>, OzError>(e),
            },
    {
        match kv_parser(&buffer) {
            Ok(data) => Ok(GitCommit { data }),
            Err(e) => Err(e),
        }
    }
}

/// A well-formed object: a tree's entries are well formed and already in
/// canonical order, a commit's data is well formed.  These are the objects
/// whose encoded form decodes back to them unchanged.
pub open spec fn wf_object(o: GitObjectV) -> bool {
    match o {
        GitObjectV::Blob(_) => true,
        GitObjectV::Tag(_) => true,
        GitObjectV::Tree(es) => wf_tree_entries(es) && vstd::relations::sorted_by(es, entry_leq()),
        GitObjectV::Commit(ps) => wf_kv(ps),
    }
}

/// Decoding an encoded well-formed object yields exactly that object:
/// payloads byte-identical, header pairs in order, tree entries unchanged.
pub proof fn lemma_object_round_trip(o: GitObjectV)
    requires
        wf_object(o),
        payload_bytes(o).len() <= usize::MAX,
    ensures
        obj_decode_spec(encoded_bytes(o)) == Ok::<GitObjectV, OzError>(o),
{
    let data = encoded_bytes(o);
    let tag = type_tag(o);
    let payload = payload_bytes(o);
    let digits = dec_rep(payload.len());
    let nt = tag.len() as int;
    let nd = digits.len() as int;
    lemma_dec_rep_digits(payload.len());
    lemma_dec_val_of_rep(payload.len());
    assert(data.len() == nt + 1 + nd + 1 + payload.len());
    assert forall|t: int| 0 <= t < data.len() implies #[trigger] data[t] == (tag + seq![32u8]
        + digits + seq![0u8] + payload)[t] by {}
    assert(forall|t: int| 0 <= t < nt ==> #[trigger] data[t] == tag[t]);
    assert(data[nt] == 32u8);
    assert(forall|t: int| 0 <= t < nd ==> #[trigger] data[nt + 1 + t] == digits[t]);
    assert(data[nt + 1 + nd] == 0u8);
    // the first space ends the type name
    assert forall|j: int| 0 <= j < nt implies #[trigger] data[j] != 32 by {
        assert(data[j] == tag[j]);
    }
    lemma_find_byte_exact(data, 32u8, 0, nt);
    // the first NUL after it ends the length field
    assert forall|j: int| nt <= j < nt + 1 + nd implies #[trigger] data[j] != 0 by {
        if j > nt {
            assert(data[nt + 1 + (j - nt - 1)] == digits[j - nt - 1]);
            assert(crate::hexnum::is_digit(digits[j - nt - 1]));
        }
    }
    lemma_find_byte_exact(data, 0u8, nt, nt + 1 + nd);
    let s = find_byte(data, 32u8, 0);
    let p = find_byte(data, 0u8, s);
    assert(s == nt && p == nt + 1 + nd);
    // the length field reads back as the payload length
    assert forall|t: int| 0 <= t < nd implies data.subrange(s + 1, p)[t] == digits[t] by {
        assert(data[nt + 1 + t] == digits[t]);
    }
    assert(data.subrange(s + 1, p) =~= digits);
    assert(dec_val(digits) == payload.len());
    assert(data.len() - p - 1 == dec_val(digits));
    // the parsed type name and payload
    assert forall|t: int| 0 <= t < nt implies data.subrange(0, s)[t] == tag[t] by {
        assert(data[t] == tag[t]);
    }
    assert(data.subrange(0, s) =~= tag);
    assert forall|t: int|
        0 <= t < payload.len() implies data.subrange(p + 1, data.len() as int)[t] == payload[t] by {
        assert(data[nt + 1 + nd + 1 + t] == (tag + seq![32u8] + digits + seq![0u8] + payload)[nt + 1
            + nd + 1 + t]);
    }
    assert(data.subrange(p + 1, data.len() as int) =~= payload);
    // dispatch on the four names, which are pairwise distinct
    match o {
        GitObjectV::Blob(b) => {
            assert(obj_decode_spec(data) == Ok::<GitObjectV, OzError>(GitObjectV::Blob(payload)));
        },
        GitObjectV::Tree(es) => {
            assert(tag != seq![98u8, 108u8, 111u8, 98u8]) by {
                assert(tag[0] == 116u8);
            }
            lemma_canon_of_sorted(es);
            assert(payload == tree_bytes(es));
            assert(payload.subrange(0, payload.len() as int) =~= payload);
            lemma_tree_parse_of_bytes(payload, 0, es);
        },
        GitObjectV::Commit(ps) => {
            assert(tag != seq![98u8, 108u8, 111u8, 98u8]) by {
                assert(tag[0] == 99u8);
            }
            assert(tag != seq![116u8, 114u8, 101u8, 101u8]) by {
                assert(tag.len() == 6);
            }
            crate::kvcodec::lemma_kv_round_trip(ps);
        },
        GitObjectV::Tag(b) => {
            assert(tag != seq![98u8, 108u8, 111u8, 98u8]) by {
                assert(tag.len() == 3);
            }
            assert(tag != seq![116u8, 114u8, 101u8, 101u8]) by {
                assert(tag.len() == 3);
            }
            assert(tag != seq![99u8, 111u8, 109u8, 109u8, 105u8, 116u8]) by {
                assert(tag.len() == 3);
            }
            assert(obj_decode_spec(data) == Ok::<GitObjectV, OzError>(GitObjectV::Tag(payload)));
        },
    }
}

} // verus!

verus! {

/// The errors a decode can report: only the structural kinds.  In
/// particular a decode never reports a store error.
pub proof fn lemma_decode_err_kinds(x: Seq<u8>)
    requires
        obj_decode_spec(x) is Err,
    ensures
        obj_decode_spec(x)->Err_0 != OzError::NotFound,
        obj_decode_spec(x)->Err_0 != OzError::CorruptStorage,
        obj_decode_spec(x)->Err_0 != OzError::InconsistentHistory,
{
    let s = find_byte(x, 32u8, 0);
    if s >= 0 {
        let p = find_byte(x, 0u8, s);
        if p >= 0 {
            let payload = x.subrange(p + 1, x.len() as int);
            if tree_parse_from(payload, 0) is Err {
                crate::treecodec::lemma_tree_parse_err(payload, 0);
            }
            if kv_parse_spec(payload) is Err {
                crate::kvcodec::lemma_kv_parse_err(payload);
            }
        }
    }
}

/// A decoded commit always carries its message pair, with exactly one
/// value.
pub proof fn lemma_decode_commit_msg(x: Seq<u8>)
    requires
        obj_decode_spec(x) is Ok,
    ensures
        match obj_decode_spec(x)->Ok_0 {
            GitObjectV::Commit(ps) => crate::kvcodec::find_key(ps, crate::objects::msg_key()) >= 0
                && ps[crate::kvcodec::find_key(ps, crate::objects::msg_key())].values.len() == 1,
            _ => true,
        },
{
    let s = find_byte(x, 32u8, 0);
    let p = find_byte(x, 0u8, s);
    let t = x.subrange(0, s);
    let payload = x.subrange(p + 1, x.len() as int);
    if t == seq![99u8, 111u8, 109u8, 109u8, 105u8, 116u8] && kv_parse_spec(payload) is Ok {
        crate::kvcodec::lemma_parse_msg(payload);
    }
}

/// Whatever an encoded object decodes to can be encoded again: parsed
/// trees carry valid digests, and parsed commits hold their message pair.
pub proof fn lemma_decode_encodable(x: Seq<u8>)
    requires
        obj_decode_spec(x) is Ok,
    ensures
        encodable(obj_decode_spec(x)->Ok_0),
{
    let s = find_byte(x, 32u8, 0);
    let p = find_byte(x, 0u8, s);
    let t = x.subrange(0, s);
    let payload = x.subrange(p + 1, x.len() as int);
    if t == seq![98u8, 108u8, 111u8, 98u8] {
    } else if t == seq![116u8, 114u8, 101u8, 101u8] {
        crate::treecodec::lemma_tree_parse_wf(payload, 0);
    } else if t == seq![99u8, 111u8, 109u8, 109u8, 105u8, 116u8] {
        crate::kvcodec::lemma_parse_msg(payload);
    }
}

} // verus!
