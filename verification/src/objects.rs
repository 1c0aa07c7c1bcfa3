//! The object model: the four immutable object kinds and their mathematical
//! views.  A tree is an ordered sequence of entries, a commit is an ordered
//! multimap from header keys to value lists with a reserved message key, and
//! blobs and tags carry opaque payloads.

use vstd::prelude::*;

use crate::hexnum::all_hex_lower;
use crate::textenc::is_utf8;

verus! {

/// One tree entry: a six-byte mode (a leading zero byte marks a five-byte
/// mode), a path segment, and the 40-character lowercase hex digest of the
/// entry's target object.
pub struct TreeEntry {
    pub mode: Vec<u8>,
    pub name: Vec<u8>,
    pub sha: Vec<u8>,
}

/// The mathematical view of a tree entry.
#[verifier::ext_equal]
pub ghost struct TreeEntryV {
    pub mode: Seq<u8>,
    pub name: Seq<u8>,
    pub sha: Seq<u8>,
}

impl DeepView for TreeEntry {
    type V = TreeEntryV;

    open spec fn deep_view(&self) -> TreeEntryV {
        TreeEntryV { mode: self.mode@, name: self.name@, sha: self.sha@ }
    }
}

/// One commit or tag header pair: a key and its ordered list of values.
/// The reserved key holding the single zero byte carries the message body.
pub struct KvPair {
    pub key: Vec<u8>,
    pub values: Vec<Vec<u8>>,
}

/// The mathematical view of a header pair.
#[verifier::ext_equal]
pub ghost struct KvPairV {
    pub key: Seq<u8>,
    pub values: Seq<Seq<u8>>,
}

impl DeepView for KvPair {
    type V = KvPairV;

    open spec fn deep_view(&self) -> KvPairV {
        KvPairV { key: self.key@, values: self.values.deep_view() }
    }
}

/// The reserved header key under which the message body is recorded.  No
/// valid header key contains a zero byte, so it cannot collide.
pub open spec fn msg_key() -> Seq<u8> {
    seq![0u8]
}

/// An opaque byte payload.
pub struct GitBlob {
    pub buffer: Vec<u8>,
}

/// An ordered sequence of tree entries.
pub struct GitTree {
    pub items: Vec<TreeEntry>,
}

/// An ordered multimap from header keys to value lists, message last.
pub struct GitCommit {
    pub data: Vec<KvPair>,
}

/// An opaque byte payload in the header format, kept verbatim.
pub struct GitTag {
    pub buffer: Vec<u8>,
}

/// The closed union of object kinds.
pub enum GitObject {
    Blob(GitBlob),
    Commit(GitCommit),
    Tag(GitTag),
    Tree(GitTree),
}

/// The mathematical view of an object.
#[verifier::ext_equal]
pub ghost enum GitObjectV {
    Blob(Seq<u8>),
    Commit(Seq<KvPairV>),
    Tag(Seq<u8>),
    Tree(Seq<TreeEntryV>),
}

impl DeepView for GitObject {
    type V = GitObjectV;

    open spec fn deep_view(&self) -> GitObjectV {
        match self {
            GitObject::Blob(b) => GitObjectV::Blob(b.buffer@),
            GitObject::Commit(c) => GitObjectV::Commit(c.data.deep_view()),
            GitObject::Tag(t) => GitObjectV::Tag(t.buffer@),
            GitObject::Tree(t) => GitObjectV::Tree(t.items.deep_view()),
        }
    }
}

/// A well-formed mode: six bytes, where only the first may be the zero pad
/// byte and none may be a space, so that the encoded form parses back.
pub open spec fn wf_mode(m: Seq<u8>) -> bool {
    &&& m.len() == 6
    &&& m[0] != 32
    &&& forall|i: int| 1 <= i < 6 ==> #[trigger] m[i] != 0 && m[i] != 32
}

/// A well-formed digest string: 40 lowercase hex digits.
pub open spec fn wf_sha(s: Seq<u8>) -> bool {
    s.len() == 40 && all_hex_lower(s)
}

/// A well-formed tree entry: valid mode, a UTF-8 name free of NUL bytes
/// (it is a path segment), and a valid digest.
pub open spec fn wf_entry(e: TreeEntryV) -> bool {
    &&& wf_mode(e.mode)
    &&& forall|i: int| 0 <= i < e.name.len() ==> #[trigger] e.name[i] != 0
    &&& is_utf8(e.name)
    &&& wf_sha(e.sha)
}

/// A well-formed header key: non-empty and free of NUL, space and newline,
/// so that its line parses back and it cannot collide with the message key.
pub open spec fn wf_key(k: Seq<u8>) -> bool {
    &&& k.len() > 0
    &&& forall|i: int| 0 <= i < k.len() ==> #[trigger] k[i] != 0 && k[i] != 32 && k[i] != 10
}

/// Well-formed commit data: every pair but the last holds a valid header
/// key and at least one value, keys are pairwise distinct, the last pair
/// is the reserved message pair with exactly one value, and keys, values
/// and message are all text.
pub open spec fn wf_kv(ps: Seq<KvPairV>) -> bool {
    &&& ps.len() >= 2
    &&& forall|i: int|
        0 <= i < ps.len() - 1 ==> wf_key(#[trigger] ps[i].key) && ps[i].values.len() >= 1
            && is_utf8(ps[i].key)
    &&& forall|i: int, j: int|
        0 <= i < ps.len() - 1 && 0 <= j < ps[i].values.len() ==> is_utf8(
            #[trigger] ps[i].values[j],
        )
    &&& forall|i: int, j: int| 0 <= i < j < ps.len() ==> (#[trigger] ps[i].key) != (#[trigger] ps[j].key)
    &&& ps.last().key == msg_key()
    &&& ps.last().values.len() == 1
    &&& is_utf8(ps.last().values[0])
}

/// Whether every entry of a tree is well formed.
pub open spec fn wf_tree_entries(es: Seq<TreeEntryV>) -> bool {
    forall|i: int| 0 <= i < es.len() ==> wf_entry(#[trigger] es[i])
}

/// Whether an object can be encoded without failing: tree entries carry
/// valid digests, and a commit's message pair, where present, is non-empty.
pub open spec fn encodable(o: GitObjectV) -> bool {
    match o {
        GitObjectV::Blob(_) => true,
        GitObjectV::Tag(_) => true,
        GitObjectV::Tree(es) => wf_tree_entries(es),
        GitObjectV::Commit(ps) => crate::kvcodec::find_key(ps, msg_key()) >= 0
            ==> ps[crate::kvcodec::find_key(ps, msg_key())].values.len() >= 1,
    }
}

impl GitBlob {
    /// Build a blob over a raw payload.
    pub fn from(buffer: Vec<u8>) -> (r: Self)
        ensures
            r.buffer@ == buffer@,
    {
        GitBlob { buffer }
    }
}

impl GitTag {
    /// Build a tag over a raw payload, kept verbatim.
    pub fn from(buffer: Vec<u8>) -> (r: Self)
        ensures
            r.buffer@ == buffer@,
    {
        GitTag { buffer }
    }
}

impl GitTree {
    /// An empty tree.
    pub fn new() -> (r: Self)
        ensures
            r.items.deep_view() == Seq::<TreeEntryV>::empty(),
    {
        let r = GitTree { items: Vec::new() };
        proof {
            assert(r.items.deep_view() =~= Seq::<TreeEntryV>::empty());
        }
        r
    }
}

} // verus!
