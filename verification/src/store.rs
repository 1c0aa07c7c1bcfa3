//! The object store: digests map to compressed encoded records.  Reading
//! decompresses and decodes; writing encodes, hashes, compresses, and
//! persists only if the digest is absent — content addressing makes the
//! write idempotent and non-destructive.

use vstd::prelude::*;

use crate::OzError;
use crate::hexnum::{hex_encode, hex_of};
use crate::kvcodec::bytes_eq;
use crate::objcodec::{encoded_bytes, obj_decode_spec, object_decode, object_encode};
use crate::objects::{GitObject, GitObjectV, encodable};
use crate::primitives::{sha1_digest, sha1_of, zlib_compress, zlib_decompress, zlib_of,
    zlib_reading};
use crate::treecodec::copy_range;

verus! {

/// The digest addressing an object: the lowercase hex expansion of the
/// SHA-1 of its encoded form.
pub open spec fn digest_of(o: GitObjectV) -> Seq<u8> {
    hex_of(sha1_of(encoded_bytes(o)))
}

struct StoreEntry {
    sha: Vec<u8>,
    data: Vec<u8>,
}

/// An in-memory object store: an association list from digest strings to
/// stored records, first write wins.
pub struct MemStore {
    entries: Vec<StoreEntry>,
}

impl View for MemStore {
    type V = Seq<(Seq<u8>, Seq<u8>)>;

    closed spec fn view(&self) -> Seq<(Seq<u8>, Seq<u8>)> {
        Seq::new(self.entries@.len(), |i: int| (self.entries@[i].sha@, self.entries@[i].data@))
    }
}

/// The first record keyed by `k`, or -1.
pub open spec fn store_find(s: Seq<(Seq<u8>, Seq<u8>)>, k: Seq<u8>) -> int
    decreases s.len(),
{
    if s.len() == 0 {
        -1
    } else if s[0].0 == k {
        0
    } else {
        let r = store_find(s.drop_first(), k);
        if r < 0 {
            -1
        } else {
            r + 1
        }
    }
}

/// Whether the store holds a record for digest `k`.
pub open spec fn store_contains(s: Seq<(Seq<u8>, Seq<u8>)>, k: Seq<u8>) -> bool {
    store_find(s, k) >= 0
}

/// The stored record for digest `k`.
pub open spec fn store_get(s: Seq<(Seq<u8>, Seq<u8>)>, k: Seq<u8>) -> Seq<u8> {
    s[store_find(s, k)].1
}

pub proof fn lemma_store_find_props(s: Seq<(Seq<u8>, Seq<u8>)>, k: Seq<u8>)
    ensures
        store_find(s, k) >= 0 ==> store_find(s, k) < s.len() && s[store_find(s, k)].0 == k
            && forall|j: int| 0 <= j < store_find(s, k) ==> (#[trigger] s[j].0) != k,
        store_find(s, k) < 0 ==> forall|j: int| 0 <= j < s.len() ==> (#[trigger] s[j].0) != k,
    decreases s.len(),
{
    if s.len() > 0 && s[0].0 != k {
        lemma_store_find_props(s.drop_first(), k);
        assert(forall|j: int| 0 <= j < s.drop_first().len() ==> s.drop_first()[j] == s[j + 1]);
        let r = store_find(s.drop_first(), k);
        if r < 0 {
            assert forall|j: int| 0 <= j < s.len() implies (#[trigger] s[j].0) != k by {
                if j > 0 {
                    assert(s.drop_first()[j - 1].0 != k);
                }
            }
        } else {
            assert forall|j: int| 0 <= j < r + 1 implies (#[trigger] s[j].0) != k by {
                if j > 0 {
                    assert(s.drop_first()[j - 1].0 != k);
                }
            }
        }
    }
}

pub proof fn lemma_store_find_exact(s: Seq<(Seq<u8>, Seq<u8>)>, k: Seq<u8>, t: int)
    requires
        0 <= t < s.len(),
        s[t].0 == k,
        forall|j: int| 0 <= j < t ==> (#[trigger] s[j].0) != k,
    ensures
        store_find(s, k) == t,
{
    lemma_store_find_props(s, k);
    let r = store_find(s, k);
    if r < 0 {
        assert(s[t].0 != k);
    } else if r < t {
        assert(s[r].0 != k);
    } else if r > t {
        assert(s[t].0 != k);
    }
}

/// The store a write leaves behind: unchanged when the digest is already
/// present, else extended by the compressed encoded record.
pub open spec fn write_transition(s: Seq<(Seq<u8>, Seq<u8>)>, o: GitObjectV) -> Seq<
    (Seq<u8>, Seq<u8>),
> {
    if store_contains(s, digest_of(o)) {
        s
    } else {
        s.push((digest_of(o), zlib_of(encoded_bytes(o))))
    }
}

impl MemStore {
    /// An empty store.
    pub fn new() -> (r: Self)
        ensures
            r@ == Seq::<(Seq<u8>, Seq<u8>)>::empty(),
    {
        let r = MemStore { entries: Vec::new() };
        proof {
            assert(r@ =~= Seq::<(Seq<u8>, Seq<u8>)>::empty());
        }
        r
    }

    /// How many records the store holds.
    pub fn count(&self) -> (r: usize)
        ensures
            r == self@.len(),
    {
        self.entries.len()
    }

    /// Find the position of a digest's record.
    fn find(&self, sha: &Vec<u8>) -> (r: Option<usize>)
        ensures
            match r {
                Some(t) => t < self@.len() && store_find(self@, sha@) == t,
                None => store_find(self@, sha@) == -1,
            },
    {
        let mut i: usize = 0;
        while i < self.entries.len()
            invariant
                i <= self.entries@.len(),
                forall|j: int| 0 <= j < i ==> (#[trigger] self@[j].0) != sha@,
            decreases self.entries@.len() - i,
        {
            if bytes_eq(&self.entries[i].sha, sha) {
                proof {
                    assert(self@[i as int].0 == sha@);
                    lemma_store_find_exact(self@, sha@, i as int);
                }
                return Some(i);
            }
            proof {
                assert(self@[i as int].0 == self.entries@[i as int].sha@);
            }
            i = i + 1;
        }
        proof {
            lemma_store_find_props(self@, sha@);
            if store_find(self@, sha@) >= 0 {
                assert(self@[store_find(self@, sha@)].0 == sha@);
            }
        }
        None
    }

    /// Whether the store holds a record for this digest.
    pub fn contains(&self, sha: &Vec<u8>) -> (r: bool)
        ensures
            r == store_contains(self@, sha@),
    {
        self.find(sha).is_some()
    }

    /// The raw stored record for this digest, if any.
    pub fn get_raw(&self, sha: &Vec<u8>) -> (r: Option<Vec<u8>>)
        ensures
            match r {
                Some(d) => store_contains(self@, sha@) && d@ == store_get(self@, sha@),
                None => !store_contains(self@, sha@),
            },
    {
        match self.find(sha) {
            Some(t) => Some(copy_range(&self.entries[t].data, 0, self.entries[t].data.len())),
            None => None,
        }
    }

    /// Record raw bytes under a digest, unless one is already present: the
    /// first write wins and later ones change nothing.
    pub fn put_raw(&mut self, sha: Vec<u8>, data: Vec<u8>)
        ensures
            store_contains(old(self)@, sha@) ==> final(self)@ == old(self)@,
            !store_contains(old(self)@, sha@) ==> final(self)@ == old(self)@.push(
                (sha@, data@),
            ),
    {
        let ghost before = self@;
        if self.contains(&sha) {
            return ;
        }
        let entry = StoreEntry { sha, data };
        self.entries.push(entry);
        proof {
            assert(self@ =~= before.push((entry.sha@, entry.data@)));
        }
    }

    /// Write an object: encode it, hash the encoded form, and persist the
    /// compressed record at its digest only if absent.  The digest is
    /// returned either way — it is a pure function of the object's
    /// content, so re-storing identical content never changes the store.
    pub fn object_write(&mut self, obj: &GitObject) -> (sha: Vec<u8>)
        requires
            encodable(obj.deep_view()),
        ensures
            sha@ == digest_of(obj.deep_view()),
            final(self)@ == write_transition(old(self)@, obj.deep_view()),
    {
        let enc = object_encode(obj);
        let raw = sha1_digest(&enc);
        let sha = hex_encode(&raw);
        let key = copy_range(&sha, 0, sha.len());
        proof {
            assert(key@ =~= sha@);
        }
        if !self.contains(&key) {
            let comp = zlib_compress(&enc);
            self.put_raw(key, comp);
        }
        proof {
            assert(sha@.subrange(0, sha@.len() as int) =~= sha@);
        }
        sha
    }

    /// Read the object stored at a digest: absent digests report
    /// `NotFound` — and only they do — records that do not decompress
    /// report `CorruptStorage`, and whatever record was stored decodes
    /// exactly as the framing codec says, over what the decompressor
    /// reads out of it.
    pub fn object_read(&self, sha: &Vec<u8>) -> (r: Result<GitObject, OzError>)
        ensures
            !store_contains(self@, sha@) ==> r == Err::<GitObject, OzError>(OzError::NotFound),
            store_contains(self@, sha@) ==> r != Err::<GitObject, OzError>(OzError::NotFound),
            store_contains(self@, sha@) && zlib_reading(store_get(self@, sha@)) is None ==> r
                == Err::<GitObject, OzError>(OzError::CorruptStorage),
            forall|x: Seq<u8>|
                store_contains(self@, sha@) && zlib_reading(store_get(self@, sha@)) == Some(x)
                    ==> #[trigger] obj_matches(r, obj_decode_spec(x)),
            forall|x: Seq<u8>|
                store_contains(self@, sha@) && store_get(self@, sha@) == zlib_of(x)
                    ==> #[trigger] obj_matches(r, obj_decode_spec(x)),
            r is Ok ==> encodable(r->Ok_0.deep_view()),
    {
        let data = match self.get_raw(sha) {
            Some(d) => d,
            None => {
                return Err(OzError::NotFound);
            },
        };
        let raw = match zlib_decompress(&data) {
            Some(raw) => raw,
            None => {
                proof {
                    assert forall|x: Seq<u8>|
                        store_contains(self@, sha@) && store_get(self@, sha@) == zlib_of(x)
                            implies #[trigger] obj_matches(
                        Err::<GitObject, OzError>(OzError::CorruptStorage),
                        obj_decode_spec(x),
                    ) by {
                        assert(data@ == zlib_of(x));
                    }
                }
                return Err(OzError::CorruptStorage);
            },
        };
        let r = object_decode(&raw);
        proof {
            if r is Ok {
                crate::objcodec::lemma_decode_encodable(raw@);
            }
            if r is Err {
                crate::objcodec::lemma_decode_err_kinds(raw@);
            }
            assert(zlib_reading(data@) == Some(raw@));
            assert forall|x: Seq<u8>|
                store_contains(self@, sha@) && zlib_reading(store_get(self@, sha@)) == Some(x)
                    implies #[trigger] obj_matches(r, obj_decode_spec(x)) by {
                assert(x == raw@);
            }
            assert forall|x: Seq<u8>|
                store_contains(self@, sha@) && store_get(self@, sha@) == zlib_of(x)
                    implies #[trigger] obj_matches(r, obj_decode_spec(x)) by {
                assert(data@ == zlib_of(x));
                assert(raw@ == x);
            }
        }
        r
    }
}

/// Whether an executable read result carries exactly the object or error a
/// decode meaning calls for.
pub open spec fn obj_matches(r: Result<GitObject, OzError>, spec_r: Result<
    GitObjectV,
    OzError,
>) -> bool {
    match spec_r {
        Ok(ov) => r is Ok && r->Ok_0.deep_view() == ov,
        Err(e) => r == Err::<GitObject, OzError>(e),
    }
}

/// The digest an object would be stored under, without persisting: a pure
/// function of the object's content.
pub fn object_digest(obj: &GitObject) -> (sha: Vec<u8>)
    requires
        encodable(obj.deep_view()),
    ensures
        sha@ == digest_of(obj.deep_view()),
{
    let enc = object_encode(obj);
    let raw = sha1_digest(&enc);
    hex_encode(&raw)
}

/// Writing an object is idempotent: the first write stores exactly one new
/// record, and a second write of the same content leaves the store exactly
/// as it was — both writes return the same digest, which the store then
/// holds.
pub proof fn lemma_store_idempotent(s: Seq<(Seq<u8>, Seq<u8>)>, o: GitObjectV)
    ensures
        store_contains(write_transition(s, o), digest_of(o)),
        write_transition(write_transition(s, o), o) == write_transition(s, o),
        !store_contains(s, digest_of(o)) ==> write_transition(s, o).len() == s.len() + 1,
        store_contains(s, digest_of(o)) ==> write_transition(s, o) == s,
{
    let d = digest_of(o);
    if !store_contains(s, d) {
        let s2 = s.push((d, zlib_of(encoded_bytes(o))));
        lemma_store_find_props(s, d);
        assert forall|j: int| 0 <= j < s2.len() - 1 implies (#[trigger] s2[j].0) != d by {
            assert(s2[j] == s[j]);
        }
        assert(s2[s2.len() - 1].0 == d);
        lemma_store_find_exact(s2, d, s2.len() - 1);
    }
}

} // verus!

verus! {

/// Build an object of the named type over a raw payload: a blob or tag
/// holds it verbatim, a tree or commit payload is decoded; any other type
/// name is unknown.
pub fn hash_object(obj_type: &Vec<u8>, data: Vec<u8>) -> (r: Result<GitObject, OzError>)
    ensures
        ({
            let t = obj_type@;
            if t == seq![98u8, 108u8, 111u8, 98u8] {
                r is Ok && r->Ok_0.deep_view() == GitObjectV::Blob(data@)
            } else if t == seq![116u8, 114u8, 101u8, 101u8] {
                match crate::treecodec::tree_parse_from(data@, 0) {
                    Ok(es) => r is Ok && r->Ok_0.deep_view() == GitObjectV::Tree(es),
                    Err(e) => r == Err::<GitObject, OzError>(e),
                }
            } else if t == seq![99u8, 111u8, 109u8, 109u8, 105u8, 116u8] {
                match crate::kvcodec::kv_parse_spec(data@) {
                    Ok(ps) => r is Ok && r->Ok_0.deep_view() == GitObjectV::Commit(ps),
                    Err(e) => r == Err::<GitObject, OzError>(e),
                }
            } else if t == seq![116u8, 97u8, 103u8] {
                r is Ok && r->Ok_0.deep_view() == GitObjectV::Tag(data@)
            } else {
                r == Err::<GitObject, OzError>(OzError::UnknownObjectType)
            }
        }),
        r is Ok ==> encodable(r->Ok_0.deep_view()),
{
    let t = obj_type;
    let is_blob = t.len() == 4 && t[0] == 98 && t[1] == 108 && t[2] == 111 && t[3] == 98;
    let is_tree = t.len() == 4 && t[0] == 116 && t[1] == 114 && t[2] == 101 && t[3] == 101;
    let is_commit = t.len() == 6 && t[0] == 99 && t[1] == 111 && t[2] == 109 && t[3] == 109 && t[4]
        == 105 && t[5] == 116;
    let is_tag = t.len() == 3 && t[0] == 116 && t[1] == 97 && t[2] == 103;
    proof {
        if is_blob {
            assert(t@ =~= seq![98u8, 108u8, 111u8, 98u8]);
        } else {
            assert(t@ != seq![98u8, 108u8, 111u8, 98u8]);
        }
        if is_tree {
            assert(t@ =~= seq![116u8, 114u8, 101u8, 101u8]);
        } else {
            assert(t@ != seq![116u8, 114u8, 101u8, 101u8]);
        }
        if is_commit {
            assert(t@ =~= seq![99u8, 111u8, 109u8, 109u8, 105u8, 116u8]);
        } else {
            assert(t@ != seq![99u8, 111u8, 109u8, 109u8, 105u8, 116u8]);
        }
        if is_tag {
            assert(t@ =~= seq![116u8, 97u8, 103u8]);
        } else {
            assert(t@ != seq![116u8, 97u8, 103u8]);
        }
    }
    if is_blob {
        Ok(GitObject::Blob(crate::objects::GitBlob::from(data)))
    } else if is_tree {
        match crate::objects::GitTree::from(data) {
            Ok(tr) => {
                proof {
                    crate::treecodec::lemma_tree_parse_wf(data@, 0);
                }
                Ok(GitObject::Tree(tr))
            },
            Err(e) => Err(e),
        }
    } else if is_commit {
        match crate::objects::GitCommit::from(data) {
            Ok(c) => {
                proof {
                    crate::kvcodec::lemma_parse_msg(data@);
                }
                Ok(GitObject::Commit(c))
            },
            Err(e) => Err(e),
        }
    } else if is_tag {
        Ok(GitObject::Tag(crate::objects::GitTag::from(data)))
    } else {
        Err(OzError::UnknownObjectType)
    }
}

} // verus!

verus! {

/// Two trees holding the same entries, in whatever input order, are
/// stored under one digest: canonical serialization makes the address a
/// function of the entry multiset alone.
pub proof fn lemma_tree_digest_order_free(a: Seq<crate::objects::TreeEntryV>, b: Seq<
    crate::objects::TreeEntryV,
>)
    requires
        a.to_multiset() == b.to_multiset(),
    ensures
        digest_of(GitObjectV::Tree(a)) == digest_of(GitObjectV::Tree(b)),
{
    crate::treecodec::lemma_canonical_hashing(a, b);
    assert(encoded_bytes(GitObjectV::Tree(a)) == encoded_bytes(GitObjectV::Tree(b)));
}

} // verus!
