//! The tree payload codec.  An encoded tree is a concatenation of entries,
//! each `mode SPACE name NUL digest20`, where a five-byte mode is emitted as
//! five bytes and reconstructed with a leading zero pad byte, and the twenty
//! raw digest bytes expand to the forty-character lowercase hex digest.

use vstd::prelude::*;

use crate::OzError;
use crate::hexnum::{
    all_hex_lower, hex_encode, hex_of, lemma_hex_of_len, lemma_hex_of_raw, lemma_raw_of_hex_len,
    raw_of_hex,
};
use crate::objects::{TreeEntry, TreeEntryV, wf_entry, wf_mode, wf_tree_entries};
use crate::textenc::{is_utf8, utf8_check};

verus! {

/// The first index at or after `from` holding byte `b`, or -1.
pub open spec fn find_byte(data: Seq<u8>, b: u8, from: int) -> int
    decreases data.len() - from,
{
    if from < 0 || from >= data.len() {
        -1
    } else if data[from] == b {
        from
    } else {
        find_byte(data, b, from + 1)
    }
}

pub proof fn lemma_find_byte_exact(data: Seq<u8>, b: u8, from: int, k: int)
    requires
        0 <= from <= k < data.len(),
        data[k] == b,
        forall|j: int| from <= j < k ==> #[trigger] data[j] != b,
    ensures
        find_byte(data, b, from) == k,
    decreases k - from,
{
    if from < k {
        lemma_find_byte_exact(data, b, from + 1, k);
    }
}

pub proof fn lemma_find_byte_none(data: Seq<u8>, b: u8, from: int)
    requires
        0 <= from,
        forall|j: int| from <= j < data.len() ==> #[trigger] data[j] != b,
    ensures
        find_byte(data, b, from) == -1,
    decreases data.len() - from,
{
    if from < data.len() {
        lemma_find_byte_none(data, b, from + 1);
    }
}

pub proof fn lemma_find_byte_found(data: Seq<u8>, b: u8, from: int)
    requires
        0 <= from,
        find_byte(data, b, from) >= 0,
    ensures
        from <= find_byte(data, b, from) < data.len(),
        data[find_byte(data, b, from)] == b,
        forall|j: int| from <= j < find_byte(data, b, from) ==> #[trigger] data[j] != b,
    decreases data.len() - from,
{
    if from < data.len() && data[from] != b {
        lemma_find_byte_found(data, b, from + 1);
    }
}

/// Find the first occurrence of `b` at or after `from`.
pub fn find_byte_from(data: &Vec<u8>, b: u8, from: usize) -> (r: Option<usize>)
    requires
        from <= data@.len(),
    ensures
        match r {
            Some(k) => from <= k < data@.len() && find_byte(data@, b, from as int) == k,
            None => find_byte(data@, b, from as int) == -1,
        },
{
    let mut i = from;
    while i < data.len()
        invariant
            from <= i <= data@.len(),
            forall|j: int| from <= j < i ==> #[trigger] data@[j] != b,
        decreases data@.len() - i,
    {
        if data[i] == b {
            proof {
                lemma_find_byte_exact(data@, b, from as int, i as int);
            }
            return Some(i);
        }
        i = i + 1;
    }
    proof {
        lemma_find_byte_none(data@, b, from as int);
    }
    None
}

/// The mode bytes as emitted: a mode with a zero pad byte is emitted as the
/// five bytes that follow it, any other mode is emitted whole.
pub open spec fn mode_emit(m: Seq<u8>) -> Seq<u8> {
    if m.len() == 6 && m[0] == 0 {
        m.skip(1)
    } else {
        m
    }
}

/// The encoded form of one tree entry.
pub open spec fn entry_bytes(e: TreeEntryV) -> Seq<u8> {
    mode_emit(e.mode) + seq![32u8] + e.name + seq![0u8] + raw_of_hex(e.sha)
}

/// The encoded form of a tree: its entries, concatenated in order.
pub open spec fn tree_bytes(es: Seq<TreeEntryV>) -> Seq<u8>
    decreases es.len(),
{
    if es.len() == 0 {
        Seq::empty()
    } else {
        entry_bytes(es[0]) + tree_bytes(es.drop_first())
    }
}

/// The meaning of an encoded tree from index `i` on: the entry sequence it
/// denotes, or the structural error.  Each step locates the NUL terminator
/// and the mode/name separator, reconstructs a five-byte mode with a zero
/// pad byte, and expands the twenty raw digest bytes to lowercase hex.
pub open spec fn tree_parse_from(data: Seq<u8>, i: int) -> Result<Seq<TreeEntryV>, OzError>
    decreases data.len() - i,
{
    if i >= data.len() {
        Ok(Seq::empty())
    } else {
        let p = find_byte(data, 0u8, i);
        let s = find_byte(data, 32u8, i);
        if p < 0 || s < 0 || s > p {
            Err(OzError::MalformedTree)
        } else if s - i != 5 && s - i != 6 {
            Err(OzError::MalformedTree)
        } else if p + 21 > data.len() {
            Err(OzError::MalformedTree)
        } else if !is_utf8(data.subrange(s + 1, p)) {
            Err(OzError::MalformedTree)
        } else {
            let mode = if s - i == 5 {
                seq![0u8] + data.subrange(i, s)
            } else {
                data.subrange(i, s)
            };
            let e = TreeEntryV {
                mode,
                name: data.subrange(s + 1, p),
                sha: hex_of(data.subrange(p + 1, p + 21)),
            };
            match tree_parse_from(data, p + 21) {
                Ok(rest) => Ok(seq![e] + rest),
                Err(err) => Err(err),
            }
        }
    }
}

/// Copy `data[a..b]` into a fresh vector.
pub fn copy_range(data: &Vec<u8>, a: usize, b: usize) -> (r: Vec<u8>)
    requires
        a <= b <= data@.len(),
    ensures
        r@ == data@.subrange(a as int, b as int),
{
    let mut r: Vec<u8> = Vec::new();
    let mut i = a;
    while i < b
        invariant
            a <= i <= b <= data@.len(),
            r@ == data@.subrange(a as int, i as int),
        decreases b - i,
    {
        r.push(data[i]);
        proof {
            assert(data@.subrange(a as int, i + 1) =~= data@.subrange(a as int, i as int).push(
                data@[i as int],
            ));
        }
        i = i + 1;
    }
    r
}

fn tree_parse_at(data: &Vec<u8>, i: usize) -> (r: Result<Vec<TreeEntry>, OzError>)
    requires
        i <= data@.len(),
    ensures
        match r {
            Ok(es) => tree_parse_from(data@, i as int) == Ok::<Seq<TreeEntryV>, OzError>(
                es.deep_view(),
            ),
            Err(e) => tree_parse_from(data@, i as int) == Err::<Seq<TreeEntryV>, OzError>(e),
        },
    decreases data@.len() - i,
{
    if i >= data.len() {
        let r: Vec<TreeEntry> = Vec::new();
        proof {
            assert(r.deep_view() =~= Seq::<TreeEntryV>::empty());
        }
        return Ok(r);
    }
    let p = match find_byte_from(data, 0u8, i) {
        Some(p) => p,
        None => {
            return Err(OzError::MalformedTree);
        },
    };
    let s = match find_byte_from(data, 32u8, i) {
        Some(s) => s,
        None => {
            return Err(OzError::MalformedTree);
        },
    };
    if s > p {
        return Err(OzError::MalformedTree);
    }
    let mlen = s - i;
    if mlen != 5 && mlen != 6 {
        return Err(OzError::MalformedTree);
    }
    if data.len() - p < 21 {
        return Err(OzError::MalformedTree);
    }
    proof {
        lemma_find_byte_found(data@, 0u8, i as int);
        lemma_find_byte_found(data@, 32u8, i as int);
        assert(data@[p as int] == 0 && data@[s as int] == 32);
        assert(s != p);
    }
    let name = copy_range(data, s + 1, p);
    if !utf8_check(&name) {
        return Err(OzError::MalformedTree);
    }
    let mode = if mlen == 5 {
        let mut m: Vec<u8> = Vec::new();
        m.push(0u8);
        let mut k = i;
        while k < s
            invariant
                i <= k <= s <= data@.len(),
                m@ == seq![0u8] + data@.subrange(i as int, k as int),
            decreases s - k,
        {
            m.push(data[k]);
            proof {
                assert(seq![0u8] + data@.subrange(i as int, k + 1) =~= (seq![0u8] + data@.subrange(
                    i as int,
                    k as int,
                )).push(data@[k as int]));
            }
            k = k + 1;
        }
        m
    } else {
        copy_range(data, i, s)
    };
    let raw = copy_range(data, p + 1, p + 21);
    let sha = hex_encode(&raw);
    let entry = TreeEntry { mode, name, sha };
    match tree_parse_at(data, p + 21) {
        Ok(rest) => {
            let mut es: Vec<TreeEntry> = Vec::new();
            es.push(entry);
            let mut rest = rest;
            let ghost entry_v = entry.deep_view();
            let ghost rest_v = rest.deep_view();
            es.append(&mut rest);
            proof {
                assert(es.deep_view() =~= seq![entry_v] + rest_v);
            }
            Ok(es)
        },
        Err(e) => Err(e),
    }
}

/// Decode a tree payload into its entries, or report the malformation.
pub fn tree_parse(data: &Vec<u8>) -> (r: Result<Vec<TreeEntry>, OzError>)
    ensures
        match r {
            Ok(es) => tree_parse_from(data@, 0) == Ok::<Seq<TreeEntryV>, OzError>(es.deep_view())
                && wf_tree_entries(es.deep_view()),
            Err(e) => tree_parse_from(data@, 0) == Err::<Seq<TreeEntryV>, OzError>(e),
        },
{
    let r = tree_parse_at(data, 0);
    proof {
        if r is Ok {
            lemma_tree_parse_wf(data@, 0);
        }
    }
    r
}

/// The only malformation a tree payload reports.
pub proof fn lemma_tree_parse_err(data: Seq<u8>, i: int)
    requires
        tree_parse_from(data, i) is Err,
    ensures
        tree_parse_from(data, i)->Err_0 == OzError::MalformedTree,
    decreases data.len() - i,
{
    if 0 <= i < data.len() {
        let p = find_byte(data, 0u8, i);
        if p >= 0 && p + 21 <= data.len() && tree_parse_from(data, p + 21) is Err {
            lemma_find_byte_found(data, 0u8, i);
            lemma_tree_parse_err(data, p + 21);
        }
    }
}

/// Whatever an encoded tree parses to is well formed.
pub proof fn lemma_tree_parse_wf(data: Seq<u8>, i: int)
    requires
        0 <= i,
        tree_parse_from(data, i) is Ok,
    ensures
        wf_tree_entries(tree_parse_from(data, i)->Ok_0),
    decreases data.len() - i,
{
    if i >= data.len() {
    } else {
        let p = find_byte(data, 0u8, i);
        let s = find_byte(data, 32u8, i);
        lemma_find_byte_found(data, 0u8, i);
        lemma_find_byte_found(data, 32u8, i);
        let mode = if s - i == 5 {
            seq![0u8] + data.subrange(i, s)
        } else {
            data.subrange(i, s)
        };
        let e = TreeEntryV {
            mode,
            name: data.subrange(s + 1, p),
            sha: hex_of(data.subrange(p + 1, p + 21)),
        };
        assert(wf_mode(e.mode)) by {
            assert(forall|j: int| i <= j < s ==> #[trigger] data[j] != 32);
            assert(forall|j: int| i <= j < p ==> #[trigger] data[j] != 0);
        }
        assert(forall|j: int| 0 <= j < e.name.len() ==> #[trigger] e.name[j] != 0);
        lemma_hex_of_len(data.subrange(p + 1, p + 21));
        lemma_tree_parse_wf(data, p + 21);
        let rest = tree_parse_from(data, p + 21)->Ok_0;
        assert(tree_parse_from(data, i)->Ok_0 == seq![e] + rest);
        assert(forall|j: int|
            0 <= j < (seq![e] + rest).len() ==> wf_entry(#[trigger] (seq![e] + rest)[j]));
    }
}

/// An encoded well-formed tree parses back to exactly its entries.
pub proof fn lemma_tree_parse_of_bytes(data: Seq<u8>, i: int, es: Seq<TreeEntryV>)
    requires
        0 <= i <= data.len(),
        data.subrange(i, data.len() as int) == tree_bytes(es),
        wf_tree_entries(es),
    ensures
        tree_parse_from(data, i) == Ok::<Seq<TreeEntryV>, OzError>(es),
    decreases es.len(),
{
    if es.len() == 0 {
        assert(tree_bytes(es) =~= Seq::<u8>::empty());
        assert(data.subrange(i, data.len() as int).len() == 0);
        assert(es =~= Seq::<TreeEntryV>::empty());
    } else {
        let e = es[0];
        let rest = es.drop_first();
        let mb = mode_emit(e.mode);
        let raw = raw_of_hex(e.sha);
        lemma_raw_of_hex_len(e.sha);
        assert(raw.len() == 20);
        let nm = mb.len() as int;
        let nn = e.name.len() as int;
        assert(nm == 5 || nm == 6);
        let tail = data.subrange(i, data.len() as int);
        assert(tail == entry_bytes(e) + tree_bytes(rest));
        let eb = entry_bytes(e);
        assert(eb.len() == nm + 1 + nn + 1 + 20);
        // the layout of the head entry inside `data`
        assert forall|t: int| 0 <= t < eb.len() implies #[trigger] data[i + t] == eb[t] by {
            assert(0 <= t < tail.len());
            assert(data.subrange(i, data.len() as int)[t] == data[i + t]);
            assert(tail[t] == data[i + t]);
            assert((eb + tree_bytes(rest))[t] == eb[t]);
            assert(tail[t] == (eb + tree_bytes(rest))[t]);
        }
        assert(forall|t: int| 0 <= t < nm ==> #[trigger] eb[t] == mb[t]);
        assert(eb[nm] == 32u8);
        assert(forall|t: int| 0 <= t < nn ==> #[trigger] eb[nm + 1 + t] == e.name[t]);
        assert(eb[nm + 1 + nn] == 0u8);
        assert(forall|t: int| 0 <= t < 20 ==> #[trigger] eb[nm + 1 + nn + 1 + t] == raw[t]);
        // the mode bytes hold neither a space nor a NUL
        assert(wf_mode(e.mode));
        assert forall|t: int| 0 <= t < nm implies #[trigger] mb[t] != 32 && mb[t] != 0 by {
            if e.mode.len() == 6 && e.mode[0] == 0 {
                assert(mb[t] == e.mode[t + 1]);
            } else {
                assert(mb[t] == e.mode[t]);
            }
        }
        // the name holds no NUL
        assert(forall|t: int| 0 <= t < nn ==> #[trigger] e.name[t] != 0);
        let sp = i + nm;
        let np = i + nm + 1 + nn;
        assert(data[i + nm] == eb[nm]);
        assert(data[sp] == 32u8);
        assert(data[i + (nm + 1 + nn)] == eb[nm + 1 + nn]);
        assert(data[np] == 0u8);
        assert forall|j: int| i <= j < sp implies #[trigger] data[j] != 32 by {
            assert(data[i + (j - i)] == eb[j - i]);
            assert(eb[j - i] == mb[j - i]);
        }
        lemma_find_byte_exact(data, 32u8, i, sp);
        assert forall|j: int| i <= j < np implies #[trigger] data[j] != 0 by {
            assert(data[i + (j - i)] == eb[j - i]);
            if j - i < nm {
                assert(eb[j - i] == mb[j - i]);
            } else if j - i > nm {
                assert(eb[nm + 1 + (j - i - nm - 1)] == e.name[j - i - nm - 1]);
            }
        }
        lemma_find_byte_exact(data, 0u8, i, np);
        let p = find_byte(data, 0u8, i);
        let s = find_byte(data, 32u8, i);
        assert(s == sp && p == np);
        assert(p + 21 <= data.len());
        // the parsed fields equal the entry's own
        let mode = if s - i == 5 {
            seq![0u8] + data.subrange(i, s)
        } else {
            data.subrange(i, s)
        };
        assert(data.subrange(i, s) =~= mb);
        if nm == 5 {
            assert(e.mode[0] == 0);
            assert(mode =~= e.mode);
        } else {
            assert(e.mode.len() == 6 && e.mode[0] != 0);
            assert(mode =~= e.mode);
        }
        assert forall|t: int| 0 <= t < nn implies data.subrange(s + 1, p)[t] == e.name[t] by {
            assert(data[i + (nm + 1 + t)] == eb[nm + 1 + t]);
        }
        assert(data.subrange(s + 1, p) =~= e.name);
        assert forall|t: int| 0 <= t < 20 implies data.subrange(p + 1, p + 21)[t] == raw[t] by {
            assert(data[i + (nm + 1 + nn + 1 + t)] == eb[nm + 1 + nn + 1 + t]);
        }
        assert(data.subrange(p + 1, p + 21) =~= raw);
        assert(e.sha.len() % 2 == 0 && all_hex_lower(e.sha)) by {
            assert(wf_entry(e));
        }
        lemma_hex_of_raw(e.sha);
        assert(hex_of(data.subrange(p + 1, p + 21)) == e.sha);
        // the remainder is the encoding of the remaining entries
        assert forall|t: int|
            0 <= t < tree_bytes(rest).len() implies data.subrange(p + 21, data.len() as int)[t]
            == tree_bytes(rest)[t] by {
            assert((eb + tree_bytes(rest))[eb.len() + t] == tree_bytes(rest)[t]);
            assert(tail[eb.len() + t] == data[i + (eb.len() + t)]);
        }
        assert(data.subrange(p + 21, data.len() as int) =~= tree_bytes(rest));
        assert(wf_tree_entries(rest)) by {
            assert(forall|j: int| 0 <= j < rest.len() ==> rest[j] == es[j + 1]);
        }
        lemma_tree_parse_of_bytes(data, p + 21, rest);
        let parsed = TreeEntryV {
            mode,
            name: data.subrange(s + 1, p),
            sha: hex_of(data.subrange(p + 1, p + 21)),
        };
        assert(parsed == e);
        assert(seq![e] + rest =~= es);
        assert(tree_parse_from(data, p + 21) == Ok::<Seq<TreeEntryV>, OzError>(rest));
        assert(i < data.len());
        assert(tree_parse_from(data, i) == Ok::<Seq<TreeEntryV>, OzError>(seq![parsed] + rest));
        assert(seq![parsed] + rest == es);
    }
}

} // verus!

verus! {

/// Byte-string comparison from index `i` on: true when `a`'s suffix is
/// lexicographically at or before `b`'s, a shorter string sorting first.
pub open spec fn bytes_le_from(a: Seq<u8>, b: Seq<u8>, i: int) -> bool
    decreases a.len() - i,
{
    if i < 0 || i >= a.len() {
        true
    } else if i >= b.len() {
        false
    } else if a[i] < b[i] {
        true
    } else if a[i] > b[i] {
        false
    } else {
        bytes_le_from(a, b, i + 1)
    }
}

/// Lexicographic order on byte strings.
pub open spec fn bytes_le(a: Seq<u8>, b: Seq<u8>) -> bool {
    bytes_le_from(a, b, 0)
}

proof fn lemma_bytes_le_refl(a: Seq<u8>, i: int)
    ensures
        bytes_le_from(a, a, i),
    decreases a.len() - i,
{
    if 0 <= i < a.len() {
        lemma_bytes_le_refl(a, i + 1);
    }
}

proof fn lemma_bytes_le_total(a: Seq<u8>, b: Seq<u8>, i: int)
    ensures
        bytes_le_from(a, b, i) || bytes_le_from(b, a, i),
    decreases a.len() - i,
{
    if 0 <= i && i < a.len() && i < b.len() && a[i] == b[i] {
        lemma_bytes_le_total(a, b, i + 1);
    }
}

proof fn lemma_bytes_le_antisym(a: Seq<u8>, b: Seq<u8>, i: int)
    requires
        0 <= i <= a.len(),
        i <= b.len(),
        bytes_le_from(a, b, i),
        bytes_le_from(b, a, i),
        forall|k: int| 0 <= k < i ==> #[trigger] a[k] == b[k],
    ensures
        a == b,
    decreases a.len() - i,
{
    if i >= a.len() {
        assert(i >= b.len());
        assert(a =~= b);
    } else {
        assert(i < b.len());
        assert(a[i] == b[i]);
        lemma_bytes_le_antisym(a, b, i + 1);
    }
}

proof fn lemma_bytes_le_trans(a: Seq<u8>, b: Seq<u8>, c: Seq<u8>, i: int)
    requires
        bytes_le_from(a, b, i),
        bytes_le_from(b, c, i),
    ensures
        bytes_le_from(a, c, i),
    decreases a.len() - i,
{
    if 0 <= i && i < a.len() {
        if i < b.len() && i < c.len() && a[i] == b[i] && b[i] == c[i] {
            lemma_bytes_le_trans(a, b, c, i + 1);
        }
    }
}

/// Whether the mode marks a regular file: it opens with the bytes `10`.
pub open spec fn is_file_mode(m: Seq<u8>) -> bool {
    m.len() == 6 && m[0] == 49 && m[1] == 48
}

/// The canonical sort key of an entry's name: directory-like entries
/// compare as if their name ended with a path separator.
pub open spec fn adjusted_name(e: TreeEntryV) -> Seq<u8> {
    if is_file_mode(e.mode) {
        e.name
    } else {
        e.name + seq![47u8]
    }
}

/// The canonical order on tree entries: by adjusted name, ties broken by
/// mode bytes, then by target digest.
pub open spec fn entry_le(x: TreeEntryV, y: TreeEntryV) -> bool {
    if adjusted_name(x) != adjusted_name(y) {
        bytes_le(adjusted_name(x), adjusted_name(y))
    } else if x.mode != y.mode {
        bytes_le(x.mode, y.mode)
    } else {
        bytes_le(x.sha, y.sha)
    }
}

/// The canonical order as a relation value.
pub open spec fn entry_leq() -> spec_fn(TreeEntryV, TreeEntryV) -> bool {
    |x: TreeEntryV, y: TreeEntryV| entry_le(x, y)
}

/// The canonical form of a tree's entries: sorted by the canonical order.
pub open spec fn canon(es: Seq<TreeEntryV>) -> Seq<TreeEntryV> {
    es.sort_by(entry_leq())
}

/// The canonical order is a total ordering, so the canonical form of a
/// tree's entry multiset is unique.
pub proof fn lemma_entry_le_order()
    ensures
        vstd::relations::total_ordering(entry_leq()),
{
    let leq = entry_leq();
    assert forall|x: TreeEntryV| #[trigger] leq(x, x) by {
        lemma_bytes_le_refl(adjusted_name(x), 0);
        lemma_bytes_le_refl(x.mode, 0);
        lemma_bytes_le_refl(x.sha, 0);
    }
    assert forall|x: TreeEntryV, y: TreeEntryV| #[trigger] leq(x, y) && #[trigger] leq(y, x)
        implies x == y by {
        if adjusted_name(x) == adjusted_name(y) {
            if x.mode == y.mode {
                lemma_bytes_le_antisym(x.sha, y.sha, 0);
                if is_file_mode(x.mode) {
                    assert(x.name == y.name);
                } else {
                    assert(x.name + seq![47u8] == y.name + seq![47u8]);
                    assert(x.name =~= (x.name + seq![47u8]).drop_last());
                    assert(y.name =~= (y.name + seq![47u8]).drop_last());
                }
            } else {
                lemma_bytes_le_antisym(x.mode, y.mode, 0);
            }
        } else {
            lemma_bytes_le_antisym(adjusted_name(x), adjusted_name(y), 0);
        }
    }
    assert forall|x: TreeEntryV, y: TreeEntryV, z: TreeEntryV|
        #[trigger] leq(x, y) && #[trigger] leq(y, z) implies leq(x, z) by {
        let ax = adjusted_name(x);
        let ay = adjusted_name(y);
        let az = adjusted_name(z);
        if ax != ay && ay != az {
            lemma_bytes_le_trans(ax, ay, az, 0);
            if ax == az {
                lemma_bytes_le_antisym(ax, ay, 0);
            }
        } else if ax == ay && ay == az {
            if x.mode != y.mode && y.mode != z.mode {
                lemma_bytes_le_trans(x.mode, y.mode, z.mode, 0);
                if x.mode == z.mode {
                    lemma_bytes_le_antisym(x.mode, y.mode, 0);
                }
            } else if x.mode == y.mode && y.mode == z.mode {
                lemma_bytes_le_trans(x.sha, y.sha, z.sha, 0);
            }
        }
    }
    assert forall|x: TreeEntryV, y: TreeEntryV| #[trigger] leq(x, y) || #[trigger] leq(y, x) by {
        lemma_bytes_le_total(adjusted_name(x), adjusted_name(y), 0);
        lemma_bytes_le_total(x.mode, y.mode, 0);
        lemma_bytes_le_total(x.sha, y.sha, 0);
    }
}

/// Any two entry sequences holding the same entries, in whatever order,
/// share one canonical form and therefore one canonical encoding: tree
/// digests do not depend on the order entries were supplied in.
pub proof fn lemma_canonical_hashing(a: Seq<TreeEntryV>, b: Seq<TreeEntryV>)
    requires
        a.to_multiset() == b.to_multiset(),
    ensures
        canon(a) == canon(b),
        tree_bytes(canon(a)) == tree_bytes(canon(b)),
{
    lemma_entry_le_order();
    a.lemma_sort_by_ensures(entry_leq());
    b.lemma_sort_by_ensures(entry_leq());
    vstd::seq_lib::lemma_sorted_unique(canon(a), canon(b), entry_leq());
}

/// A sequence already sorted by the canonical order is its own canonical
/// form.
pub proof fn lemma_canon_of_sorted(es: Seq<TreeEntryV>)
    requires
        vstd::relations::sorted_by(es, entry_leq()),
    ensures
        canon(es) == es,
{
    lemma_entry_le_order();
    es.lemma_sort_by_ensures(entry_leq());
    vstd::seq_lib::lemma_sorted_unique(canon(es), es, entry_leq());
}

} // verus!

verus! {

/// Three-way byte-string comparison: negative when `a` sorts first, zero
/// when equal, positive when `b` sorts first.
fn bytes_cmp3(a: &Vec<u8>, b: &Vec<u8>) -> (r: i32)
    ensures
        r == 0 ==> a@ == b@,
        r < 0 ==> bytes_le(a@, b@) && a@ != b@,
        r > 0 ==> bytes_le(b@, a@) && b@ != a@,
{
    let mut i: usize = 0;
    while i < a.len() && i < b.len() && a[i] == b[i]
        invariant
            i <= a@.len(),
            i <= b@.len(),
            forall|k: int| 0 <= k < i ==> #[trigger] a@[k] == b@[k],
        decreases a@.len() - i,
    {
        i = i + 1;
    }
    proof {
        lemma_bytes_le_prefix(a@, b@, i as int);
        lemma_bytes_le_prefix(b@, a@, i as int);
        assert(forall|k: int| 0 <= k < i ==> #[trigger] b@[k] == a@[k]);
    }
    if i < a.len() && i < b.len() {
        if a[i] < b[i] {
            proof {
                assert(bytes_le_from(a@, b@, i as int));
                assert(!bytes_le_from(b@, a@, i as int));
                lemma_bytes_le_total(a@, b@, 0);
                if a@ == b@ {
                    assert(a@[i as int] == b@[i as int]);
                }
            }
            -1
        } else {
            proof {
                assert(bytes_le_from(b@, a@, i as int));
                assert(!bytes_le_from(a@, b@, i as int));
                lemma_bytes_le_total(b@, a@, 0);
                if a@ == b@ {
                    assert(a@[i as int] == b@[i as int]);
                }
            }
            1
        }
    } else if a.len() == b.len() {
        proof {
            assert(a@ =~= b@);
        }
        0
    } else if a.len() < b.len() {
        proof {
            assert(i == a@.len());
            assert(bytes_le_from(a@, b@, i as int));
        }
        -1
    } else {
        proof {
            assert(i == b@.len());
            assert(bytes_le_from(b@, a@, i as int));
            assert(!bytes_le_from(a@, b@, i as int));
        }
        1
    }
}

proof fn lemma_bytes_le_prefix(a: Seq<u8>, b: Seq<u8>, i: int)
    requires
        0 <= i <= a.len(),
        i <= b.len(),
        forall|k: int| 0 <= k < i ==> #[trigger] a[k] == b[k],
    ensures
        bytes_le_from(a, b, 0) == bytes_le_from(a, b, i),
    decreases i,
{
    if i > 0 {
        lemma_bytes_le_suffix_step(a, b, 0, i);
    }
}

proof fn lemma_bytes_le_suffix_step(a: Seq<u8>, b: Seq<u8>, j: int, i: int)
    requires
        0 <= j <= i <= a.len(),
        i <= b.len(),
        forall|k: int| j <= k < i ==> #[trigger] a[k] == b[k],
    ensures
        bytes_le_from(a, b, j) == bytes_le_from(a, b, i),
    decreases i - j,
{
    if j < i {
        lemma_bytes_le_suffix_step(a, b, j + 1, i);
    }
}

/// Whether `x` sorts at or before `y` in the canonical order.
fn entry_le_exec(x: &TreeEntry, y: &TreeEntry) -> (r: bool)
    ensures
        r == entry_le(x.deep_view(), y.deep_view()),
{
    let fx = x.mode.len() == 6 && x.mode[0] == 49 && x.mode[1] == 48;
    let fy = y.mode.len() == 6 && y.mode[0] == 49 && y.mode[1] == 48;
    let mut ax = x.name.clone();
    if !fx {
        ax.push(47);
    }
    let mut ay = y.name.clone();
    if !fy {
        ay.push(47);
    }
    proof {
        assert(ax@ == adjusted_name(x.deep_view()));
        assert(ay@ == adjusted_name(y.deep_view()));
    }
    let c = bytes_cmp3(&ax, &ay);
    if c != 0 {
        proof {
            if bytes_le(ax@, ay@) && bytes_le(ay@, ax@) {
                lemma_bytes_le_antisym(ax@, ay@, 0);
            }
        }
        return c < 0;
    }
    let cm = bytes_cmp3(&x.mode, &y.mode);
    if cm != 0 {
        proof {
            if bytes_le(x.mode@, y.mode@) && bytes_le(y.mode@, x.mode@) {
                lemma_bytes_le_antisym(x.mode@, y.mode@, 0);
            }
        }
        return cm < 0;
    }
    let cs = bytes_cmp3(&x.sha, &y.sha);
    proof {
        if cs == 0 {
            lemma_bytes_le_refl(x.sha@, 0);
        }
        if cs > 0 && bytes_le(x.sha@, y.sha@) {
            lemma_bytes_le_antisym(x.sha@, y.sha@, 0);
        }
    }
    cs <= 0
}

/// Sort the entries into the canonical order, in place.
fn sort_entries(v: &mut Vec<TreeEntry>)
    ensures
        final(v).deep_view() == canon(old(v).deep_view()),
        final(v).deep_view().to_multiset() == old(v).deep_view().to_multiset(),
{
    let ghost orig = old(v).deep_view();
    if v.len() <= 1 {
        proof {
            lemma_entry_le_order();
            assert(vstd::relations::sorted_by(orig, entry_leq()));
            lemma_canon_of_sorted(orig);
        }
        return ;
    }
    let mut i: usize = 1;
    while i < v.len()
        invariant
            1 <= i <= v@.len(),
            v.deep_view().to_multiset() == orig.to_multiset(),
            vstd::relations::sorted_by(v.deep_view().take(i as int), entry_leq()),
        decreases v@.len() - i,
    {
        let ghost pre = v.deep_view();
        let x = v.remove(i);
        let ghost xd = x.deep_view();
        let ghost mid = v.deep_view();
        proof {
            broadcast use vstd::multiset::group_multiset_axioms;

            assert(mid =~= pre.remove(i as int));
            assert(mid.take(i as int) =~= pre.take(i as int));
            vstd::seq_lib::to_multiset_remove(pre, i as int);
            vstd::seq_lib::to_multiset_contains(pre, pre[i as int]);
            assert(pre.contains(pre[i as int]));
            assert(pre.to_multiset() == mid.to_multiset().insert(xd)) by {
                assert(mid.to_multiset() == pre.to_multiset().remove(xd));
                assert(mid.to_multiset().insert(xd) =~= pre.to_multiset());
            }
        }
        let mut j: usize = i;
        while j > 0 && !entry_le_exec(&v[j - 1], &x)
            invariant
                j <= i,
                i < pre.len(),
                v.deep_view() == mid,
                mid.len() == pre.len() - 1,
                i <= mid.len(),
                x.deep_view() == xd,
                vstd::relations::sorted_by(mid.take(i as int), entry_leq()),
                forall|k: int| j <= k < i ==> entry_le(xd, #[trigger] mid[k]),
            decreases j,
        {
            proof {
                lemma_entry_le_order();
                let leq = entry_leq();
                assert(!entry_le(mid[j - 1], xd));
                assert(!leq(mid[j - 1], xd));
                assert(leq(xd, mid[j - 1]) || leq(mid[j - 1], xd));
                assert(entry_le(xd, mid[j - 1]));
            }
            j = j - 1;
        }
        v.insert(j, x);
        proof {
            broadcast use vstd::multiset::group_multiset_axioms;

            lemma_entry_le_order();
            let now = v.deep_view();
            assert(now =~= mid.insert(j as int, xd));
            vstd::seq_lib::to_multiset_insert(mid, j as int, xd);
            assert(now.to_multiset() == orig.to_multiset()) by {
                assert(mid.insert(j as int, xd).to_multiset() == mid.to_multiset().insert(xd));
            }
            let leq = entry_leq();
            assert forall|a: int, b: int| 0 <= a < b < i + 1 implies #[trigger] leq(
                now.take(i + 1)[a],
                now.take(i + 1)[b],
            ) by {
                let na = now.take(i + 1)[a];
                let nb = now.take(i + 1)[b];
                assert(na == now[a] && nb == now[b]);
                if a < j && b < j {
                    assert(now[a] == mid[a] && now[b] == mid[b]);
                    assert(leq(mid.take(i as int)[a], mid.take(i as int)[b]));
                } else if a < j && b == j {
                    assert(now[a] == mid[a] && now[b] == xd);
                    assert(leq(mid.take(i as int)[a], mid.take(i as int)[j - 1]));
                    assert(leq(mid[j - 1], xd));
                } else if a < j && b > j {
                    assert(now[a] == mid[a] && now[b] == mid[b - 1]);
                    assert(leq(mid.take(i as int)[a], mid.take(i as int)[b - 1]));
                } else if a == j {
                    assert(now[a] == xd && now[b] == mid[b - 1]);
                    assert(entry_le(xd, mid[b - 1]));
                } else {
                    assert(now[a] == mid[a - 1] && now[b] == mid[b - 1]);
                    assert(leq(mid.take(i as int)[a - 1], mid.take(i as int)[b - 1]));
                }
            }
            assert(vstd::relations::sorted_by(now.take(i + 1), leq));
        }
        i = i + 1;
    }
    proof {
        lemma_entry_le_order();
        let dv = v.deep_view();
        assert(dv.take(dv.len() as int) =~= dv);
        if dv.len() < 1 {
            assert(vstd::relations::sorted_by(dv, entry_leq()));
        }
        orig.lemma_sort_by_ensures(entry_leq());
        vstd::seq_lib::lemma_sorted_unique(dv, canon(orig), entry_leq());
    }
}

proof fn lemma_tree_bytes_push(es: Seq<TreeEntryV>, e: TreeEntryV)
    ensures
        tree_bytes(es.push(e)) == tree_bytes(es) + entry_bytes(e),
    decreases es.len(),
{
    if es.len() == 0 {
        assert(es.push(e).drop_first() =~= Seq::<TreeEntryV>::empty());
        assert(tree_bytes(Seq::<TreeEntryV>::empty()) =~= Seq::<u8>::empty());
        assert(es.push(e)[0] == e);
        assert(tree_bytes(es.push(e)) =~= tree_bytes(es) + entry_bytes(e));
    } else {
        assert(es.push(e).drop_first() =~= es.drop_first().push(e));
        lemma_tree_bytes_push(es.drop_first(), e);
        assert(es.push(e)[0] == es[0]);
        assert(tree_bytes(es.push(e)) =~= tree_bytes(es) + entry_bytes(e));
    }
}

/// Serialize a tree: sort the entries into the canonical order in place,
/// then emit each entry.  The result is the unique canonical encoding of
/// the entry multiset.
pub fn tree_serialize(list: &mut Vec<TreeEntry>) -> (r: Vec<u8>)
    requires
        wf_tree_entries(old(list).deep_view()),
    ensures
        final(list).deep_view() == canon(old(list).deep_view()),
        r@ == tree_bytes(canon(old(list).deep_view())),
{
    broadcast use vstd::seq_lib::group_to_multiset_ensures;

    sort_entries(list);
    proof {
        let orig = old(list).deep_view();
        let dv = list.deep_view();
        assert forall|k: int| 0 <= k < dv.len() implies wf_entry(#[trigger] dv[k]) by {
            assert(dv.to_multiset().contains(dv[k]));
            assert(orig.to_multiset().contains(dv[k]));
            assert(orig.contains(dv[k]));
            let t = choose|t: int| 0 <= t < orig.len() && orig[t] == dv[k];
            assert(wf_entry(orig[t]));
        }
    }
    let mut r: Vec<u8> = Vec::new();
    let mut i: usize = 0;
    while i < list.len()
        invariant
            i <= list@.len(),
            wf_tree_entries(list.deep_view()),
            r@ == tree_bytes(list.deep_view().take(i as int)),
        decreases list@.len() - i,
    {
        let ghost dv = list.deep_view();
        let ghost e = dv[i as int];
        let entry = &list[i];
        proof {
            assert(wf_entry(e));
        }
        let ghost before = r@;
        if entry.mode[0] == 0 {
            let mut k: usize = 1;
            while k < entry.mode.len()
                invariant
                    1 <= k <= entry.mode@.len(),
                    entry.mode@ == e.mode,
                    e.mode.len() == 6,
                    e.mode[0] == 0,
                    r@ == before + e.mode.subrange(1, k as int),
                decreases entry.mode@.len() - k,
            {
                r.push(entry.mode[k]);
                proof {
                    assert(before + e.mode.subrange(1, k + 1) =~= (before + e.mode.subrange(
                        1,
                        k as int,
                    )).push(e.mode[k as int]));
                }
                k = k + 1;
            }
            proof {
                assert(e.mode.subrange(1, 6) =~= e.mode.skip(1));
                assert(r@ == before + mode_emit(e.mode));
            }
        } else {
            let mut k: usize = 0;
            while k < entry.mode.len()
                invariant
                    k <= entry.mode@.len(),
                    entry.mode@ == e.mode,
                    r@ == before + e.mode.subrange(0, k as int),
                decreases entry.mode@.len() - k,
            {
                r.push(entry.mode[k]);
                proof {
                    assert(before + e.mode.subrange(0, k + 1) =~= (before + e.mode.subrange(
                        0,
                        k as int,
                    )).push(e.mode[k as int]));
                }
                k = k + 1;
            }
            proof {
                assert(e.mode.subrange(0, 6) =~= e.mode);
                assert(r@ == before + mode_emit(e.mode));
            }
        }
        r.push(32);
        let ghost with_mode = r@;
        let mut k: usize = 0;
        while k < entry.name.len()
            invariant
                k <= entry.name@.len(),
                entry.name@ == e.name,
                r@ == with_mode + e.name.subrange(0, k as int),
            decreases entry.name@.len() - k,
        {
            r.push(entry.name[k]);
            proof {
                assert(with_mode + e.name.subrange(0, k + 1) =~= (with_mode + e.name.subrange(
                    0,
                    k as int,
                )).push(e.name[k as int]));
            }
            k = k + 1;
        }
        r.push(0);
        let raw = crate::hexnum::hex_decode(&entry.sha);
        let mut k: usize = 0;
        let ghost with_name = r@;
        while k < raw.len()
            invariant
                k <= raw@.len(),
                raw@ == raw_of_hex(e.sha),
                r@ == with_name + raw@.subrange(0, k as int),
            decreases raw@.len() - k,
        {
            r.push(raw[k]);
            proof {
                assert(with_name + raw@.subrange(0, k + 1) =~= (with_name + raw@.subrange(
                    0,
                    k as int,
                )).push(raw@[k as int]));
            }
            k = k + 1;
        }
        proof {
            assert(e.name.subrange(0, e.name.len() as int) =~= e.name);
            assert(raw@.subrange(0, raw@.len() as int) =~= raw@);
            assert(r@ =~= before + entry_bytes(e)) by {
                assert(with_mode == before + mode_emit(e.mode) + seq![32u8]);
                assert(with_name == with_mode + e.name + seq![0u8]);
                assert(r@ == with_name + raw_of_hex(e.sha));
            }
            assert(dv.take(i + 1) =~= dv.take(i as int).push(e));
            lemma_tree_bytes_push(dv.take(i as int), e);
        }
        i = i + 1;
    }
    proof {
        assert(list.deep_view().take(list@.len() as int) =~= list.deep_view());
    }
    r
}

} // verus!
