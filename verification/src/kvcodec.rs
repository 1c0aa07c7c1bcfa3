//! The key-value-with-message payload codec used by commits.  The payload
//! splits at the first blank line into a header block and a message body.
//! Header lines read `key SPACE value`; a newline followed by a space is a
//! folded continuation of the previous value; repeated keys extend that
//! key's ordered value list; the message is recorded last under the
//! reserved key and is always emitted last, after one blank line.

use vstd::prelude::*;

use crate::OzError;
use crate::objects::{KvPair, KvPairV, msg_key, wf_key, wf_kv};
use crate::textenc::{is_utf8, is_utf8_from, lemma_ascii_utf8_from, lemma_utf8_concat,
    lemma_utf8_step_shift, utf8_check, utf8_step};
use crate::treecodec::copy_range;

verus! {

/// A value as emitted inside a header line: every newline gains a
/// following space, marking the continuation.
pub open spec fn fold_val(v: Seq<u8>) -> Seq<u8>
    decreases v.len(),
{
    if v.len() == 0 {
        Seq::empty()
    } else if v[0] == 10 {
        seq![10u8, 32u8] + fold_val(v.drop_first())
    } else {
        seq![v[0]] + fold_val(v.drop_first())
    }
}

/// The inverse folding: a space directly after a newline is dropped.
pub open spec fn unfold_val(v: Seq<u8>) -> Seq<u8>
    decreases v.len(),
{
    if v.len() == 0 {
        Seq::empty()
    } else if v[0] == 10 && v.len() >= 2 && v[1] == 32 {
        seq![10u8] + unfold_val(v.skip(2))
    } else {
        seq![v[0]] + unfold_val(v.drop_first())
    }
}

/// One emitted header line.
pub open spec fn value_line(k: Seq<u8>, v: Seq<u8>) -> Seq<u8> {
    k + seq![32u8] + fold_val(v) + seq![10u8]
}

/// The lines of one header pair: one line per value, in order.
pub open spec fn pair_lines(k: Seq<u8>, vs: Seq<Seq<u8>>) -> Seq<u8>
    decreases vs.len(),
{
    if vs.len() == 0 {
        Seq::empty()
    } else {
        value_line(k, vs[0]) + pair_lines(k, vs.drop_first())
    }
}

/// The header block: the lines of every pair except the reserved message
/// pair, in recorded order.
pub open spec fn header_bytes(ps: Seq<KvPairV>) -> Seq<u8>
    decreases ps.len(),
{
    if ps.len() == 0 {
        Seq::empty()
    } else {
        (if ps[0].key == msg_key() {
            Seq::empty()
        } else {
            pair_lines(ps[0].key, ps[0].values)
        }) + header_bytes(ps.drop_first())
    }
}

/// The first index of the pair holding key `k`, or -1.
pub open spec fn find_key(ps: Seq<KvPairV>, k: Seq<u8>) -> int
    decreases ps.len(),
{
    if ps.len() == 0 {
        -1
    } else if ps[0].key == k {
        0
    } else {
        let r = find_key(ps.drop_first(), k);
        if r < 0 {
            -1
        } else {
            r + 1
        }
    }
}

/// The message body recorded under the reserved key, if any.
pub open spec fn msg_of(ps: Seq<KvPairV>) -> Seq<u8> {
    let i = find_key(ps, msg_key());
    if i >= 0 && ps[i].values.len() > 0 {
        ps[i].values[0]
    } else {
        Seq::empty()
    }
}

/// The full encoded payload: header block, one blank line, message body.
pub open spec fn kv_bytes(ps: Seq<KvPairV>) -> Seq<u8> {
    header_bytes(ps) + seq![10u8] + msg_of(ps)
}

/// Record one parsed value: append to the key's pair, or open a new pair.
pub open spec fn add_value(ps: Seq<KvPairV>, k: Seq<u8>, v: Seq<u8>) -> Seq<KvPairV> {
    let i = find_key(ps, k);
    if i < 0 {
        ps.push(KvPairV { key: k, values: seq![v] })
    } else {
        ps.update(i, KvPairV { key: k, values: ps[i].values.push(v) })
    }
}

/// Set a key to a value list outright, keeping its position if present.
pub open spec fn put_pair(ps: Seq<KvPairV>, k: Seq<u8>, vs: Seq<Seq<u8>>) -> Seq<KvPairV> {
    let i = find_key(ps, k);
    if i < 0 {
        ps.push(KvPairV { key: k, values: vs })
    } else {
        ps.update(i, KvPairV { key: k, values: vs })
    }
}

/// The first index of a blank line (two adjacent newlines), or -1.
pub open spec fn find_blank(d: Seq<u8>, from: int) -> int
    decreases d.len() - from,
{
    if from < 0 || from + 1 >= d.len() {
        -1
    } else if d[from] == 10 && d[from + 1] == 10 {
        from
    } else {
        find_blank(d, from + 1)
    }
}

/// The end of the logical line starting at or after `from`: the first
/// newline not followed by a continuation space, or -1.
pub open spec fn find_line_end(h: Seq<u8>, from: int) -> int
    decreases h.len() - from,
{
    if from < 0 || from >= h.len() {
        -1
    } else if h[from] == 10 && (from + 1 == h.len() || h[from + 1] != 32) {
        from
    } else {
        find_line_end(h, from + 1)
    }
}

/// The key/value separator of the line starting at `start`: the first
/// space not directly preceded by a newline, or -1.
pub open spec fn find_split(h: Seq<u8>, start: int, from: int) -> int
    decreases h.len() - from,
{
    if from < 0 || from >= h.len() {
        -1
    } else if h[from] == 32 && (from == start || h[from - 1] != 10) {
        from
    } else {
        find_split(h, start, from + 1)
    }
}

/// The meaning of the header block from index `i` on, folding each line
/// into the accumulated pairs.
pub open spec fn kv_lines(h: Seq<u8>, i: int, acc: Seq<KvPairV>) -> Result<Seq<KvPairV>, OzError>
    decreases h.len() - i,
{
    if i < 0 || i >= h.len() {
        Ok(acc)
    } else {
        let e = find_line_end(h, i);
        if e < i || e >= h.len() {
            Err(OzError::MalformedCommit)
        } else {
            let sp = find_split(h, i, i);
            if sp < 0 || sp > e {
                Err(OzError::MalformedCommit)
            } else {
                kv_lines(
                    h,
                    e + 1,
                    add_value(acc, h.subrange(i, sp), unfold_val(h.subrange(sp + 1, e))),
                )
            }
        }
    }
}

/// The meaning of a commit or tag payload: the header pairs in recorded
/// order with the message recorded last under the reserved key, or the
/// structural error.
pub open spec fn kv_parse_spec(data: Seq<u8>) -> Result<Seq<KvPairV>, OzError> {
    if !is_utf8(data) {
        Err(OzError::MalformedCommit)
    } else {
        kv_parse_utf8(data)
    }
}

/// The meaning of a payload already known to be text.
pub open spec fn kv_parse_utf8(data: Seq<u8>) -> Result<Seq<KvPairV>, OzError> {
    let j = find_blank(data, 0);
    if j < 0 {
        Err(OzError::MalformedCommit)
    } else {
        match kv_lines(data.subrange(0, j + 1), 0, Seq::empty()) {
            Ok(ps) => Ok(
                put_pair(ps, msg_key(), seq![data.subrange(j + 2, data.len() as int)]),
            ),
            Err(e) => Err(e),
        }
    }
}

/// The only malformation the header parser reports.
proof fn lemma_kv_lines_err(h: Seq<u8>, i: int, acc: Seq<KvPairV>)
    requires
        kv_lines(h, i, acc) is Err,
    ensures
        kv_lines(h, i, acc)->Err_0 == OzError::MalformedCommit,
    decreases h.len() - i,
{
    if 0 <= i < h.len() {
        let e = find_line_end(h, i);
        if i <= e < h.len() {
            let sp = find_split(h, i, i);
            if sp >= 0 && sp <= e {
                lemma_kv_lines_err(
                    h,
                    e + 1,
                    add_value(acc, h.subrange(i, sp), unfold_val(h.subrange(sp + 1, e))),
                );
            }
        }
    }
}

/// The only malformation a commit or tag payload reports.
pub proof fn lemma_kv_parse_err(data: Seq<u8>)
    requires
        kv_parse_spec(data) is Err,
    ensures
        kv_parse_spec(data)->Err_0 == OzError::MalformedCommit,
{
    if is_utf8(data) {
        let j = find_blank(data, 0);
        if j >= 0 && kv_lines(data.subrange(0, j + 1), 0, Seq::empty()) is Err {
            lemma_kv_lines_err(data.subrange(0, j + 1), 0, Seq::empty());
        }
    }
}

pub proof fn lemma_find_blank_exact(d: Seq<u8>, from: int, k: int)
    requires
        0 <= from <= k,
        k + 1 < d.len(),
        d[k] == 10 && d[k + 1] == 10,
        forall|j: int| from <= j < k ==> !(#[trigger] d[j] == 10 && d[j + 1] == 10),
    ensures
        find_blank(d, from) == k,
    decreases k - from,
{
    if from < k {
        lemma_find_blank_exact(d, from + 1, k);
    }
}

pub proof fn lemma_find_blank_none(d: Seq<u8>, from: int)
    requires
        0 <= from,
        forall|j: int| from <= j < d.len() - 1 ==> !(#[trigger] d[j] == 10 && d[j + 1] == 10),
    ensures
        find_blank(d, from) == -1,
    decreases d.len() - from,
{
    if from + 1 < d.len() {
        lemma_find_blank_none(d, from + 1);
    }
}

proof fn lemma_find_line_end_exact(h: Seq<u8>, from: int, k: int)
    requires
        0 <= from <= k < h.len(),
        h[k] == 10 && (k + 1 == h.len() || h[k + 1] != 32),
        forall|j: int| from <= j < k ==> !(#[trigger] h[j] == 10 && (j + 1 == h.len() || h[j + 1] != 32)),
    ensures
        find_line_end(h, from) == k,
    decreases k - from,
{
    if from < k {
        lemma_find_line_end_exact(h, from + 1, k);
    }
}

proof fn lemma_find_line_end_none(h: Seq<u8>, from: int)
    requires
        0 <= from,
        forall|j: int| from <= j < h.len() ==> !(#[trigger] h[j] == 10 && (j + 1 == h.len() || h[j + 1] != 32)),
    ensures
        find_line_end(h, from) == -1,
    decreases h.len() - from,
{
    if from < h.len() {
        lemma_find_line_end_none(h, from + 1);
    }
}

proof fn lemma_find_split_exact(h: Seq<u8>, start: int, from: int, k: int)
    requires
        0 <= start <= from <= k < h.len(),
        h[k] == 32 && (k == start || h[k - 1] != 10),
        forall|j: int| from <= j < k ==> !(#[trigger] h[j] == 32 && (j == start || h[j - 1] != 10)),
    ensures
        find_split(h, start, from) == k,
    decreases k - from,
{
    if from < k {
        lemma_find_split_exact(h, start, from + 1, k);
    }
}

proof fn lemma_find_split_none(h: Seq<u8>, start: int, from: int)
    requires
        0 <= start <= from,
        forall|j: int| from <= j < h.len() ==> !(#[trigger] h[j] == 32 && (j == start || h[j - 1] != 10)),
    ensures
        find_split(h, start, from) == -1,
    decreases h.len() - from,
{
    if from < h.len() {
        lemma_find_split_none(h, start, from + 1);
    }
}

pub proof fn lemma_find_key_props(ps: Seq<KvPairV>, k: Seq<u8>)
    ensures
        find_key(ps, k) >= 0 ==> find_key(ps, k) < ps.len() && ps[find_key(ps, k)].key == k
            && forall|j: int| 0 <= j < find_key(ps, k) ==> (#[trigger] ps[j].key) != k,
        find_key(ps, k) < 0 ==> forall|j: int| 0 <= j < ps.len() ==> (#[trigger] ps[j].key) != k,
    decreases ps.len(),
{
    if ps.len() > 0 && ps[0].key != k {
        lemma_find_key_props(ps.drop_first(), k);
        assert(forall|j: int| 0 <= j < ps.drop_first().len() ==> ps.drop_first()[j] == ps[j + 1]);
        let r = find_key(ps.drop_first(), k);
        if r >= 0 {
            assert forall|j: int| 0 <= j < r + 1 implies (#[trigger] ps[j].key) != k by {
                if j > 0 {
                    assert(ps.drop_first()[j - 1].key != k);
                }
            }
        } else {
            assert forall|j: int| 0 <= j < ps.len() implies (#[trigger] ps[j].key) != k by {
                if j > 0 {
                    assert(ps.drop_first()[j - 1].key != k);
                }
            }
        }
    }
}

pub proof fn lemma_find_key_exact(ps: Seq<KvPairV>, k: Seq<u8>, t: int)
    requires
        0 <= t < ps.len(),
        ps[t].key == k,
        forall|j: int| 0 <= j < t ==> (#[trigger] ps[j].key) != k,
    ensures
        find_key(ps, k) == t,
{
    lemma_find_key_props(ps, k);
    let r = find_key(ps, k);
    if r < 0 {
        assert(ps[t].key != k);
    } else if r < t {
        assert(ps[r].key != k);
    } else if r > t {
        assert(ps[t].key != k);
    }
}

} // verus!

verus! {

/// Find the first blank line at or after `from`.
fn find_blank_from(data: &Vec<u8>, from: usize) -> (r: Option<usize>)
    requires
        from <= data@.len(),
    ensures
        match r {
            Some(k) => from <= k && k + 1 < data@.len() && find_blank(data@, from as int) == k,
            None => find_blank(data@, from as int) == -1,
        },
{
    let n = data.len();
    if n < 2 {
        proof {
            lemma_find_blank_none(data@, from as int);
        }
        return None;
    }
    let mut i = from;
    while i < n - 1
        invariant
            from <= i,
            i <= data@.len(),
            n == data@.len(),
            2 <= n,
            forall|j: int| from <= j < i ==> !(#[trigger] data@[j] == 10 && data@[j + 1] == 10),
        decreases data@.len() - i,
    {
        if data[i] == 10 && data[i + 1] == 10 {
            proof {
                lemma_find_blank_exact(data@, from as int, i as int);
            }
            return Some(i);
        }
        i = i + 1;
    }
    proof {
        lemma_find_blank_none(data@, from as int);
    }
    None
}

/// Find the end of the logical line starting at or after `from`.
fn find_line_end_from(h: &Vec<u8>, from: usize) -> (r: Option<usize>)
    requires
        from <= h@.len(),
    ensures
        match r {
            Some(k) => from <= k < h@.len() && find_line_end(h@, from as int) == k && h@[
                k as int
            ] == 10,
            None => find_line_end(h@, from as int) == -1,
        },
{
    let mut i = from;
    while i < h.len()
        invariant
            from <= i <= h@.len(),
            forall|j: int|
                from <= j < i ==> !(#[trigger] h@[j] == 10 && (j + 1 == h@.len() || h@[j + 1]
                    != 32)),
        decreases h@.len() - i,
    {
        if h[i] == 10 && (i + 1 == h.len() || h[i + 1] != 32) {
            proof {
                lemma_find_line_end_exact(h@, from as int, i as int);
            }
            return Some(i);
        }
        i = i + 1;
    }
    proof {
        lemma_find_line_end_none(h@, from as int);
    }
    None
}

/// Find the key/value separator of the line starting at `start`.
fn find_split_from(h: &Vec<u8>, start: usize) -> (r: Option<usize>)
    requires
        start <= h@.len(),
    ensures
        match r {
            Some(k) => start <= k < h@.len() && find_split(h@, start as int, start as int) == k
                && h@[k as int] == 32,
            None => find_split(h@, start as int, start as int) == -1,
        },
{
    let mut i = start;
    while i < h.len()
        invariant
            start <= i <= h@.len(),
            forall|j: int|
                start <= j < i ==> !(#[trigger] h@[j] == 32 && (j == start || h@[j - 1] != 10)),
        decreases h@.len() - i,
    {
        if h[i] == 32 && (i == start || h[i - 1] != 10) {
            proof {
                lemma_find_split_exact(h@, start as int, start as int, i as int);
            }
            return Some(i);
        }
        i = i + 1;
    }
    proof {
        lemma_find_split_none(h@, start as int, start as int);
    }
    None
}

/// Drop the continuation space after each newline.
fn unfold_exec(v: &Vec<u8>) -> (r: Vec<u8>)
    ensures
        r@ == unfold_val(v@),
{
    let mut r: Vec<u8> = Vec::new();
    let mut t: usize = 0;
    proof {
        assert(v@.skip(0) =~= v@);
        assert(r@ + unfold_val(v@.skip(0)) =~= unfold_val(v@));
    }
    while t < v.len()
        invariant
            t <= v@.len(),
            r@ + unfold_val(v@.skip(t as int)) == unfold_val(v@),
        decreases v@.len() - t,
    {
        let ghost s = v@.skip(t as int);
        let ghost before = r@;
        if v[t] == 10 && t + 1 < v.len() && v[t + 1] == 32 {
            r.push(10);
            proof {
                assert(s[0] == 10 && s.len() >= 2 && s[1] == 32);
                assert(s.skip(2) =~= v@.skip(t + 2));
                assert(unfold_val(s) == seq![10u8] + unfold_val(v@.skip(t + 2)));
                assert(r@ + unfold_val(v@.skip(t + 2)) =~= before + unfold_val(s));
            }
            t = t + 2;
        } else {
            r.push(v[t]);
            proof {
                assert(s[0] == v@[t as int]);
                if s[0] == 10 && s.len() >= 2 && s[1] == 32 {
                    assert(false);
                }
                assert(s.drop_first() =~= v@.skip(t + 1));
                assert(unfold_val(s) == seq![v@[t as int]] + unfold_val(v@.skip(t + 1)));
                assert(r@ + unfold_val(v@.skip(t + 1)) =~= before + unfold_val(s));
            }
            t = t + 1;
        }
    }
    proof {
        assert(v@.skip(v@.len() as int) =~= Seq::<u8>::empty());
        assert(unfold_val(Seq::<u8>::empty()) =~= Seq::<u8>::empty());
        assert(r@ + Seq::<u8>::empty() =~= r@);
    }
    r
}

proof fn lemma_fold_push(v: Seq<u8>, b: u8)
    ensures
        fold_val(v.push(b)) == fold_val(v) + (if b == 10 {
            seq![10u8, 32u8]
        } else {
            seq![b]
        }),
    decreases v.len(),
{
    let tailbit: Seq<u8> = if b == 10 {
        seq![10u8, 32u8]
    } else {
        seq![b]
    };
    if v.len() == 0 {
        assert(v.push(b).drop_first() =~= Seq::<u8>::empty());
        assert(fold_val(Seq::<u8>::empty()) =~= Seq::<u8>::empty());
        assert(v.push(b)[0] == b);
        assert(fold_val(v.push(b)) =~= fold_val(v) + tailbit);
    } else {
        assert(v.push(b).drop_first() =~= v.drop_first().push(b));
        lemma_fold_push(v.drop_first(), b);
        assert(v.push(b)[0] == v[0]);
        assert(fold_val(v.push(b)) =~= fold_val(v) + tailbit);
    }
}

/// Emit a value with each newline marked as a continuation.
fn fold_exec(v: &Vec<u8>) -> (r: Vec<u8>)
    ensures
        r@ == fold_val(v@),
{
    let mut r: Vec<u8> = Vec::new();
    let mut t: usize = 0;
    proof {
        assert(r@ =~= fold_val(v@.take(0)));
    }
    while t < v.len()
        invariant
            t <= v@.len(),
            r@ == fold_val(v@.take(t as int)),
        decreases v@.len() - t,
    {
        let b = v[t];
        r.push(b);
        if b == 10 {
            r.push(32);
        }
        proof {
            assert(v@.take(t + 1) =~= v@.take(t as int).push(b));
            lemma_fold_push(v@.take(t as int), b);
        }
        t = t + 1;
    }
    proof {
        assert(v@.take(v@.len() as int) =~= v@);
    }
    r
}

/// Whether two byte vectors hold the same bytes.
pub fn bytes_eq(a: &Vec<u8>, b: &Vec<u8>) -> (r: bool)
    ensures
        r <==> a@ == b@,
{
    if a.len() != b.len() {
        return false;
    }
    let mut i: usize = 0;
    while i < a.len()
        invariant
            i <= a@.len(),
            a@.len() == b@.len(),
            forall|j: int| 0 <= j < i ==> #[trigger] a@[j] == b@[j],
        decreases a@.len() - i,
    {
        if a[i] != b[i] {
            return false;
        }
        i = i + 1;
    }
    proof {
        assert(a@ =~= b@);
    }
    true
}

/// Find the pair holding key `k`, if any.
pub(crate) fn find_pair(acc: &Vec<KvPair>, k: &Vec<u8>) -> (r: Option<usize>)
    ensures
        match r {
            Some(t) => t < acc@.len() && find_key(acc.deep_view(), k@) == t,
            None => find_key(acc.deep_view(), k@) == -1,
        },
{
    let ghost ps = acc.deep_view();
    let mut i: usize = 0;
    while i < acc.len()
        invariant
            i <= acc@.len(),
            ps == acc.deep_view(),
            forall|j: int| 0 <= j < i ==> (#[trigger] ps[j].key) != k@,
        decreases acc@.len() - i,
    {
        if bytes_eq(&acc[i].key, k) {
            proof {
                assert(ps[i as int].key == k@);
                lemma_find_key_exact(ps, k@, i as int);
            }
            return Some(i);
        }
        proof {
            assert(ps[i as int].key != k@);
        }
        i = i + 1;
    }
    proof {
        lemma_find_key_props(ps, k@);
        if find_key(ps, k@) >= 0 {
            assert(ps[find_key(ps, k@)].key == k@);
        }
    }
    None
}

/// Record one parsed value under its key.
fn add_value_exec(acc: &mut Vec<KvPair>, k: Vec<u8>, v: Vec<u8>)
    ensures
        final(acc).deep_view() == add_value(old(acc).deep_view(), k@, v@),
{
    let ghost ps = acc.deep_view();
    match find_pair(acc, &k) {
        Some(t) => {
            proof {
                lemma_find_key_props(ps, k@);
                assert(ps[t as int].key == k@);
            }
            let mut pair = acc.remove(t);
            let ghost oldpair = ps[t as int];
            pair.values.push(v);
            proof {
                assert(pair.values.deep_view() =~~= oldpair.values.push(v@));
                assert(pair.deep_view() =~= KvPairV {
                    key: oldpair.key,
                    values: oldpair.values.push(v@),
                });
            }
            acc.insert(t, pair);
            proof {
                assert(acc.deep_view() =~= ps.update(
                    t as int,
                    KvPairV { key: oldpair.key, values: oldpair.values.push(v@) },
                ));
            }
        },
        None => {
            let mut values: Vec<Vec<u8>> = Vec::new();
            values.push(v);
            let pair = KvPair { key: k, values };
            proof {
                assert(pair.values@ =~= seq![v]);
                assert(pair.values.deep_view() =~~= seq![v@]);
            }
            acc.push(pair);
            proof {
                assert(pair.deep_view() =~= KvPairV { key: pair.key@, values: seq![v@] });
                assert(acc.deep_view() =~= ps.push(pair.deep_view()));
            }
        },
    }
}

/// Set a key to a value list outright.
fn put_pair_exec(acc: &mut Vec<KvPair>, k: Vec<u8>, vs: Vec<Vec<u8>>)
    ensures
        final(acc).deep_view() == put_pair(old(acc).deep_view(), k@, vs.deep_view()),
{
    let ghost ps = acc.deep_view();
    let ghost vsd = vs.deep_view();
    match find_pair(acc, &k) {
        Some(t) => {
            proof {
                lemma_find_key_props(ps, k@);
                assert(ps[t as int].key == k@);
            }
            let mut pair = acc.remove(t);
            let ghost oldpair = ps[t as int];
            pair.values = vs;
            proof {
                assert(pair.deep_view() =~= KvPairV { key: oldpair.key, values: vsd });
            }
            acc.insert(t, pair);
            proof {
                assert(acc.deep_view() =~= ps.update(
                    t as int,
                    KvPairV { key: oldpair.key, values: vsd },
                ));
            }
        },
        None => {
            let pair = KvPair { key: k, values: vs };
            acc.push(pair);
            proof {
                assert(pair.deep_view() =~= KvPairV { key: pair.key@, values: vsd });
                assert(acc.deep_view() =~= ps.push(pair.deep_view()));
            }
        },
    }
}

/// Decode a commit or tag payload into its ordered header pairs and its
/// message body, recorded last under the reserved key.
pub fn kv_parser(data: &Vec<u8>) -> (r: Result<Vec<KvPair>, OzError>)
    ensures
        match r {
            Ok(ps) => kv_parse_spec(data@) == Ok::<Seq<KvPairV>, OzError>(ps.deep_view()),
            Err(e) => kv_parse_spec(data@) == Err::<Seq<KvPairV>, OzError>(e),
        },
{
    if !utf8_check(data) {
        return Err(OzError::MalformedCommit);
    }
    let j = match find_blank_from(data, 0) {
        Some(j) => j,
        None => {
            return Err(OzError::MalformedCommit);
        },
    };
    let n = data.len();
    proof {
        assert(j + 1 < n);
    }
    let h = copy_range(data, 0, j + 1);
    let mut pairs: Vec<KvPair> = Vec::new();
    let mut pos: usize = 0;
    proof {
        assert(pairs.deep_view() =~= Seq::<KvPairV>::empty());
    }
    while pos < h.len()
        invariant
            pos <= h@.len(),
            h@ == data@.subrange(0, j + 1),
            j + 1 < data@.len(),
            is_utf8(data@),
            find_blank(data@, 0) == j,
            kv_lines(h@, 0, Seq::empty()) == kv_lines(h@, pos as int, pairs.deep_view()),
        decreases h@.len() - pos,
    {
        let ghost acc = pairs.deep_view();
        let e = match find_line_end_from(&h, pos) {
            Some(e) => e,
            None => {
                return Err(OzError::MalformedCommit);
            },
        };
        let sp = match find_split_from(&h, pos) {
            Some(sp) => sp,
            None => {
                return Err(OzError::MalformedCommit);
            },
        };
        if sp > e {
            return Err(OzError::MalformedCommit);
        }
        proof {
            assert(sp < e);
        }
        let key = copy_range(&h, pos, sp);
        let raw = copy_range(&h, sp + 1, e);
        let val = unfold_exec(&raw);
        let ghost oldpos = pos as int;
        add_value_exec(&mut pairs, key, val);
        pos = e + 1;
        proof {
            assert(kv_lines(h@, oldpos, acc) == kv_lines(
                h@,
                e + 1,
                add_value(acc, h@.subrange(oldpos, sp as int), unfold_val(
                    h@.subrange(sp + 1, e as int),
                )),
            ));
            assert(pairs.deep_view() == add_value(acc, h@.subrange(oldpos, sp as int), unfold_val(
                h@.subrange(sp + 1, e as int),
            )));
        }
    }
    let msg = copy_range(data, j + 2, n);
    let mut mk: Vec<u8> = Vec::new();
    mk.push(0u8);
    let mut msgs: Vec<Vec<u8>> = Vec::new();
    msgs.push(msg);
    let ghost before_put = pairs.deep_view();
    put_pair_exec(&mut pairs, mk, msgs);
    proof {
        assert(msgs.deep_view() =~~= seq![data@.subrange(j + 2, data@.len() as int)]);
        assert(kv_lines(h@, 0, Seq::empty()) == Ok::<Seq<KvPairV>, OzError>(before_put));
    }
    Ok(pairs)
}

} // verus!

verus! {

/// Append all of `src` to `dst`.
pub(crate) fn append_range(dst: &mut Vec<u8>, src: &Vec<u8>)
    ensures
        final(dst)@ == old(dst)@ + src@,
{
    let ghost before = dst@;
    let mut i: usize = 0;
    proof {
        assert(before + src@.take(0) =~= before);
    }
    while i < src.len()
        invariant
            i <= src@.len(),
            dst@ == before + src@.take(i as int),
        decreases src@.len() - i,
    {
        dst.push(src[i]);
        proof {
            assert(before + src@.take(i + 1) =~= (before + src@.take(i as int)).push(
                src@[i as int],
            ));
        }
        i = i + 1;
    }
    proof {
        assert(src@.take(src@.len() as int) =~= src@);
    }
}

proof fn lemma_pair_lines_push(k: Seq<u8>, vs: Seq<Seq<u8>>, v: Seq<u8>)
    ensures
        pair_lines(k, vs.push(v)) == pair_lines(k, vs) + value_line(k, v),
    decreases vs.len(),
{
    if vs.len() == 0 {
        assert(vs.push(v).drop_first() =~= Seq::<Seq<u8>>::empty());
        assert(pair_lines(k, Seq::<Seq<u8>>::empty()) =~= Seq::<u8>::empty());
        assert(vs.push(v)[0] == v);
        assert(pair_lines(k, vs.push(v)) =~= pair_lines(k, vs) + value_line(k, v));
    } else {
        assert(vs.push(v).drop_first() =~= vs.drop_first().push(v));
        lemma_pair_lines_push(k, vs.drop_first(), v);
        assert(vs.push(v)[0] == vs[0]);
        assert(pair_lines(k, vs.push(v)) =~= pair_lines(k, vs) + value_line(k, v));
    }
}

proof fn lemma_header_bytes_push(ps: Seq<KvPairV>, q: KvPairV)
    ensures
        header_bytes(ps.push(q)) == header_bytes(ps) + (if q.key == msg_key() {
            Seq::<u8>::empty()
        } else {
            pair_lines(q.key, q.values)
        }),
    decreases ps.len(),
{
    let tailbit: Seq<u8> = if q.key == msg_key() {
        Seq::<u8>::empty()
    } else {
        pair_lines(q.key, q.values)
    };
    if ps.len() == 0 {
        assert(ps.push(q).drop_first() =~= Seq::<KvPairV>::empty());
        assert(header_bytes(Seq::<KvPairV>::empty()) =~= Seq::<u8>::empty());
        assert(ps.push(q)[0] == q);
        assert(header_bytes(ps.push(q)) =~= header_bytes(ps) + tailbit);
    } else {
        assert(ps.push(q).drop_first() =~= ps.drop_first().push(q));
        lemma_header_bytes_push(ps.drop_first(), q);
        assert(ps.push(q)[0] == ps[0]);
        assert(header_bytes(ps.push(q)) =~= header_bytes(ps) + tailbit);
    }
}

/// Encode header pairs and message: for every pair but the reserved
/// message pair, one line per value in recorded order with newlines
/// folded, then one blank line, then the message body.
pub fn kv_serialize(map: &Vec<KvPair>) -> (r: Vec<u8>)
    requires
        find_key(map.deep_view(), msg_key()) >= 0 ==> map.deep_view()[find_key(
            map.deep_view(),
            msg_key(),
        )].values.len() >= 1,
    ensures
        r@ == kv_bytes(map.deep_view()),
{
    let ghost dv = map.deep_view();
    let mut r: Vec<u8> = Vec::new();
    let mut p: usize = 0;
    proof {
        assert(r@ =~= header_bytes(dv.take(0)));
    }
    while p < map.len()
        invariant
            p <= map@.len(),
            dv == map.deep_view(),
            r@ == header_bytes(dv.take(p as int)),
        decreases map@.len() - p,
    {
        let ghost q = dv[p as int];
        let pair = &map[p];
        let is_msg = pair.key.len() == 1 && pair.key[0] == 0;
        proof {
            if is_msg {
                assert(q.key =~= msg_key());
            } else {
                assert(q.key != msg_key());
            }
        }
        let ghost before = r@;
        if !is_msg {
            let mut v: usize = 0;
            proof {
                assert(before + pair_lines(q.key, q.values.take(0)) =~= before);
            }
            while v < pair.values.len()
                invariant
                    v <= pair.values@.len(),
                    pair == &map[p as int],
                    p < map@.len(),
                    dv == map.deep_view(),
                    q == dv[p as int],
                    r@ == before + pair_lines(q.key, q.values.take(v as int)),
                decreases pair.values@.len() - v,
            {
                let ghost rv = r@;
                append_range(&mut r, &pair.key);
                r.push(32);
                let folded = fold_exec(&pair.values[v]);
                append_range(&mut r, &folded);
                r.push(10);
                proof {
                    assert(q.values[v as int] == pair.values@[v as int].deep_view());
                    assert(pair.values@[v as int].deep_view() =~= pair.values@[v as int]@);
                    assert(r@ =~= rv + value_line(q.key, q.values[v as int]));
                    assert(q.values.take(v + 1) =~= q.values.take(v as int).push(
                        q.values[v as int],
                    ));
                    lemma_pair_lines_push(q.key, q.values.take(v as int), q.values[v as int]);
                }
                v = v + 1;
            }
            proof {
                assert(q.values.take(q.values.len() as int) =~= q.values);
            }
        }
        proof {
            assert(dv.take(p + 1) =~= dv.take(p as int).push(q));
            lemma_header_bytes_push(dv.take(p as int), q);
        }
        p = p + 1;
    }
    proof {
        assert(dv.take(dv.len() as int) =~= dv);
    }
    r.push(10);
    let ghost with_blank = r@;
    let mut mk: Vec<u8> = Vec::new();
    mk.push(0u8);
    proof {
        assert(mk@ =~= msg_key());
    }
    match find_pair(map, &mk) {
        Some(t) => {
            proof {
                lemma_find_key_props(dv, msg_key());
                assert(dv[t as int].values.len() >= 1);
                assert(dv[t as int].values[0] == map@[t as int].values@[0].deep_view());
                assert(map@[t as int].values@[0].deep_view() =~= map@[t as int].values@[0]@);
            }
            append_range(&mut r, &map[t].values[0]);
            proof {
                assert(r@ =~= kv_bytes(dv));
            }
        },
        None => {
            proof {
                assert(msg_of(dv) =~= Seq::<u8>::empty());
                assert(r@ =~= kv_bytes(dv));
            }
        },
    }
    r
}

} // verus!

verus! {

proof fn lemma_fold_shape(v: Seq<u8>)
    ensures
        forall|t: int|
            0 <= t < fold_val(v).len() && #[trigger] fold_val(v)[t] == 10 ==> t + 1 < fold_val(
                v,
            ).len() && fold_val(v)[t + 1] == 32,
    decreases v.len(),
{
    if v.len() > 0 {
        lemma_fold_shape(v.drop_first());
        let f = fold_val(v);
        let f2 = fold_val(v.drop_first());
        if v[0] == 10 {
            assert forall|t: int| 0 <= t < f.len() && #[trigger] f[t] == 10 implies t + 1 < f.len()
                && f[t + 1] == 32 by {
                if t >= 2 {
                    assert(f[t] == f2[t - 2]);
                    assert(f2[t - 2 + 1] == 32 && t - 2 + 1 < f2.len());
                    assert(f[t + 1] == f2[t - 1]);
                }
            }
        } else {
            assert forall|t: int| 0 <= t < f.len() && #[trigger] f[t] == 10 implies t + 1 < f.len()
                && f[t + 1] == 32 by {
                assert(t >= 1);
                assert(f[t] == f2[t - 1]);
                assert(f2[t - 1 + 1] == 32 && t - 1 + 1 < f2.len());
                assert(f[t + 1] == f2[t]);
            }
        }
    }
}

proof fn lemma_unfold_fold(v: Seq<u8>)
    ensures
        unfold_val(fold_val(v)) == v,
    decreases v.len(),
{
    if v.len() == 0 {
        assert(unfold_val(fold_val(v)) =~= v);
    } else {
        lemma_unfold_fold(v.drop_first());
        let f = fold_val(v);
        let f2 = fold_val(v.drop_first());
        if v[0] == 10 {
            assert(f == seq![10u8, 32u8] + f2);
            assert(f[0] == 10 && f.len() >= 2 && f[1] == 32);
            assert(f.skip(2) =~= f2);
            assert(unfold_val(f) == seq![10u8] + unfold_val(f2));
            assert(unfold_val(f) =~= v);
        } else {
            assert(f == seq![v[0]] + f2);
            assert(f[0] == v[0]);
            assert(f.drop_first() =~= f2);
            if f[0] == 10 && f.len() >= 2 && f[1] == 32 {
                assert(false);
            }
            assert(unfold_val(f) == seq![v[0]] + unfold_val(f2));
            assert(unfold_val(f) =~= v);
        }
    }
}

proof fn lemma_parse_line(h: Seq<u8>, i: int, k: Seq<u8>, v: Seq<u8>)
    requires
        0 <= i,
        wf_key(k),
        i + value_line(k, v).len() <= h.len(),
        h.subrange(i, i + value_line(k, v).len()) == value_line(k, v),
        i + value_line(k, v).len() == h.len() || h[i + value_line(k, v).len()] != 32,
    ensures
        find_line_end(h, i) == i + value_line(k, v).len() - 1,
        find_split(h, i, i) == i + k.len(),
        h.subrange(i, i + k.len() as int) == k,
        unfold_val(h.subrange(i + k.len() + 1, i + value_line(k, v).len() - 1)) == v,
{
    let vl = value_line(k, v);
    let nk = k.len() as int;
    let f = fold_val(v);
    let nf = f.len() as int;
    let ll = vl.len() as int;
    assert(ll == nk + 1 + nf + 1);
    assert forall|t: int| 0 <= t < ll implies #[trigger] h[i + t] == vl[t] by {
        assert(h.subrange(i, i + ll)[t] == h[i + t]);
    }
    assert(forall|t: int| 0 <= t < nk ==> #[trigger] vl[t] == k[t]);
    assert(vl[nk] == 32u8);
    assert(forall|t: int| 0 <= t < nf ==> #[trigger] vl[nk + 1 + t] == f[t]);
    assert(vl[nk + 1 + nf] == 10u8);
    lemma_fold_shape(v);
    // the line end: the final newline, since every newline inside the
    // folded value is followed by a space
    assert forall|j: int|
        i <= j < i + ll - 1 implies !(#[trigger] h[j] == 10 && (j + 1 == h.len() || h[j + 1]
        != 32)) by {
        let t = j - i;
        assert(h[i + t] == vl[t]);
        if t < nk {
            assert(vl[t] == k[t]);
        } else if t == nk {
        } else {
            let u = t - nk - 1;
            assert(vl[nk + 1 + u] == f[u]);
            if f[u] == 10 {
                assert(f[u + 1] == 32 && u + 1 < nf);
                assert(h[i + (t + 1)] == vl[t + 1]);
                assert(vl[nk + 1 + (u + 1)] == f[u + 1]);
            }
        }
    }
    assert(h[i + (ll - 1)] == vl[ll - 1]);
    assert(vl[nk + 1 + nf] == 10u8);
    lemma_find_line_end_exact(h, i, i + ll - 1);
    // the separator: the space after the key, since the key has none
    assert forall|j: int|
        i <= j < i + nk implies !(#[trigger] h[j] == 32 && (j == i || h[j - 1] != 10)) by {
        let t = j - i;
        assert(h[i + t] == vl[t]);
        assert(vl[t] == k[t]);
    }
    assert(h[i + nk] == vl[nk]);
    assert(k.len() > 0);
    assert(h[i + (nk - 1)] == vl[nk - 1] && vl[nk - 1] == k[nk - 1]);
    assert(k[nk - 1] != 10);
    lemma_find_split_exact(h, i, i, i + nk);
    // the parsed key and value
    assert forall|t: int| 0 <= t < nk implies h.subrange(i, i + nk)[t] == k[t] by {
        assert(h[i + t] == vl[t]);
    }
    assert(h.subrange(i, i + nk) =~= k);
    assert forall|t: int| 0 <= t < nf implies h.subrange(i + nk + 1, i + ll - 1)[t] == f[t] by {
        assert(h[i + (nk + 1 + t)] == vl[nk + 1 + t]);
    }
    assert(h.subrange(i + nk + 1, i + ll - 1) =~= f);
    lemma_unfold_fold(v);
}

proof fn lemma_lines_of_values(h: Seq<u8>, i: int, k: Seq<u8>, vs: Seq<Seq<u8>>, acc: Seq<KvPairV>)
    requires
        0 <= i,
        wf_key(k),
        i + pair_lines(k, vs).len() <= h.len(),
        h.subrange(i, i + pair_lines(k, vs).len()) == pair_lines(k, vs),
        i + pair_lines(k, vs).len() == h.len() || h[i + pair_lines(k, vs).len()] != 32,
        acc.len() > 0,
        acc.last().key == k,
        find_key(acc, k) == acc.len() - 1,
    ensures
        kv_lines(h, i, acc) == kv_lines(
            h,
            i + pair_lines(k, vs).len(),
            acc.update(acc.len() - 1, KvPairV { key: k, values: acc.last().values + vs }),
        ),
    decreases vs.len(),
{
    let pl = pair_lines(k, vs);
    if vs.len() == 0 {
        assert(acc.last().values + vs =~= acc.last().values);
        assert(acc.update(acc.len() - 1, KvPairV { key: k, values: acc.last().values + vs }) =~= acc);
    } else {
        let v0 = vs[0];
        let vl = value_line(k, v0);
        let ll = vl.len() as int;
        let rest = pair_lines(k, vs.drop_first());
        assert(pl == vl + rest);
        assert forall|t: int| 0 <= t < pl.len() implies #[trigger] h[i + t] == pl[t] by {
            assert(h.subrange(i, i + pl.len())[t] == h[i + t]);
        }
        // the head line occupies [i, i + ll)
        assert forall|t: int| 0 <= t < ll implies h.subrange(i, i + ll)[t] == vl[t] by {
            assert(h[i + t] == pl[t]);
            assert((vl + rest)[t] == vl[t]);
        }
        assert(h.subrange(i, i + ll) =~= vl);
        // the byte after the head line is never a continuation space
        if vs.len() > 1 {
            assert(rest == value_line(k, vs.drop_first()[0]) + pair_lines(
                k,
                vs.drop_first().drop_first(),
            ));
            assert(rest[0] == k[0]);
            assert(h[i + ll] == pl[ll] && pl[ll] == rest[0]);
            assert(h[i + ll] != 32);
        } else {
            assert(rest =~= Seq::<u8>::empty());
            assert(pl =~= vl);
        }
        lemma_parse_line(h, i, k, v0);
        let e = find_line_end(h, i);
        let sp = find_split(h, i, i);
        assert(e == i + ll - 1 && sp == i + k.len());
        let acc2 = add_value(acc, k, v0);
        assert(kv_lines(h, i, acc) == kv_lines(h, e + 1, acc2)) by {
            assert(i < h.len());
            assert(h.subrange(i, sp) == k);
            assert(unfold_val(h.subrange(sp + 1, e)) == v0);
        }
        assert(acc2 == acc.update(acc.len() - 1, KvPairV {
            key: k,
            values: acc.last().values.push(v0),
        }));
        assert(acc2.len() == acc.len());
        assert(acc2.last().key == k);
        assert(find_key(acc2, k) == acc2.len() - 1) by {
            lemma_find_key_props(acc, k);
            assert(forall|j: int| 0 <= j < acc2.len() - 1 ==> acc2[j] == acc[j]);
            assert(forall|j: int| 0 <= j < acc2.len() - 1 ==> (#[trigger] acc2[j].key) != k);
            lemma_find_key_exact(acc2, k, acc2.len() - 1);
        }
        // the remaining lines occupy [i + ll, i + pl.len())
        assert forall|t: int|
            0 <= t < rest.len() implies h.subrange(i + ll, i + pl.len())[t] == rest[t] by {
            assert(h[i + (ll + t)] == pl[ll + t]);
            assert((vl + rest)[ll + t] == rest[t]);
        }
        assert(h.subrange(i + ll, i + pl.len()) =~= rest);
        lemma_lines_of_values(h, i + ll, k, vs.drop_first(), acc2);
        let fin1 = acc2.update(acc2.len() - 1, KvPairV {
            key: k,
            values: acc2.last().values + vs.drop_first(),
        });
        let fin2 = acc.update(acc.len() - 1, KvPairV { key: k, values: acc.last().values + vs });
        assert(acc2.last().values + vs.drop_first() =~= acc.last().values + vs);
        assert(fin1 =~= fin2);
    }
}

proof fn lemma_lines_of_pairs(h: Seq<u8>, i: int, ps: Seq<KvPairV>, acc: Seq<KvPairV>)
    requires
        0 <= i,
        i + header_bytes(ps).len() == h.len(),
        h.subrange(i, h.len() as int) == header_bytes(ps),
        forall|t: int|
            0 <= t < ps.len() ==> wf_key(#[trigger] ps[t].key) && ps[t].values.len() >= 1,
        forall|t1: int, t2: int|
            0 <= t1 < t2 < ps.len() ==> (#[trigger] ps[t1].key) != (#[trigger] ps[t2].key),
        forall|t: int| 0 <= t < ps.len() ==> find_key(acc, #[trigger] ps[t].key) == -1,
    ensures
        kv_lines(h, i, acc) == Ok::<Seq<KvPairV>, OzError>(acc + ps),
    decreases ps.len(),
{
    if ps.len() == 0 {
        assert(header_bytes(ps) =~= Seq::<u8>::empty());
        assert(i >= h.len());
        assert(acc + ps =~= acc);
    } else {
        let p0 = ps[0];
        let k = p0.key;
        assert(wf_key(k));
        assert(k != msg_key()) by {
            if k == msg_key() {
                assert(k[0] == 0);
            }
        }
        let hb = header_bytes(ps);
        let pl = pair_lines(k, p0.values);
        let hrest = header_bytes(ps.drop_first());
        assert(hb == pl + hrest);
        assert forall|t: int| 0 <= t < hb.len() implies #[trigger] h[i + t] == hb[t] by {
            assert(h.subrange(i, h.len() as int)[t] == h[i + t]);
        }
        // the head pair's lines occupy [i, i + pl.len())
        assert forall|t: int| 0 <= t < pl.len() implies h.subrange(i, i + pl.len())[t] == pl[t] by {
            assert(h[i + t] == hb[t]);
            assert((pl + hrest)[t] == pl[t]);
        }
        assert(h.subrange(i, i + pl.len()) =~= pl);
        // the byte after them opens the next pair's key, never a space
        if ps.len() > 1 {
            let p1 = ps.drop_first()[0];
            assert(p1 == ps[1]);
            assert(wf_key(p1.key) && p1.values.len() >= 1);
            assert(p1.key != msg_key()) by {
                if p1.key == msg_key() {
                    assert(p1.key[0] == 0);
                }
            }
            assert(hrest == pair_lines(p1.key, p1.values) + header_bytes(
                ps.drop_first().drop_first(),
            ));
            assert(pair_lines(p1.key, p1.values) == value_line(p1.key, p1.values[0]) + pair_lines(
                p1.key,
                p1.values.drop_first(),
            ));
            assert(pair_lines(p1.key, p1.values)[0] == p1.key[0]);
            assert(hrest[0] == p1.key[0]);
            if i + pl.len() < h.len() {
                assert(h[i + pl.len()] == hb[pl.len() as int]);
                assert((pl + hrest)[pl.len() as int] == hrest[0]);
                assert(h[i + pl.len()] != 32);
            }
            assert(hrest.len() > 0);
            assert(i + pl.len() < h.len());
        } else {
            assert(hrest =~= Seq::<u8>::empty());
            assert(i + pl.len() == h.len());
        }
        // feed the first value, which opens the pair, then the rest
        assert(pl == value_line(k, p0.values[0]) + pair_lines(k, p0.values.drop_first()));
        let vl = value_line(k, p0.values[0]);
        let ll = vl.len() as int;
        assert forall|t: int| 0 <= t < ll implies h.subrange(i, i + ll)[t] == vl[t] by {
            assert(h[i + t] == hb[t]);
            assert((pl + hrest)[t] == pl[t]);
            assert((vl + pair_lines(k, p0.values.drop_first()))[t] == vl[t]);
        }
        assert(h.subrange(i, i + ll) =~= vl);
        if p0.values.len() > 1 {
            let r2 = pair_lines(k, p0.values.drop_first());
            assert(r2 == value_line(k, p0.values.drop_first()[0]) + pair_lines(
                k,
                p0.values.drop_first().drop_first(),
            ));
            assert(r2[0] == k[0]);
            assert(h[i + ll] == hb[ll] && (pl + hrest)[ll] == pl[ll] && (vl + r2)[ll] == r2[0]);
            assert(h[i + ll] != 32);
        } else {
            assert(pair_lines(k, p0.values.drop_first()) =~= Seq::<u8>::empty());
            assert(pl =~= vl);
        }
        lemma_parse_line(h, i, k, p0.values[0]);
        let e = find_line_end(h, i);
        let sp = find_split(h, i, i);
        let acc2 = add_value(acc, k, p0.values[0]);
        assert(kv_lines(h, i, acc) == kv_lines(h, e + 1, acc2)) by {
            assert(i < h.len());
            assert(h.subrange(i, sp) == k);
            assert(unfold_val(h.subrange(sp + 1, e)) == p0.values[0]);
        }
        assert(find_key(acc, k) == -1);
        assert(acc2 == acc.push(KvPairV { key: k, values: seq![p0.values[0]] }));
        assert(acc2.last().key == k);
        assert(find_key(acc2, k) == acc2.len() - 1) by {
            lemma_find_key_props(acc, k);
            assert(forall|j: int| 0 <= j < acc2.len() - 1 ==> acc2[j] == acc[j]);
            assert(forall|j: int| 0 <= j < acc2.len() - 1 ==> (#[trigger] acc2[j].key) != k);
            lemma_find_key_exact(acc2, k, acc2.len() - 1);
        }
        // the remaining value lines of the head pair
        let rv = pair_lines(k, p0.values.drop_first());
        assert forall|t: int|
            0 <= t < rv.len() implies h.subrange(i + ll, i + ll + rv.len())[t] == rv[t] by {
            assert(h[i + (ll + t)] == hb[ll + t]);
            assert((pl + hrest)[ll + t] == pl[ll + t]);
            assert((vl + rv)[ll + t] == rv[t]);
        }
        assert(h.subrange(i + ll, i + ll + rv.len()) =~= rv);
        if p0.values.len() > 1 {
            if i + ll + rv.len() < h.len() {
                assert(h[i + (ll + rv.len())] == hb[ll + rv.len()]);
                assert((pl + hrest)[ll + rv.len()] == hrest[0]);
            }
        }
        lemma_lines_of_values(h, i + ll, k, p0.values.drop_first(), acc2);
        let acc3 = acc2.update(acc2.len() - 1, KvPairV {
            key: k,
            values: acc2.last().values + p0.values.drop_first(),
        });
        assert(kv_lines(h, e + 1, acc2) == kv_lines(h, i + pl.len(), acc3));
        assert(acc2.last().values + p0.values.drop_first() =~= p0.values);
        assert(acc3 =~= acc.push(p0));
        // the remaining pairs
        assert forall|t: int|
            0 <= t < hrest.len() implies h.subrange(i + pl.len(), h.len() as int)[t] == hrest[t] by {
            assert(h[i + (pl.len() + t)] == hb[pl.len() + t]);
            assert((pl + hrest)[pl.len() + t] == hrest[t]);
        }
        assert(h.subrange(i + pl.len(), h.len() as int) =~= hrest);
        assert forall|t: int| 0 <= t < ps.drop_first().len() implies find_key(
            acc3,
            #[trigger] ps.drop_first()[t].key,
        ) == -1 by {
            let kt = ps.drop_first()[t].key;
            assert(kt == ps[t + 1].key);
            assert(kt != k);
            assert(find_key(acc, kt) == -1);
            lemma_find_key_props(acc, kt);
            lemma_find_key_props(acc3, kt);
            if find_key(acc3, kt) >= 0 {
                let w = find_key(acc3, kt);
                assert(acc3[w].key == kt);
                if w < acc.len() {
                    assert(acc3[w] == acc[w]);
                    assert(acc[w].key != kt);
                } else {
                    assert(acc3[w] == p0);
                }
            }
        }
        assert forall|t: int|
            0 <= t < ps.drop_first().len() implies wf_key(#[trigger] ps.drop_first()[t].key)
                && ps.drop_first()[t].values.len() >= 1 by {
            assert(ps.drop_first()[t] == ps[t + 1]);
            assert(wf_key(ps[t + 1].key) && ps[t + 1].values.len() >= 1);
        }
        assert forall|t1: int, t2: int| 0 <= t1 < t2 < ps.drop_first().len() implies (
        #[trigger] ps.drop_first()[t1].key) != (#[trigger] ps.drop_first()[t2].key) by {
            assert(ps.drop_first()[t1] == ps[t1 + 1] && ps.drop_first()[t2] == ps[t2 + 1]);
        }
        lemma_lines_of_pairs(h, i + pl.len(), ps.drop_first(), acc3);
        assert(kv_lines(h, i + pl.len(), acc3) == Ok::<Seq<KvPairV>, OzError>(
            acc3 + ps.drop_first(),
        ));
        assert(acc3 + ps.drop_first() =~= acc + ps);
    }
}

} // verus!

verus! {

proof fn lemma_pair_lines_shape(k: Seq<u8>, vs: Seq<Seq<u8>>)
    requires
        wf_key(k),
        vs.len() >= 1,
    ensures
        pair_lines(k, vs).len() > 0,
        pair_lines(k, vs)[0] == k[0],
        pair_lines(k, vs).last() == 10,
        forall|t: int|
            0 <= t < pair_lines(k, vs).len() - 1 ==> !(#[trigger] pair_lines(k, vs)[t] == 10
                && pair_lines(k, vs)[t + 1] == 10),
    decreases vs.len(),
{
    let pl = pair_lines(k, vs);
    let vl = value_line(k, vs[0]);
    let ll = vl.len() as int;
    let f = fold_val(vs[0]);
    let nk = k.len() as int;
    lemma_fold_shape(vs[0]);
    assert(vl[0] == k[0]);
    assert(vl[ll - 1] == 10);
    assert forall|t: int| 0 <= t < ll - 1 implies !(#[trigger] vl[t] == 10 && vl[t + 1] == 10) by {
        if t < nk {
            assert(vl[t] == k[t]);
        } else if t == nk {
        } else {
            let u = t - nk - 1;
            assert(vl[nk + 1 + u] == f[u]);
            if f[u] == 10 {
                assert(u + 1 < f.len() && f[u + 1] == 32);
                assert(vl[nk + 1 + (u + 1)] == f[u + 1]);
            }
        }
    }
    if vs.len() == 1 {
        assert(pair_lines(k, vs.drop_first()) =~= Seq::<u8>::empty());
        assert(pl =~= vl);
    } else {
        let rest = pair_lines(k, vs.drop_first());
        lemma_pair_lines_shape(k, vs.drop_first());
        assert(pl == vl + rest);
        assert(pl[0] == vl[0]);
        assert(pl.last() == rest.last());
        assert forall|t: int| 0 <= t < pl.len() - 1 implies !(#[trigger] pl[t] == 10 && pl[t + 1]
            == 10) by {
            if t < ll - 1 {
                assert(pl[t] == vl[t] && pl[t + 1] == vl[t + 1]);
            } else if t == ll - 1 {
                assert(pl[t + 1] == rest[0] && rest[0] == k[0]);
            } else {
                assert(pl[t] == rest[t - ll] && pl[t + 1] == rest[t - ll + 1]);
            }
        }
    }
}

proof fn lemma_header_shape(ps: Seq<KvPairV>)
    requires
        forall|t: int|
            0 <= t < ps.len() ==> wf_key(#[trigger] ps[t].key) && ps[t].values.len() >= 1,
    ensures
        ps.len() > 0 ==> header_bytes(ps).len() > 0 && header_bytes(ps)[0] == ps[0].key[0]
            && header_bytes(ps).last() == 10,
        forall|t: int|
            0 <= t < header_bytes(ps).len() - 1 ==> !(#[trigger] header_bytes(ps)[t] == 10
                && header_bytes(ps)[t + 1] == 10),
    decreases ps.len(),
{
    if ps.len() > 0 {
        let p0 = ps[0];
        assert(wf_key(p0.key));
        assert(p0.key != msg_key()) by {
            if p0.key == msg_key() {
                assert(p0.key[0] == 0);
            }
        }
        let hb = header_bytes(ps);
        let pl = pair_lines(p0.key, p0.values);
        let hrest = header_bytes(ps.drop_first());
        assert(hb == pl + hrest);
        lemma_pair_lines_shape(p0.key, p0.values);
        assert forall|t: int|
            0 <= t < ps.drop_first().len() implies wf_key(#[trigger] ps.drop_first()[t].key)
                && ps.drop_first()[t].values.len() >= 1 by {
            assert(ps.drop_first()[t] == ps[t + 1]);
            assert(wf_key(ps[t + 1].key) && ps[t + 1].values.len() >= 1);
        }
        lemma_header_shape(ps.drop_first());
        let ll = pl.len() as int;
        assert(hb[0] == pl[0]);
        if ps.len() == 1 {
            assert(hrest =~= Seq::<u8>::empty());
            assert(hb =~= pl);
        } else {
            assert(hrest.len() > 0);
            assert(hb.last() == hrest.last());
            assert(hrest[0] == ps.drop_first()[0].key[0]);
            assert(wf_key(ps.drop_first()[0].key));
        }
        assert forall|t: int| 0 <= t < hb.len() - 1 implies !(#[trigger] hb[t] == 10 && hb[t + 1]
            == 10) by {
            if t < ll - 1 {
                assert(hb[t] == pl[t] && hb[t + 1] == pl[t + 1]);
            } else if t == ll - 1 {
                assert(hrest.len() > 0);
                assert(hb[t + 1] == hrest[0]);
                assert(hrest[0] == ps.drop_first()[0].key[0]);
                assert(wf_key(ps.drop_first()[0].key));
            } else {
                assert(hb[t] == hrest[t - ll] && hb[t + 1] == hrest[t - ll + 1]);
            }
        }
    }
}

/// Decoding an encoded well-formed commit yields exactly its header pairs
/// and its message: folded newlines unfold, repeated keys regroup, and the
/// message returns verbatim under the reserved key.
pub proof fn lemma_kv_round_trip(ps: Seq<KvPairV>)
    requires
        wf_kv(ps),
    ensures
        kv_parse_spec(kv_bytes(ps)) == Ok::<Seq<KvPairV>, OzError>(ps),
{
    let hdr = ps.drop_last();
    let msgp = ps.last();
    assert(ps =~= hdr.push(msgp));
    assert forall|t: int| 0 <= t < hdr.len() implies wf_key(#[trigger] hdr[t].key)
        && hdr[t].values.len() >= 1 by {
        assert(hdr[t] == ps[t]);
    }
    // the header block is the non-message pairs' lines
    lemma_header_bytes_push(hdr, msgp);
    assert(header_bytes(ps) == header_bytes(hdr.push(msgp)));
    assert(header_bytes(ps) == header_bytes(hdr));
    let hb = header_bytes(hdr);
    // the message of the encoding is the last pair's single value
    assert(find_key(ps, msg_key()) == ps.len() - 1) by {
        assert forall|j: int| 0 <= j < ps.len() - 1 implies (#[trigger] ps[j].key) != msg_key() by {
            assert(wf_key(ps[j].key));
            if ps[j].key == msg_key() {
                assert(ps[j].key[0] == 0);
            }
        }
        lemma_find_key_exact(ps, msg_key(), ps.len() - 1);
    }
    let m = msg_of(ps);
    assert(m == msgp.values[0]);
    let full = kv_bytes(ps);
    assert(full == hb + seq![10u8] + m);
    lemma_header_shape(hdr);
    assert(hdr.len() >= 1);
    assert(hb.len() > 0 && hb.last() == 10);
    // the first blank line sits at the header's final newline
    let nb = hb.len() as int;
    assert forall|t: int| 0 <= t < full.len() implies #[trigger] full[t] == (hb + seq![10u8]
        + m)[t] by {}
    assert(forall|t: int| 0 <= t < nb ==> #[trigger] full[t] == hb[t]);
    assert(full[nb] == 10);
    assert(full[nb - 1] == hb[nb - 1] && hb.last() == 10);
    assert forall|j: int| 0 <= j < nb - 1 implies !(#[trigger] full[j] == 10 && full[j + 1]
        == 10) by {
        assert(full[j] == hb[j] && full[j + 1] == hb[j + 1]);
    }
    lemma_find_blank_exact(full, 0, nb - 1);
    // the split hands the header block to the line parser
    let h = full.subrange(0, nb);
    assert(h =~= hb);
    assert forall|t1: int, t2: int| 0 <= t1 < t2 < hdr.len() implies (#[trigger] hdr[t1].key) != (
    #[trigger] hdr[t2].key) by {
        assert(hdr[t1] == ps[t1] && hdr[t2] == ps[t2]);
    }
    assert(forall|t: int|
        0 <= t < hdr.len() ==> find_key(Seq::<KvPairV>::empty(), #[trigger] hdr[t].key) == -1);
    assert(h.subrange(0, h.len() as int) =~= hb);
    lemma_lines_of_pairs(h, 0, hdr, Seq::<KvPairV>::empty());
    assert(kv_lines(h, 0, Seq::<KvPairV>::empty()) == Ok::<Seq<KvPairV>, OzError>(
        Seq::<KvPairV>::empty() + hdr,
    ));
    assert(Seq::<KvPairV>::empty() + hdr =~= hdr);
    // the tail is the message, re-recorded under the reserved key
    assert(full.subrange(nb + 1, full.len() as int) =~= m);
    assert(find_key(hdr, msg_key()) == -1) by {
        lemma_find_key_props(hdr, msg_key());
        if find_key(hdr, msg_key()) >= 0 {
            assert(hdr[find_key(hdr, msg_key())].key == msg_key());
            assert(wf_key(hdr[find_key(hdr, msg_key())].key));
            assert(msg_key()[0] == 0);
        }
    }
    let put = put_pair(hdr, msg_key(), seq![m]);
    assert(put == hdr.push(KvPairV { key: msg_key(), values: seq![m] }));
    assert(msgp.values =~= seq![m]);
    assert(KvPairV { key: msg_key(), values: seq![m] } =~= msgp);
    assert(put =~= ps);
    assert(kv_parse_utf8(full) == Ok::<Seq<KvPairV>, OzError>(put));
    lemma_kv_bytes_utf8(ps);
}

} // verus!

verus! {

/// Whatever a payload parses to holds the reserved message pair, with
/// exactly one value: the message body recorded last.
pub proof fn lemma_parse_msg(data: Seq<u8>)
    requires
        kv_parse_spec(data) is Ok,
    ensures
        find_key(kv_parse_spec(data)->Ok_0, msg_key()) >= 0,
        kv_parse_spec(data)->Ok_0[find_key(kv_parse_spec(data)->Ok_0, msg_key())].values.len()
            == 1,
{
    let j = find_blank(data, 0);
    let hdr = kv_lines(data.subrange(0, j + 1), 0, Seq::empty())->Ok_0;
    let m = data.subrange(j + 2, data.len() as int);
    let ps = put_pair(hdr, msg_key(), seq![m]);
    assert(kv_parse_spec(data)->Ok_0 == ps);
    lemma_find_key_props(hdr, msg_key());
    let i = find_key(hdr, msg_key());
    if i < 0 {
        assert(ps == hdr.push(KvPairV { key: msg_key(), values: seq![m] }));
        assert forall|t: int| 0 <= t < ps.len() - 1 implies (#[trigger] ps[t].key) != msg_key() by {
            assert(ps[t] == hdr[t]);
        }
        assert(ps[ps.len() - 1].key == msg_key());
        lemma_find_key_exact(ps, msg_key(), ps.len() - 1);
    } else {
        assert(ps == hdr.update(i, KvPairV { key: msg_key(), values: seq![m] }));
        assert forall|t: int| 0 <= t < i implies (#[trigger] ps[t].key) != msg_key() by {
            assert(ps[t] == hdr[t]);
        }
        assert(ps[i].key == msg_key());
        lemma_find_key_exact(ps, msg_key(), i);
    }
}

} // verus!


verus! {

proof fn lemma_fold_concat(u: Seq<u8>, v: Seq<u8>)
    ensures
        fold_val(u + v) == fold_val(u) + fold_val(v),
    decreases u.len(),
{
    if u.len() == 0 {
        assert(u + v =~= v);
        assert(fold_val(u) =~= Seq::<u8>::empty());
        assert(fold_val(u + v) =~= fold_val(u) + fold_val(v));
    } else {
        assert((u + v).drop_first() =~= u.drop_first() + v);
        lemma_fold_concat(u.drop_first(), v);
        assert((u + v)[0] == u[0]);
        assert(fold_val(u + v) =~= fold_val(u) + fold_val(v));
    }
}

proof fn lemma_fold_no_newline(s: Seq<u8>)
    requires
        forall|t: int| 0 <= t < s.len() ==> #[trigger] s[t] != 10,
    ensures
        fold_val(s) == s,
    decreases s.len(),
{
    if s.len() > 0 {
        lemma_fold_no_newline(s.drop_first());
        assert(fold_val(s) =~= s);
    } else {
        assert(fold_val(s) =~= s);
    }
}

proof fn lemma_fold_utf8_from(v: Seq<u8>, i: int)
    requires
        0 <= i <= v.len(),
        is_utf8_from(v, i),
    ensures
        is_utf8(fold_val(v.skip(i))),
    decreases v.len() - i,
{
    if i == v.len() {
        assert(v.skip(i) =~= Seq::<u8>::empty());
        assert(fold_val(Seq::<u8>::empty()) =~= Seq::<u8>::empty());
    } else {
        let k = utf8_step(v, i);
        let head = v.subrange(i, i + k);
        let rest = v.skip(i + k);
        assert(v.skip(i) =~= head + rest);
        lemma_fold_concat(head, rest);
        lemma_fold_utf8_from(v, i + k);
        assert forall|t: int| 0 <= t < k implies #[trigger] head[t] == v[i + t] by {}
        if k == 1 {
            let b = v[i];
            assert(b < 128);
            assert(head =~= seq![b]);
            assert(seq![b].drop_first() =~= Seq::<u8>::empty());
            assert(fold_val(Seq::<u8>::empty()) =~= Seq::<u8>::empty());
            if b == 10 {
                assert(fold_val(head) =~= seq![10u8, 32u8]);
                lemma_ascii_utf8_from(seq![10u8, 32u8], 0);
            } else {
                assert(fold_val(head) =~= seq![b]);
                lemma_ascii_utf8_from(seq![b], 0);
            }
        } else {
            assert(v[i] >= 194);
            assert forall|t: int| 0 <= t < head.len() implies #[trigger] head[t] != 10 by {
                assert(head[t] == v[i + t]);
                if t > 0 {
                    assert(v[i + t] >= 128);
                }
            }
            lemma_fold_no_newline(head);
            crate::textenc::lemma_utf8_step_shift(v, i, head, 0, k);
            assert(is_utf8_from(head, 0 + k));
            assert(is_utf8(head));
        }
        lemma_utf8_concat(fold_val(head), fold_val(rest));
    }
}

proof fn lemma_fold_utf8(v: Seq<u8>)
    requires
        is_utf8(v),
    ensures
        is_utf8(fold_val(v)),
{
    lemma_fold_utf8_from(v, 0);
    assert(v.skip(0) =~= v);
}

proof fn lemma_value_line_utf8(k: Seq<u8>, v: Seq<u8>)
    requires
        is_utf8(k),
        is_utf8(v),
    ensures
        is_utf8(value_line(k, v)),
{
    lemma_fold_utf8(v);
    lemma_ascii_utf8_from(seq![32u8], 0);
    lemma_ascii_utf8_from(seq![10u8], 0);
    lemma_utf8_concat(k, seq![32u8]);
    lemma_utf8_concat(k + seq![32u8], fold_val(v));
    lemma_utf8_concat(k + seq![32u8] + fold_val(v), seq![10u8]);
}

proof fn lemma_pair_lines_utf8(k: Seq<u8>, vs: Seq<Seq<u8>>)
    requires
        is_utf8(k),
        forall|j: int| 0 <= j < vs.len() ==> is_utf8(#[trigger] vs[j]),
    ensures
        is_utf8(pair_lines(k, vs)),
    decreases vs.len(),
{
    if vs.len() == 0 {
        assert(pair_lines(k, vs) =~= Seq::<u8>::empty());
        lemma_ascii_utf8_from(pair_lines(k, vs), 0);
    } else {
        lemma_value_line_utf8(k, vs[0]);
        assert(forall|j: int|
            0 <= j < vs.drop_first().len() ==> #[trigger] vs.drop_first()[j] == vs[j + 1]);
        lemma_pair_lines_utf8(k, vs.drop_first());
        lemma_utf8_concat(value_line(k, vs[0]), pair_lines(k, vs.drop_first()));
    }
}

proof fn lemma_header_bytes_utf8(ps: Seq<KvPairV>)
    requires
        forall|i: int| 0 <= i < ps.len() ==> is_utf8((#[trigger] ps[i]).key),
        forall|i: int, j: int|
            0 <= i < ps.len() && 0 <= j < ps[i].values.len() ==> is_utf8(
                #[trigger] ps[i].values[j],
            ),
    ensures
        is_utf8(header_bytes(ps)),
    decreases ps.len(),
{
    if ps.len() == 0 {
        assert(header_bytes(ps) =~= Seq::<u8>::empty());
        lemma_ascii_utf8_from(header_bytes(ps), 0);
    } else {
        let headbit: Seq<u8> = if ps[0].key == msg_key() {
            Seq::<u8>::empty()
        } else {
            pair_lines(ps[0].key, ps[0].values)
        };
        if ps[0].key == msg_key() {
            assert(headbit =~= Seq::<u8>::empty());
            lemma_ascii_utf8_from(headbit, 0);
        } else {
            assert(forall|j: int|
                0 <= j < ps[0].values.len() ==> is_utf8(#[trigger] ps[0].values[j]));
            lemma_pair_lines_utf8(ps[0].key, ps[0].values);
        }
        assert(forall|i: int|
            0 <= i < ps.drop_first().len() ==> #[trigger] ps.drop_first()[i] == ps[i + 1]);
        assert forall|i: int, j: int|
            0 <= i < ps.drop_first().len() && 0 <= j < ps.drop_first()[i].values.len()
            implies is_utf8(#[trigger] ps.drop_first()[i].values[j]) by {
            assert(ps.drop_first()[i] == ps[i + 1]);
            assert(is_utf8(ps[i + 1].values[j]));
        }
        lemma_header_bytes_utf8(ps.drop_first());
        lemma_utf8_concat(headbit, header_bytes(ps.drop_first()));
    }
}

/// The encoding of well-formed commit data is text.
pub proof fn lemma_kv_bytes_utf8(ps: Seq<KvPairV>)
    requires
        wf_kv(ps),
    ensures
        is_utf8(kv_bytes(ps)),
{
    assert forall|i: int| 0 <= i < ps.len() implies is_utf8((#[trigger] ps[i]).key) by {
        if i < ps.len() - 1 {
        } else {
            assert(ps[i] == ps.last());
            lemma_ascii_utf8_from(msg_key(), 0);
        }
    }
    assert forall|i: int, j: int|
        0 <= i < ps.len() && 0 <= j < ps[i].values.len() implies is_utf8(
        #[trigger] ps[i].values[j]) by {
        if i == ps.len() - 1 {
            assert(ps[i] == ps.last());
            assert(j == 0);
        }
    }
    lemma_header_bytes_utf8(ps);
    lemma_find_key_props(ps, msg_key());
    lemma_ascii_utf8_from(seq![10u8], 0);
    lemma_utf8_concat(header_bytes(ps), seq![10u8]);
    assert(is_utf8(msg_of(ps))) by {
        if find_key(ps, msg_key()) >= 0 && ps[find_key(ps, msg_key())].values.len() > 0 {
            assert(is_utf8(ps[find_key(ps, msg_key())].values[0]));
        } else {
            lemma_ascii_utf8_from(Seq::<u8>::empty(), 0);
        }
    }
    lemma_utf8_concat(header_bytes(ps) + seq![10u8], msg_of(ps));
}

} // verus!
