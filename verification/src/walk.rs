//! The commit graph walker: a depth-first traversal of ancestor links from
//! a starting commit, emitting one node record per commit and one edge
//! record per parent link.  A visited set guards every expansion, so each
//! digest is expanded at most once and the walk terminates on any graph
//! shape, merges, diamonds and even cycles included.

use vstd::prelude::*;

use crate::OzError;
use crate::kvcodec::{find_key, find_pair, msg_of};
use crate::objcodec::obj_decode_spec;
use crate::objects::{GitObject, GitObjectV, KvPairV, msg_key};
use crate::primitives::zlib_of;
use crate::store::{MemStore, store_contains, store_get};
use crate::treecodec::{copy_range, find_byte, find_byte_from};

verus! {

/// One record of the walk's output stream, in emission order: a node for
/// a visited commit, carrying its escaped first message line as a label,
/// or a directed edge from a commit to one of its parents.
pub enum LogItem {
    Node { sha: Vec<u8>, label: Vec<u8> },
    Edge { from: Vec<u8>, to: Vec<u8> },
}

/// Whether a record is a node.
pub open spec fn is_node(it: LogItem) -> bool {
    match it {
        LogItem::Node { .. } => true,
        LogItem::Edge { .. } => false,
    }
}

/// The digest a node record is for.
pub open spec fn node_sha(it: LogItem) -> Seq<u8> {
    match it {
        LogItem::Node { sha, .. } => sha@,
        LogItem::Edge { .. } => Seq::empty(),
    }
}

/// The label a node record carries.
pub open spec fn node_label(it: LogItem) -> Seq<u8> {
    match it {
        LogItem::Node { label, .. } => label@,
        LogItem::Edge { .. } => Seq::empty(),
    }
}

/// Whether a record is the edge from `f` to `t`.
pub open spec fn is_edge_for(it: LogItem, f: Seq<u8>, t: Seq<u8>) -> bool {
    match it {
        LogItem::Node { .. } => false,
        LogItem::Edge { from, to } => from@ == f && to@ == t,
    }
}

/// Whether the stream holds, at or after `base`, the edge from `f` to `t`.
pub open spec fn has_edge(out: Seq<LogItem>, base: int, f: Seq<u8>, t: Seq<u8>) -> bool {
    exists|a: int| base <= a < out.len() && is_edge_for(#[trigger] out[a], f, t)
}

/// The targets of the edges from `f` at or after `base`, in stream order.
pub open spec fn edges_from(out: Seq<LogItem>, base: int, f: Seq<u8>) -> Seq<Seq<u8>>
    decreases out.len() - base,
{
    if base < 0 || base >= out.len() {
        Seq::empty()
    } else {
        (match out[base] {
            LogItem::Edge { from, to } => if from@ == f {
                seq![to@]
            } else {
                Seq::empty()
            },
            LogItem::Node { .. } => Seq::empty(),
        }) + edges_from(out, base + 1, f)
    }
}

/// Whether a record is an edge from `f`.
pub open spec fn is_edge_from(it: LogItem, f: Seq<u8>) -> bool {
    match it {
        LogItem::Node { .. } => false,
        LogItem::Edge { from, .. } => from@ == f,
    }
}

/// Whether the stream holds a node for digest `d`.
pub open spec fn has_node(out: Seq<LogItem>, d: Seq<u8>) -> bool {
    exists|a: int| 0 <= a < out.len() && is_node(#[trigger] out[a]) && node_sha(out[a]) == d
}

/// Whether no digest has two nodes in the stream: each commit is visited
/// at most once.
pub open spec fn nodes_distinct(out: Seq<LogItem>) -> bool {
    forall|a: int, b: int|
        0 <= a < b < out.len() && is_node(#[trigger] out[a]) && is_node(#[trigger] out[b])
            ==> node_sha(out[a]) != node_sha(out[b])
}

/// Whether the visited set holds digest `k`.
pub open spec fn seen_has(s: Seq<Vec<u8>>, k: Seq<u8>) -> bool {
    exists|i: int| 0 <= i < s.len() && (#[trigger] s[i])@ == k
}

/// Every node in the stream is recorded in the visited set.
pub open spec fn marks_cover(out: Seq<LogItem>, seen: Seq<Vec<u8>>) -> bool {
    forall|d: Seq<u8>| #[trigger] has_node(out, d) ==> seen_has(seen, d)
}

/// Every digest in the visited set has its node in the stream: together
/// with `marks_cover`, the visited set is exactly the set of expanded
/// commits.
pub open spec fn seen_expanded(out: Seq<LogItem>, seen: Seq<Vec<u8>>) -> bool {
    forall|d: Seq<u8>| #[trigger] seen_has(seen, d) ==> has_node(out, d)
}

/// Whether the record stored at `d` decompresses and decodes to a commit.
pub open spec fn stored_commit(s: Seq<(Seq<u8>, Seq<u8>)>, d: Seq<u8>) -> bool {
    store_contains(s, d) && exists|x: Seq<u8>|
        store_get(s, d) == #[trigger] zlib_of(x) && (obj_decode_spec(x) matches Ok(
            GitObjectV::Commit(_),
        ))
}

/// A store over which every walk from a stored commit succeeds: each
/// stored commit's parents are themselves stored commits.
pub open spec fn commit_closed(s: Seq<(Seq<u8>, Seq<u8>)>) -> bool {
    forall|d: Seq<u8>, x: Seq<u8>| #![trigger store_get(s, d), zlib_of(x)]
        store_contains(s, d) && store_get(s, d) == zlib_of(x) ==> match obj_decode_spec(x) {
            Ok(GitObjectV::Commit(ps)) => forall|u: int|
                0 <= u < parents_of(ps).len() ==> stored_commit(s, #[trigger] parents_of(ps)[u]),
            _ => true,
        }
}

/// How many store records are not yet in the visited set: the measure
/// that bounds the walk.
pub open spec fn unvisited(s: Seq<(Seq<u8>, Seq<u8>)>, seen: Seq<Vec<u8>>) -> nat
    decreases s.len(),
{
    if s.len() == 0 {
        0
    } else {
        (if seen_has(seen, s[0].0) {
            0nat
        } else {
            1nat
        }) + unvisited(s.drop_first(), seen)
    }
}

pub(crate) proof fn lemma_unvisited_monotone(s: Seq<(Seq<u8>, Seq<u8>)>, s1: Seq<Vec<u8>>, s2: Seq<Vec<u8>>)
    requires
        forall|x: Seq<u8>| #[trigger] seen_has(s1, x) ==> seen_has(s2, x),
    ensures
        unvisited(s, s2) <= unvisited(s, s1),
    decreases s.len(),
{
    if s.len() > 0 {
        lemma_unvisited_monotone(s.drop_first(), s1, s2);
    }
}

pub(crate) proof fn lemma_seen_push(s: Seq<Vec<u8>>, k: Vec<u8>)
    ensures
        seen_has(s.push(k), k@),
        forall|x: Seq<u8>| #[trigger] seen_has(s, x) ==> seen_has(s.push(k), x),
        forall|x: Seq<u8>| #[trigger] seen_has(s.push(k), x) ==> x == k@ || seen_has(s, x),
{
    assert(s.push(k)[s.len() as int] == k);
    assert forall|x: Seq<u8>| #[trigger] seen_has(s, x) implies seen_has(s.push(k), x) by {
        let i = choose|i: int| 0 <= i < s.len() && (#[trigger] s[i])@ == x;
        assert(s.push(k)[i] == s[i]);
    }
    assert forall|x: Seq<u8>| #[trigger] seen_has(s.push(k), x) implies x == k@ || seen_has(
        s,
        x,
    ) by {
        let i = choose|i: int| 0 <= i < s.push(k).len() && (#[trigger] s.push(k)[i])@ == x;
        if i < s.len() {
            assert(s[i]@ == x);
        }
    }
}

pub(crate) proof fn lemma_unvisited_mark(s: Seq<(Seq<u8>, Seq<u8>)>, seen: Seq<Vec<u8>>, k: Vec<u8>)
    requires
        !seen_has(seen, k@),
    ensures
        unvisited(s, seen.push(k)) <= unvisited(s, seen),
        store_contains(s, k@) ==> unvisited(s, seen.push(k)) < unvisited(s, seen),
    decreases s.len(),
{
    lemma_seen_push(seen, k);
    lemma_unvisited_monotone(s, seen, seen.push(k));
    if s.len() > 0 {
        if s[0].0 == k@ {
            assert(seen_has(seen.push(k), s[0].0));
            assert(!seen_has(seen, s[0].0));
            lemma_unvisited_monotone(s.drop_first(), seen, seen.push(k));
        } else {
            if store_contains(s, k@) {
                assert(store_contains(s.drop_first(), k@));
                lemma_unvisited_mark(s.drop_first(), seen, k);
                assert(seen_has(seen, s[0].0) ==> seen_has(seen.push(k), s[0].0));
            }
        }
    }
}

/// Whether the visited set holds this digest.
pub fn seen_contains(seen: &Vec<Vec<u8>>, k: &Vec<u8>) -> (r: bool)
    ensures
        r == seen_has(seen@, k@),
{
    let mut i: usize = 0;
    while i < seen.len()
        invariant
            i <= seen@.len(),
            forall|j: int| 0 <= j < i ==> (#[trigger] seen@[j])@ != k@,
        decreases seen@.len() - i,
    {
        if crate::kvcodec::bytes_eq(&seen[i], k) {
            assert(seen@[i as int]@ == k@);
            return true;
        }
        i = i + 1;
    }
    proof {
        if seen_has(seen@, k@) {
            let j = choose|j: int| 0 <= j < seen@.len() && (#[trigger] seen@[j])@ == k@;
            assert(seen@[j]@ != k@);
        }
    }
    false
}

/// The first line of a message: up to its first newline, or all of it.
pub open spec fn first_line(m: Seq<u8>) -> Seq<u8> {
    let e = find_byte(m, 10u8, 0);
    if e < 0 {
        m
    } else {
        m.subrange(0, e)
    }
}

/// A label-safe rendering: backslashes and double quotes gain a leading
/// backslash.
pub open spec fn escaped(m: Seq<u8>) -> Seq<u8>
    decreases m.len(),
{
    if m.len() == 0 {
        Seq::empty()
    } else if m[0] == 92 || m[0] == 34 {
        seq![92u8, m[0]] + escaped(m.drop_first())
    } else {
        seq![m[0]] + escaped(m.drop_first())
    }
}

/// The label a commit's node carries: its first message line, escaped.
pub open spec fn label_of(ps: Seq<KvPairV>) -> Seq<u8> {
    escaped(first_line(msg_of(ps)))
}

proof fn lemma_escaped_push(m: Seq<u8>, b: u8)
    ensures
        escaped(m.push(b)) == escaped(m) + (if b == 92 || b == 34 {
            seq![92u8, b]
        } else {
            seq![b]
        }),
    decreases m.len(),
{
    let tailbit: Seq<u8> = if b == 92 || b == 34 {
        seq![92u8, b]
    } else {
        seq![b]
    };
    if m.len() == 0 {
        assert(m.push(b).drop_first() =~= Seq::<u8>::empty());
        assert(escaped(Seq::<u8>::empty()) =~= Seq::<u8>::empty());
        assert(m.push(b)[0] == b);
        assert(escaped(m.push(b)) =~= escaped(m) + tailbit);
    } else {
        assert(m.push(b).drop_first() =~= m.drop_first().push(b));
        lemma_escaped_push(m.drop_first(), b);
        assert(m.push(b)[0] == m[0]);
        assert(escaped(m.push(b)) =~= escaped(m) + tailbit);
    }
}

/// Render a message's first line as a label: cut at the first newline,
/// escape backslashes and quotes.
fn make_label(msg: &Vec<u8>) -> (r: Vec<u8>)
    ensures
        r@ == escaped(first_line(msg@)),
{
    let end = match find_byte_from(msg, 10u8, 0) {
        Some(e) => e,
        None => msg.len(),
    };
    proof {
        if find_byte(msg@, 10u8, 0) < 0 {
            assert(first_line(msg@) == msg@);
            assert(msg@.subrange(0, msg@.len() as int) =~= msg@);
        }
    }
    let line = copy_range(msg, 0, end);
    let ghost fl = first_line(msg@);
    proof {
        assert(line@ == fl);
    }
    let mut r: Vec<u8> = Vec::new();
    let mut t: usize = 0;
    proof {
        assert(r@ =~= escaped(fl.take(0)));
    }
    while t < line.len()
        invariant
            t <= line@.len(),
            line@ == fl,
            r@ == escaped(fl.take(t as int)),
        decreases line@.len() - t,
    {
        let b = line[t];
        if b == 92 || b == 34 {
            r.push(92);
        }
        r.push(b);
        proof {
            assert(fl.take(t + 1) =~= fl.take(t as int).push(b));
            lemma_escaped_push(fl.take(t as int), b);
        }
        t = t + 1;
    }
    proof {
        assert(fl.take(fl.len() as int) =~= fl);
    }
    r
}

} // verus!

verus! {

/// The header key under which a commit records its parents.
pub open spec fn parent_key() -> Seq<u8> {
    seq![112u8, 97u8, 114u8, 101u8, 110u8, 116u8]
}

/// The parent digests a commit lists, in recorded order.
pub open spec fn parents_of(ps: Seq<KvPairV>) -> Seq<Seq<u8>> {
    let i = find_key(ps, parent_key());
    if i >= 0 {
        ps[i].values
    } else {
        Seq::empty()
    }
}

/// Whether `b` extends `a`: `a` is an unchanged prefix of `b`.
pub open spec fn extends<T>(b: Seq<T>, a: Seq<T>) -> bool {
    a.len() <= b.len() && forall|t: int| 0 <= t < a.len() ==> #[trigger] b[t] == a[t]
}

proof fn lemma_extends_trans<T>(c: Seq<T>, b: Seq<T>, a: Seq<T>)
    requires
        extends(c, b),
        extends(b, a),
    ensures
        extends(c, a),
{
}

proof fn lemma_has_node_push(out: Seq<LogItem>, it: LogItem)
    ensures
        forall|d: Seq<u8>| #[trigger] has_node(out.push(it), d) <==> (has_node(out, d) || (is_node(
            it,
        ) && node_sha(it) == d)),
{
    assert forall|d: Seq<u8>| #[trigger] has_node(out.push(it), d) implies (has_node(out, d) || (
    is_node(it) && node_sha(it) == d)) by {
        let a = choose|a: int|
            0 <= a < out.push(it).len() && is_node(#[trigger] out.push(it)[a]) && node_sha(
                out.push(it)[a],
            ) == d;
        if a < out.len() {
            assert(out.push(it)[a] == out[a]);
        } else {
            assert(out.push(it)[a] == it);
        }
    }
    assert forall|d: Seq<u8>| (has_node(out, d) || (is_node(it) && node_sha(it) == d)) implies
        #[trigger] has_node(out.push(it), d) by {
        if has_node(out, d) {
            let a = choose|a: int|
                0 <= a < out.len() && is_node(#[trigger] out[a]) && node_sha(out[a]) == d;
            assert(out.push(it)[a] == out[a]);
        } else {
            assert(out.push(it)[out.len() as int] == it);
        }
    }
}

proof fn lemma_has_node_extends(b: Seq<LogItem>, a: Seq<LogItem>, d: Seq<u8>)
    requires
        extends(b, a),
        has_node(a, d),
    ensures
        has_node(b, d),
{
    let t = choose|t: int| 0 <= t < a.len() && is_node(#[trigger] a[t]) && node_sha(a[t]) == d;
    assert(b[t] == a[t]);
}

proof fn lemma_edges_stable(
    prev: Seq<LogItem>,
    now: Seq<LogItem>,
    base: int,
    sha: Seq<u8>,
    pvals: Seq<Seq<u8>>,
    bound: int,
)
    requires
        extends(now, prev),
        0 <= base,
        forall|u: int|
            0 <= u < bound ==> #[trigger] has_edge(prev, base, sha, pvals[u]),
    ensures
        forall|u: int|
            0 <= u < bound ==> #[trigger] has_edge(now, base, sha, pvals[u]),
{
    assert forall|u: int| 0 <= u < bound implies #[trigger] has_edge(
        now,
        base,
        sha,
        pvals[u],
    ) by {
        assert(has_edge(prev, base, sha, pvals[u]));
        let a = choose|a: int|
            base <= a < prev.len() && is_edge_for(#[trigger] prev[a], sha, pvals[u]);
        assert(now[a] == prev[a]);
        assert(base <= a < now.len() && is_edge_for(now[a], sha, pvals[u]));
    }
}

/// The edge source a record carries.
pub open spec fn edge_src(it: LogItem) -> Seq<u8> {
    match it {
        LogItem::Node { .. } => Seq::empty(),
        LogItem::Edge { from, .. } => from@,
    }
}

proof fn lemma_seen_extends(c2: Seq<Vec<u8>>, c1: Seq<Vec<u8>>)
    requires
        extends(c2, c1),
    ensures
        forall|d: Seq<u8>| #[trigger] seen_has(c1, d) ==> seen_has(c2, d),
{
    assert forall|d: Seq<u8>| #[trigger] seen_has(c1, d) implies seen_has(c2, d) by {
        let i = choose|i: int| 0 <= i < c1.len() && (#[trigger] c1[i])@ == d;
        assert(c2[i] == c1[i]);
    }
}

/// The edge target a record carries.
pub open spec fn edge_to(it: LogItem) -> Seq<u8> {
    match it {
        LogItem::Node { .. } => Seq::empty(),
        LogItem::Edge { to, .. } => to@,
    }
}

proof fn lemma_edges_from_push(out: Seq<LogItem>, base: int, f: Seq<u8>, it: LogItem)
    requires
        0 <= base <= out.len(),
    ensures
        edges_from(out.push(it), base, f) == edges_from(out, base, f) + (if is_edge_from(it, f) {
            seq![edge_to(it)]
        } else {
            Seq::<Seq<u8>>::empty()
        }),
    decreases out.len() - base,
{
    let tailbit: Seq<Seq<u8>> = if is_edge_from(it, f) {
        seq![edge_to(it)]
    } else {
        Seq::<Seq<u8>>::empty()
    };
    if base == out.len() {
        assert(out.push(it)[base] == it);
        assert(edges_from(out, base, f) =~= Seq::<Seq<u8>>::empty());
        assert(edges_from(out.push(it), base + 1, f) =~= Seq::<Seq<u8>>::empty());
        assert(edges_from(out.push(it), base, f) =~= edges_from(out, base, f) + tailbit);
    } else {
        assert(out.push(it)[base] == out[base]);
        lemma_edges_from_push(out, base + 1, f, it);
        assert(edges_from(out.push(it), base, f) =~= edges_from(out, base, f) + tailbit);
    }
}

proof fn lemma_edges_from_extend(out1: Seq<LogItem>, out2: Seq<LogItem>, base: int, f: Seq<u8>)
    requires
        extends(out2, out1),
        0 <= base,
        forall|a: int| out1.len() <= a < out2.len() ==> !is_edge_from(#[trigger] out2[a], f),
    ensures
        edges_from(out2, base, f) == edges_from(out1, base, f),
    decreases out2.len() - base,
{
    if base < out1.len() {
        assert(out2[base] == out1[base]);
        lemma_edges_from_extend(out1, out2, base + 1, f);
        assert(edges_from(out2, base, f) =~= edges_from(out1, base, f));
    } else if base < out2.len() {
        assert(!is_edge_from(out2[base], f));
        lemma_edges_from_extend(out1, out2, base + 1, f);
        assert(edges_from(out1, base, f) =~= Seq::<Seq<u8>>::empty());
        assert(edges_from(out2, base, f) =~= edges_from(out1, base, f));
    } else {
        assert(edges_from(out2, base, f) =~= Seq::<Seq<u8>>::empty());
        assert(edges_from(out1, base, f) =~= Seq::<Seq<u8>>::empty());
    }
}

/// Copy a list of byte strings.
pub(crate) fn clone_vecs(src: &Vec<Vec<u8>>) -> (r: Vec<Vec<u8>>)
    ensures
        r@.len() == src@.len(),
        forall|t: int| 0 <= t < src@.len() ==> (#[trigger] r@[t])@ == src@[t]@,
{
    let mut r: Vec<Vec<u8>> = Vec::new();
    let mut i: usize = 0;
    while i < src.len()
        invariant
            i <= src@.len(),
            r@.len() == i,
            forall|t: int| 0 <= t < i ==> (#[trigger] r@[t])@ == src@[t]@,
        decreases src@.len() - i,
    {
        let c = copy_range(&src[i], 0, src[i].len());
        proof {
            assert(src@[i as int]@.subrange(0, src@[i as int]@.len() as int) =~= src@[i as int]@);
        }
        r.push(c);
        i = i + 1;
    }
    r
}

/// Expand one marked commit: emit its node, then one edge per parent in
/// recorded order, expanding each parent not yet visited.
#[verifier::loop_isolation(false)]
#[verifier::rlimit(100)]
fn visit(store: &MemStore, sha: &Vec<u8>, seen: &mut Vec<Vec<u8>>, out: &mut Vec<LogItem>) -> (r:
    Result<(), OzError>)
    requires
        seen_has(old(seen)@, sha@),
        !has_node(old(out)@, sha@),
        nodes_distinct(old(out)@),
        marks_cover(old(out)@, old(seen)@),
        forall|d: Seq<u8>|
            #[trigger] seen_has(old(seen)@, d) && d != sha@ ==> has_node(old(out)@, d),
    ensures
        extends(final(out)@, old(out)@),
        extends(final(seen)@, old(seen)@),
        nodes_distinct(final(out)@),
        marks_cover(final(out)@, final(seen)@),
        r is Ok ==> seen_expanded(final(out)@, final(seen)@),
        (commit_closed(store@) && stored_commit(store@, sha@)) ==> r is Ok,
        unvisited(store@, final(seen)@) <= unvisited(store@, old(seen)@),
        r is Ok ==> final(out)@.len() > old(out)@.len() && is_node(
            final(out)@[old(out)@.len() as int],
        ) && node_sha(final(out)@[old(out)@.len() as int]) == sha@,
        r is Ok ==> forall|a: int|
            old(out)@.len() <= a < final(out)@.len() && !is_node(#[trigger] final(out)@[a])
                ==> edge_src(final(out)@[a]) == sha@ || !seen_has(
                old(seen)@,
                edge_src(final(out)@[a]),
            ),
        forall|x: Seq<u8>|
            store_contains(store@, sha@) && store_get(store@, sha@) == #[trigger] zlib_of(x)
                ==> match obj_decode_spec(x) {
                Ok(GitObjectV::Commit(ps)) => r is Ok ==> node_label(
                    final(out)@[old(out)@.len() as int],
                ) == label_of(ps) && edges_from(final(out)@, old(out)@.len() as int, sha@)
                    == parents_of(ps) && forall|u: int|
                    0 <= u < parents_of(ps).len() ==> #[trigger] has_edge(
                        final(out)@,
                        old(out)@.len() as int,
                        sha@,
                        parents_of(ps)[u],
                    ),
                Ok(_) => r == Err::<(), OzError>(OzError::InconsistentHistory),
                Err(e) => r == Err::<(), OzError>(e),
            },
    decreases unvisited(store@, old(seen)@),
{
    let ghost base_out = out@;
    let ghost base_seen = seen@;
    let robj = store.object_read(sha);
    let ghost rg = robj;
    proof {
        assert forall|x: Seq<u8>|
            store_contains(store@, sha@) && store_get(store@, sha@) == #[trigger] zlib_of(
            x,
        ) implies crate::store::obj_matches(rg, obj_decode_spec(x)) by {}
    }
    let obj = match robj {
        Ok(o) => o,
        Err(e) => {
            proof {
                if commit_closed(store@) && stored_commit(store@, sha@) {
                    let x = choose|x: Seq<u8>|
                        store_get(store@, sha@) == #[trigger] zlib_of(x) && (obj_decode_spec(x)
                            matches Ok(GitObjectV::Commit(_)));
                    assert(crate::store::obj_matches(rg, obj_decode_spec(x)));
                    assert(false);
                }
            }
            return Err(e);
        },
    };
    let ghost odv = obj.deep_view();
    let c = match obj {
        GitObject::Commit(c) => c,
        _ => {
            proof {
                if commit_closed(store@) && stored_commit(store@, sha@) {
                    let x = choose|x: Seq<u8>|
                        store_get(store@, sha@) == #[trigger] zlib_of(x) && (obj_decode_spec(x)
                            matches Ok(GitObjectV::Commit(_)));
                    assert(crate::store::obj_matches(rg, obj_decode_spec(x)));
                    assert(obj_decode_spec(x)->Ok_0 == odv);
                    assert(!(odv matches GitObjectV::Commit(_)));
                    assert(false);
                }
            }
            return Err(OzError::InconsistentHistory);
        },
    };
    proof {
        assert(odv == GitObjectV::Commit(c.data.deep_view()));
    }
    let mut mk: Vec<u8> = Vec::new();
    mk.push(0u8);
    proof {
        assert(mk@ =~= msg_key());
    }
    let mi = match find_pair(&c.data, &mk) {
        Some(t) => t,
        None => {
            proof {
                if commit_closed(store@) && stored_commit(store@, sha@) {
                    let x = choose|x: Seq<u8>|
                        store_get(store@, sha@) == #[trigger] zlib_of(x) && (obj_decode_spec(x)
                            matches Ok(GitObjectV::Commit(_)));
                    assert(crate::store::obj_matches(rg, obj_decode_spec(x)));
                    crate::objcodec::lemma_decode_commit_msg(x);
                    assert(find_key(c.data.deep_view(), msg_key()) >= 0);
                    assert(false);
                }
            }
            return Err(OzError::MalformedCommit);
        },
    };
    if c.data[mi].values.len() == 0 {
        proof {
            if commit_closed(store@) && stored_commit(store@, sha@) {
                let x = choose|x: Seq<u8>|
                    store_get(store@, sha@) == #[trigger] zlib_of(x) && (obj_decode_spec(x)
                        matches Ok(GitObjectV::Commit(_)));
                assert(crate::store::obj_matches(rg, obj_decode_spec(x)));
                crate::objcodec::lemma_decode_commit_msg(x);
                assert(c.data.deep_view()[mi as int].values.len() == c.data@[
                    mi as int].values@.len());
                assert(false);
            }
        }
        return Err(OzError::MalformedCommit);
    }
    let ghost ps = c.data.deep_view();
    proof {
        assert(mk@ =~= msg_key());
        assert(find_key(ps, msg_key()) == mi);
        assert(ps[mi as int].values.len() == c.data@[mi as int].values@.len());
        assert(ps[mi as int].values[0] == c.data@[mi as int].values@[0].deep_view());
        assert(c.data@[mi as int].values@[0].deep_view() =~= c.data@[mi as int].values@[0]@);
        assert(msg_of(ps) == c.data@[mi as int].values@[0]@);
    }
    let label = make_label(&c.data[mi].values[0]);
    let node = LogItem::Node { sha: copy_range(sha, 0, sha.len()), label };
    proof {
        assert(sha@.subrange(0, sha@.len() as int) =~= sha@);
        assert(is_node(node) && node_sha(node) == sha@);
        assert(node_label(node) == label_of(ps));
    }
    out.push(node);
    proof {
        lemma_has_node_push(base_out, node);
        assert(nodes_distinct(out@)) by {
            assert forall|a: int, b: int|
                0 <= a < b < out@.len() && is_node(#[trigger] out@[a]) && is_node(
                    #[trigger] out@[b],
                ) implies node_sha(out@[a]) != node_sha(out@[b]) by {
                if b == out@.len() - 1 {
                    assert(out@[a] == base_out[a]);
                    if node_sha(out@[a]) == sha@ {
                        assert(has_node(base_out, sha@));
                    }
                } else {
                    assert(out@[a] == base_out[a] && out@[b] == base_out[b]);
                }
            }
        }
        assert(marks_cover(out@, seen@)) by {
            assert forall|d: Seq<u8>| #[trigger] has_node(out@, d) implies seen_has(seen@, d) by {
                assert(out@ == base_out.push(node));
                if has_node(base_out, d) {
                } else {
                    assert(d == sha@);
                }
            }
        }
        assert(extends(out@, base_out));
        assert(seen_expanded(out@, seen@)) by {
            assert forall|d: Seq<u8>| #[trigger] seen_has(seen@, d) implies has_node(out@, d) by {
                if d == sha@ {
                    assert(out@[base_out.len() as int] == node);
                } else {
                    assert(has_node(base_out, d));
                    lemma_has_node_extends(out@, base_out, d);
                }
            }
        }
        lemma_edges_from_push(base_out, base_out.len() as int, sha@, node);
        assert(edges_from(base_out, base_out.len() as int, sha@) =~= Seq::<Seq<u8>>::empty());
        assert(edges_from(out@, base_out.len() as int, sha@) =~= Seq::<Seq<u8>>::empty());
    }
    let mut pk: Vec<u8> = Vec::new();
    pk.push(112u8);
    pk.push(97u8);
    pk.push(114u8);
    pk.push(101u8);
    pk.push(110u8);
    pk.push(116u8);
    proof {
        assert(pk@ =~= parent_key());
    }
    let ghost after_node_out = out@;
    match find_pair(&c.data, &pk) {
        None => {
            proof {
                assert(pk@ == parent_key());
                assert(find_key(ps, parent_key()) == -1);
                assert(parents_of(ps) =~= Seq::<Seq<u8>>::empty());
                assert(edges_from(out@, base_out.len() as int, sha@) == parents_of(ps));
            }
        },
        Some(pi) => {
            let parents = clone_vecs(&c.data[pi].values);
            let ghost pvals = Seq::new(parents@.len() as nat, |u: int| parents@[u]@);
            proof {
                assert(pk@ == parent_key());
                assert(find_key(ps, parent_key()) == pi);
                assert(parents_of(ps) == ps[pi as int].values);
                assert(parents_of(ps) =~= pvals) by {
                    assert forall|u: int| 0 <= u < pvals.len() implies parents_of(ps)[u]
                        == pvals[u] by {
                        assert(ps[pi as int].values[u] == c.data@[pi as int].values@[
                            u].deep_view());
                        assert(c.data@[pi as int].values@[u].deep_view() =~= c.data@[
                            pi as int].values@[u]@);
                        assert(pvals[u] == parents@[u]@);
                    }
                }
            }
            let mut t: usize = 0;
            while t < parents.len()
                invariant
                    t <= parents@.len(),
                    pvals == Seq::new(parents@.len() as nat, |u: int| parents@[u]@),
                    extends(out@, after_node_out),
                    extends(out@, base_out),
                    extends(seen@, base_seen),
                    seen_has(seen@, sha@),
                    nodes_distinct(out@),
                    marks_cover(out@, seen@),
                    seen_expanded(out@, seen@),
                    unvisited(store@, seen@) <= unvisited(store@, base_seen),
                    out@.len() > base_out.len(),
                    edges_from(out@, base_out.len() as int, sha@) == pvals.take(t as int),
                    forall|a: int|
                        base_out.len() <= a < out@.len() && !is_node(#[trigger] out@[a])
                            ==> edge_src(out@[a]) == sha@ || !seen_has(
                            base_seen,
                            edge_src(out@[a]),
                        ),
                    forall|u: int|
                        0 <= u < t ==> #[trigger] has_edge(
                            out@,
                            base_out.len() as int,
                            sha@,
                            pvals[u],
                        ),
                    out@[base_out.len() as int] == after_node_out[base_out.len() as int],
                    is_node(out@[base_out.len() as int]),
                    node_sha(out@[base_out.len() as int]) == sha@,
                decreases parents@.len() - t,
            {
                let ghost before_out = out@;
                let ghost before_seen = seen@;
                let edge = LogItem::Edge {
                    from: copy_range(sha, 0, sha.len()),
                    to: copy_range(&parents[t], 0, parents[t].len()),
                };
                out.push(edge);
                proof {
                    assert(sha@.subrange(0, sha@.len() as int) =~= sha@);
                    assert(!is_node(edge));
                    lemma_has_node_push(before_out, edge);
                    assert(nodes_distinct(out@)) by {
                        assert forall|a: int, b: int|
                            0 <= a < b < out@.len() && is_node(#[trigger] out@[a]) && is_node(
                                #[trigger] out@[b],
                            ) implies node_sha(out@[a]) != node_sha(out@[b]) by {
                            assert(out@[a] == before_out[a]);
                            if b < out@.len() - 1 {
                                assert(out@[b] == before_out[b]);
                            } else {
                                assert(out@[b] == edge);
                            }
                        }
                    }
                    assert(marks_cover(out@, seen@)) by {
                        assert forall|d: Seq<u8>| #[trigger] has_node(out@, d) implies seen_has(
                            seen@,
                            d,
                        ) by {
                            assert(out@ == before_out.push(edge));
                        }
                    }
                    assert(extends(out@, before_out));
                    lemma_extends_trans(out@, before_out, base_out);
                    lemma_extends_trans(out@, before_out, after_node_out);
                    assert(parents@[t as int]@.subrange(
                        0,
                        parents@[t as int]@.len() as int,
                    ) =~= parents@[t as int]@);
                    assert(pvals[t as int] == parents@[t as int]@);
                    assert(is_edge_for(edge, sha@, pvals[t as int]));
                    assert(out@[out@.len() - 1] == edge);
                    assert(has_edge(out@, base_out.len() as int, sha@, pvals[t as int]));
                    lemma_edges_stable(before_out, out@, base_out.len() as int, sha@, pvals, t as int);
                    lemma_edges_from_push(before_out, base_out.len() as int, sha@, edge);
                    assert(is_edge_from(edge, sha@) && edge_to(edge) == pvals[t as int]);
                    assert(pvals.take(t as int).push(pvals[t as int]) =~= pvals.take(t + 1));
                    assert(edges_from(out@, base_out.len() as int, sha@) == pvals.take(t + 1));
                    assert forall|a: int|
                        base_out.len() <= a < out@.len() && !is_node(#[trigger] out@[a])
                            implies edge_src(out@[a]) == sha@ || !seen_has(
                        base_seen,
                        edge_src(out@[a]),
                    ) by {
                        if a < out@.len() - 1 {
                            assert(out@[a] == before_out[a]);
                        } else {
                            assert(out@[a] == edge);
                        }
                    }
                }
                if !seen_contains(seen, &parents[t]) {
                    let pcopy = copy_range(&parents[t], 0, parents[t].len());
                    proof {
                        assert(parents@[t as int]@.subrange(
                            0,
                            parents@[t as int]@.len() as int,
                        ) =~= parents@[t as int]@);
                        if commit_closed(store@) && stored_commit(store@, sha@) {
                            let x = choose|x: Seq<u8>|
                                store_get(store@, sha@) == #[trigger] zlib_of(x) && (
                                obj_decode_spec(x) matches Ok(GitObjectV::Commit(_)));
                            assert(crate::store::obj_matches(rg, obj_decode_spec(x)));
                            assert(store_get(store@, sha@) == zlib_of(x));
                            assert(obj_decode_spec(x)->Ok_0 == odv);
                            assert(pvals[t as int] == parents@[t as int]@);
                            assert(stored_commit(store@, parents@[t as int]@));
                        }
                    }
                    let ghost pv = parents@[t as int]@;
                    seen.push(pcopy);
                    proof {
                        lemma_seen_push(before_seen, pcopy);
                        assert(extends(seen@, before_seen));
                        lemma_extends_trans(seen@, before_seen, base_seen);
                        lemma_unvisited_mark(store@, before_seen, pcopy);
                        assert(marks_cover(out@, seen@)) by {
                            assert forall|d: Seq<u8>| #[trigger] has_node(out@, d) implies seen_has(
                                seen@,
                                d,
                            ) by {
                                assert(seen_has(before_seen, d));
                            }
                        }
                    }
                    if store.contains(&parents[t]) {
                        proof {
                            assert(!has_node(out@, pv)) by {
                                if has_node(out@, pv) {
                                    assert(seen_has(before_seen, pv));
                                }
                            }
                            assert(unvisited(store@, seen@) < unvisited(store@, base_seen));
                            assert forall|d: Seq<u8>| #[trigger] seen_has(seen@, d) && d != pv
                                implies has_node(out@, d) by {
                                assert(seen_has(before_seen, d));
                                assert(has_node(before_out, d));
                                lemma_has_node_extends(out@, before_out, d);
                            }
                        }
                        let ghost pre_call_out = out@;
                        let ghost pre_call_seen = seen@;
                        match visit(store, &parents[t], seen, out) {
                            Ok(_) => {},
                            Err(e) => {
                                proof {
                                    lemma_extends_trans(out@, pre_call_out, base_out);
                                    lemma_extends_trans(seen@, pre_call_seen, base_seen);
                                    lemma_unvisited_monotone_chain(
                                        store@,
                                        base_seen,
                                        pre_call_seen,
                                        seen@,
                                    );
                                    if commit_closed(store@) && stored_commit(store@, sha@) {
                                        assert(stored_commit(store@, parents@[t as int]@));
                                        assert(false);
                                    }
                                }
                                return Err(e);
                            },
                        }
                        proof {
                            lemma_extends_trans(out@, pre_call_out, base_out);
                            lemma_extends_trans(out@, pre_call_out, after_node_out);
                            lemma_extends_trans(seen@, pre_call_seen, base_seen);
                            lemma_unvisited_monotone_chain(store@, base_seen, pre_call_seen, seen@);
                            lemma_edges_stable(
                                pre_call_out,
                                out@,
                                base_out.len() as int,
                                sha@,
                                pvals,
                                t + 1,
                            );
                            assert(seen_has(seen@, sha@)) by {
                                let i = choose|i: int|
                                    0 <= i < pre_call_seen.len() && (#[trigger] pre_call_seen[i])@
                                        == sha@;
                                assert(seen@[i] == pre_call_seen[i]);
                            }
                            lemma_seen_extends(before_seen, base_seen);
                            lemma_seen_extends(pre_call_seen, base_seen);
                            assert(pv != sha@) by {
                                assert(seen_has(before_seen, sha@)) by {
                                    let i = choose|i: int|
                                        0 <= i < base_seen.len() && (#[trigger] base_seen[i])@
                                            == sha@;
                                    assert(before_seen[i] == base_seen[i]);
                                }
                            }
                            assert forall|a: int|
                                pre_call_out.len() <= a < out@.len() && !is_node(
                                    #[trigger] out@[a],
                                ) implies !is_edge_from(out@[a], sha@) by {
                                assert(edge_src(out@[a]) == pv || !seen_has(
                                    pre_call_seen,
                                    edge_src(out@[a]),
                                ));
                                assert(seen_has(pre_call_seen, sha@)) by {
                                    let i = choose|i: int|
                                        0 <= i < before_seen.len() && (
                                        #[trigger] before_seen[i])@ == sha@;
                                    assert(pre_call_seen[i] == before_seen[i]);
                                }
                            }
                            assert forall|a: int|
                                pre_call_out.len() <= a < out@.len() implies !is_edge_from(
                                #[trigger] out@[a],
                                sha@,
                            ) by {
                                if is_node(out@[a]) {
                                }
                            }
                            lemma_edges_from_extend(
                                pre_call_out,
                                out@,
                                base_out.len() as int,
                                sha@,
                            );
                            assert forall|a: int|
                                base_out.len() <= a < out@.len() && !is_node(#[trigger] out@[a])
                                    implies edge_src(out@[a]) == sha@ || !seen_has(
                                base_seen,
                                edge_src(out@[a]),
                            ) by {
                                if a < pre_call_out.len() {
                                    assert(out@[a] == pre_call_out[a]);
                                } else {
                                    assert(edge_src(out@[a]) == pv || !seen_has(
                                        pre_call_seen,
                                        edge_src(out@[a]),
                                    ));
                                    assert(!seen_has(base_seen, pv));
                                }
                            }
                        }
                    } else {
                        proof {
                            if commit_closed(store@) && stored_commit(store@, sha@) {
                                assert(stored_commit(store@, parents@[t as int]@));
                                assert(false);
                            }
                        }
                        return Err(OzError::NotFound);
                    }
                }
                proof {
                    assert forall|d: Seq<u8>| #[trigger] seen_has(seen@, d) implies has_node(
                        out@,
                        d,
                    ) by {
                        if seen_has(before_seen, d) {
                            assert(has_node(before_out, d));
                            lemma_has_node_extends(out@, before_out, d);
                        }
                    }
                }
                t = t + 1;
            }
            proof {
                assert(parents_of(ps) == pvals);
                assert forall|u: int| 0 <= u < parents_of(ps).len() implies #[trigger] has_edge(
                    out@,
                    base_out.len() as int,
                    sha@,
                    parents_of(ps)[u],
                ) by {
                    assert(has_edge(out@, base_out.len() as int, sha@, pvals[u]));
                }
            }
        },
    }
    proof {
        assert(after_node_out[base_out.len() as int] == node);
        assert forall|x: Seq<u8>|
            store_contains(store@, sha@) && store_get(store@, sha@) == #[trigger] zlib_of(
            x,
        ) implies match obj_decode_spec(x) {
            Ok(o) => o == GitObjectV::Commit(ps),
            Err(_) => false,
        } by {
            assert(crate::store::obj_matches(rg, obj_decode_spec(x)));
        }
        assert(node_label(out@[base_out.len() as int]) == label_of(ps));
    }
    Ok(())
}

proof fn lemma_unvisited_monotone_chain(
    s: Seq<(Seq<u8>, Seq<u8>)>,
    base: Seq<Vec<u8>>,
    mid: Seq<Vec<u8>>,
    now: Seq<Vec<u8>>,
)
    requires
        unvisited(s, mid) <= unvisited(s, base),
        unvisited(s, now) <= unvisited(s, mid),
    ensures
        unvisited(s, now) <= unvisited(s, base),
{
}

/// Walk the commit graph from `sha`, emitting a node for each commit not
/// yet in the visited set and an edge for every parent link, depth first
/// and in recorded parent order.  Each digest is expanded at most once —
/// the visited set guards every expansion — so the stream never holds two
/// nodes for one digest and the walk terminates on any graph shape.
pub fn log_graphviz(
    store: &MemStore,
    sha: &Vec<u8>,
    seen: &mut Vec<Vec<u8>>,
    out: &mut Vec<LogItem>,
) -> (r: Result<(), OzError>)
    requires
        nodes_distinct(old(out)@),
        marks_cover(old(out)@, old(seen)@),
        seen_expanded(old(out)@, old(seen)@),
    ensures
        extends(final(out)@, old(out)@),
        extends(final(seen)@, old(seen)@),
        nodes_distinct(final(out)@),
        marks_cover(final(out)@, final(seen)@),
        r is Ok ==> seen_expanded(final(out)@, final(seen)@),
        (commit_closed(store@) && stored_commit(store@, sha@)) ==> r is Ok,
        seen_has(old(seen)@, sha@) ==> r is Ok && final(out)@ == old(out)@ && final(seen)@
            == old(seen)@,
        (!seen_has(old(seen)@, sha@) && !store_contains(store@, sha@)) ==> r
            == Err::<(), OzError>(OzError::NotFound),
        (!seen_has(old(seen)@, sha@) && r is Ok) ==> has_node(final(out)@, sha@)
            && final(out)@.len() > old(out)@.len(),
        !seen_has(old(seen)@, sha@) ==> forall|x: Seq<u8>|
            store_contains(store@, sha@) && store_get(store@, sha@) == #[trigger] zlib_of(x)
                ==> match obj_decode_spec(x) {
                Ok(GitObjectV::Commit(ps)) => r is Ok ==> node_label(
                    final(out)@[old(out)@.len() as int],
                ) == label_of(ps) && edges_from(final(out)@, old(out)@.len() as int, sha@)
                    == parents_of(ps) && forall|u: int|
                    0 <= u < parents_of(ps).len() ==> #[trigger] has_edge(
                        final(out)@,
                        old(out)@.len() as int,
                        sha@,
                        parents_of(ps)[u],
                    ),
                Ok(_) => r == Err::<(), OzError>(OzError::InconsistentHistory),
                Err(e) => r == Err::<(), OzError>(e),
            },
{
    if seen_contains(seen, sha) {
        return Ok(());
    }
    let scopy = copy_range(sha, 0, sha.len());
    proof {
        assert(sha@.subrange(0, sha@.len() as int) =~= sha@);
    }
    let ghost base_seen = seen@;
    seen.push(scopy);
    proof {
        lemma_seen_push(base_seen, scopy);
        assert(extends(seen@, base_seen));
        assert(marks_cover(out@, seen@)) by {
            assert forall|d: Seq<u8>| #[trigger] has_node(out@, d) implies seen_has(seen@, d) by {
                assert(seen_has(base_seen, d));
            }
        }
        assert(!has_node(out@, sha@)) by {
            if has_node(out@, sha@) {
                assert(seen_has(base_seen, sha@));
            }
        }
        assert forall|d: Seq<u8>| #[trigger] seen_has(seen@, d) && d != sha@ implies has_node(
            out@,
            d,
        ) by {
            assert(seen_has(base_seen, d));
        }
    }
    if store.contains(sha) {
        let ghost pre_out = out@;
        let r = visit(store, sha, seen, out);
        proof {
            if r is Ok {
                assert(is_node(out@[pre_out.len() as int]) && node_sha(out@[pre_out.len() as int])
                    == sha@);
            }
        }
        r
    } else {
        proof {
            if stored_commit(store@, sha@) {
                assert(false);
            }
        }
        Err(OzError::NotFound)
    }
}

} // verus!
