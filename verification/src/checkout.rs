//! The tree materializer: reconstructs a tree object into a directory
//! plan, one action per entry — a file with a blob's exact bytes, or a
//! directory entered recursively.  An ancestor chain guards the recursion,
//! so a tree reached through itself is rejected rather than looped on.

use vstd::prelude::*;

use crate::OzError;
use crate::kvcodec::{find_key, find_pair};
use crate::objcodec::obj_decode_spec;
use crate::objects::{GitObject, GitObjectV, GitTree, TreeEntryV};
use crate::primitives::zlib_of;
use crate::store::{MemStore, store_contains, store_get};
use crate::treecodec::copy_range;
use crate::walk::{clone_vecs, extends, lemma_unvisited_mark, lemma_unvisited_monotone,
    seen_contains, seen_has, unvisited};

verus! {

/// One filesystem action of a checkout plan, in execution order.
pub enum FsAction {
    WriteFile { path: Vec<u8>, data: Vec<u8> },
    MakeDir { path: Vec<u8> },
}

/// The path of an entry under a base directory.
pub open spec fn joined(base: Seq<u8>, name: Seq<u8>) -> Seq<u8> {
    base + seq![47u8] + name
}

/// Whether the plan holds a file write of exactly these bytes at this path.
pub open spec fn has_write(out: Seq<FsAction>, path: Seq<u8>, data: Seq<u8>) -> bool {
    exists|a: int|
        0 <= a < out.len() && match #[trigger] out[a] {
            FsAction::WriteFile { path: p, data: d } => p@ == path && d@ == data,
            FsAction::MakeDir { .. } => false,
        }
}

/// Whether the plan holds a directory creation at this path.
pub open spec fn has_mkdir(out: Seq<FsAction>, path: Seq<u8>) -> bool {
    exists|a: int|
        0 <= a < out.len() && match #[trigger] out[a] {
            FsAction::WriteFile { .. } => false,
            FsAction::MakeDir { path: p } => p@ == path,
        }
}

/// The header key under which a commit names its tree.
pub open spec fn tree_key() -> Seq<u8> {
    seq![116u8, 114u8, 101u8, 101u8]
}

/// Whether the chain of trees being expanded holds digest `k`.
pub open spec fn chain_has(c: Seq<Seq<u8>>, k: Seq<u8>) -> bool {
    exists|i: int| 0 <= i < c.len() && #[trigger] c[i] == k
}

/// How many store records the chain does not hold: the measure that
/// bounds the materialization.
pub open spec fn unvisited_c(s: Seq<(Seq<u8>, Seq<u8>)>, c: Seq<Seq<u8>>) -> nat
    decreases s.len(),
{
    if s.len() == 0 {
        0
    } else {
        (if chain_has(c, s[0].0) {
            0nat
        } else {
            1nat
        }) + unvisited_c(s.drop_first(), c)
    }
}

proof fn lemma_unvisited_c_monotone(s: Seq<(Seq<u8>, Seq<u8>)>, c1: Seq<Seq<u8>>, c2: Seq<Seq<u8>>)
    requires
        forall|x: Seq<u8>| #[trigger] chain_has(c1, x) ==> chain_has(c2, x),
    ensures
        unvisited_c(s, c2) <= unvisited_c(s, c1),
    decreases s.len(),
{
    if s.len() > 0 {
        lemma_unvisited_c_monotone(s.drop_first(), c1, c2);
    }
}

proof fn lemma_chain_push(c: Seq<Seq<u8>>, k: Seq<u8>)
    ensures
        chain_has(c.push(k), k),
        forall|x: Seq<u8>| #[trigger] chain_has(c, x) ==> chain_has(c.push(k), x),
{
    assert(c.push(k)[c.len() as int] == k);
    assert forall|x: Seq<u8>| #[trigger] chain_has(c, x) implies chain_has(c.push(k), x) by {
        let i = choose|i: int| 0 <= i < c.len() && #[trigger] c[i] == x;
        assert(c.push(k)[i] == c[i]);
    }
}

proof fn lemma_unvisited_c_mark(s: Seq<(Seq<u8>, Seq<u8>)>, c: Seq<Seq<u8>>, k: Seq<u8>)
    requires
        !chain_has(c, k),
        store_contains(s, k),
    ensures
        unvisited_c(s, c.push(k)) < unvisited_c(s, c),
    decreases s.len(),
{
    lemma_chain_push(c, k);
    lemma_unvisited_c_monotone(s, c, c.push(k));
    if s.len() > 0 {
        if s[0].0 == k {
            assert(chain_has(c.push(k), s[0].0));
            assert(!chain_has(c, s[0].0));
            lemma_unvisited_c_monotone(s.drop_first(), c, c.push(k));
        } else {
            assert(store_contains(s.drop_first(), k));
            lemma_unvisited_c_mark(s.drop_first(), c, k);
            assert(chain_has(c, s[0].0) ==> chain_has(c.push(k), s[0].0));
        }
    }
}

/// The view of an executable chain.
pub open spec fn chain_view(c: Seq<Vec<u8>>) -> Seq<Seq<u8>> {
    Seq::new(c.len(), |i: int| c[i]@)
}

proof fn lemma_chain_view_has(c: Seq<Vec<u8>>, d: Seq<u8>)
    ensures
        chain_has(chain_view(c), d) == seen_has(c, d),
{
    if chain_has(chain_view(c), d) {
        let i = choose|i: int| 0 <= i < chain_view(c).len() && #[trigger] chain_view(c)[i] == d;
        assert(c[i]@ == d);
        assert(seen_has(c, d));
    }
    if seen_has(c, d) {
        let i = choose|i: int| 0 <= i < c.len() && (#[trigger] c[i])@ == d;
        assert(chain_view(c)[i] == d);
        assert(chain_has(chain_view(c), d));
    }
}

/// Whether every entry of a tree can be materialized from the store:
/// each target is stored and its record reads as a blob, or as a tree
/// not on the chain of trees being expanded whose own entries can be
/// materialized in turn.
pub open spec fn tree_entries_ok(
    s: Seq<(Seq<u8>, Seq<u8>)>,
    es: Seq<TreeEntryV>,
    c: Seq<Seq<u8>>,
) -> bool
    decreases unvisited_c(s, c),
    via tree_entries_ok_dec
{
    forall|t: int| #![trigger es[t]]
        0 <= t < es.len() ==> ({
            &&& store_contains(s, es[t].sha)
            &&& exists|x: Seq<u8>|
                store_get(s, es[t].sha) == #[trigger] zlib_of(x) && obj_decode_spec(x) is Ok
            &&& forall|x: Seq<u8>|
                store_get(s, es[t].sha) == #[trigger] zlib_of(x) ==> match obj_decode_spec(x) {
                    Ok(GitObjectV::Blob(_)) => true,
                    Ok(GitObjectV::Tree(es2)) => !chain_has(c, es[t].sha) && tree_entries_ok(
                        s,
                        es2,
                        c.push(es[t].sha),
                    ),
                    _ => false,
                }
        })
}

#[via_fn]
proof fn tree_entries_ok_dec(s: Seq<(Seq<u8>, Seq<u8>)>, es: Seq<TreeEntryV>, c: Seq<Seq<u8>>) {
    assert forall|t: int|
        0 <= t < es.len() && store_contains(s, (#[trigger] es[t]).sha) && !chain_has(
            c,
            es[t].sha,
        ) implies unvisited_c(s, c.push(es[t].sha)) < unvisited_c(s, c) by {
        lemma_unvisited_c_mark(s, c, es[t].sha);
    }
}

/// Join a base path and an entry name with one separator.
fn join_path(base: &Vec<u8>, name: &Vec<u8>) -> (r: Vec<u8>)
    ensures
        r@ == joined(base@, name@),
{
    let mut r = copy_range(base, 0, base.len());
    r.push(47);
    crate::kvcodec::append_range(&mut r, name);
    proof {
        assert(base@.subrange(0, base@.len() as int) =~= base@);
        assert(r@ =~= joined(base@, name@));
    }
    r
}

/// Materialize a tree into a plan: for every entry, read its target; a
/// blob becomes a file write of its exact payload, a tree becomes a
/// directory creation followed by its own entries, recursively; any other
/// object kind in entry position is a malformed tree.  The chain holds
/// the digests of the trees being expanded: meeting one again means the
/// stored graph reaches a tree through itself, which is rejected.
#[verifier::loop_isolation(false)]
pub fn checkout_tree(
    store: &MemStore,
    tree: &GitTree,
    path: &Vec<u8>,
    chain: Vec<Vec<u8>>,
    out: &mut Vec<FsAction>,
) -> (r: Result<(), OzError>)
    ensures
        extends(final(out)@, old(out)@),
        tree_entries_ok(store@, tree.items.deep_view(), chain_view(chain@)) ==> r is Ok,
        r is Ok ==> forall|t: int|
            0 <= t < tree.items@.len() ==> store_contains(
                store@,
                (#[trigger] tree.items@[t]).sha@,
            ),
        r is Ok ==> forall|t: int, x: Seq<u8>|
            0 <= t < tree.items@.len() && store_contains(store@, (#[trigger] tree.items@[t]).sha@)
                && store_get(store@, tree.items@[t].sha@) == #[trigger] zlib_of(x) ==> match
                obj_decode_spec(x) {
                Ok(GitObjectV::Blob(b)) => has_write(
                    final(out)@,
                    joined(path@, tree.items@[t].name@),
                    b,
                ),
                Ok(GitObjectV::Tree(_)) => has_mkdir(
                    final(out)@,
                    joined(path@, tree.items@[t].name@),
                ),
                _ => false,
            },
    decreases unvisited(store@, chain@), tree.items@.len(),
{
    let ghost base_out = out@;
    let mut t: usize = 0;
    let ghost items = tree.items@;
    while t < tree.items.len()
        invariant
            t <= items.len(),
            items == tree.items@,
            extends(out@, base_out),
            forall|u: int| 0 <= u < t ==> store_contains(store@, (#[trigger] items[u]).sha@),
            forall|u: int, x: Seq<u8>|
                0 <= u < t && store_contains(store@, (#[trigger] items[u]).sha@) && store_get(
                    store@,
                    items[u].sha@,
                ) == #[trigger] zlib_of(x) ==> match obj_decode_spec(x) {
                    Ok(GitObjectV::Blob(b)) => has_write(out@, joined(path@, items[u].name@), b),
                    Ok(GitObjectV::Tree(_)) => has_mkdir(out@, joined(path@, items[u].name@)),
                    _ => false,
                },
        decreases items.len() - t,
    {
        let entry_sha = copy_range(&tree.items[t].sha, 0, tree.items[t].sha.len());
        let entry_name = copy_range(&tree.items[t].name, 0, tree.items[t].name.len());
        proof {
            assert(items[t as int].sha@.subrange(0, items[t as int].sha@.len() as int)
                =~= items[t as int].sha@);
            assert(items[t as int].name@.subrange(0, items[t as int].name@.len() as int)
                =~= items[t as int].name@);
        }
        let ghost before = out@;
        let robj = store.object_read(&entry_sha);
        let ghost rg = robj;
        let obj = match robj {
            Ok(o) => o,
            Err(e) => {
                proof {
                    let dv = tree.items.deep_view();
                    let cv = chain_view(chain@);
                    if tree_entries_ok(store@, dv, cv) {
                        assert(dv[t as int] == items[t as int].deep_view());
                        let x = choose|x: Seq<u8>|
                            store_get(store@, dv[t as int].sha) == #[trigger] zlib_of(x)
                                && obj_decode_spec(x) is Ok;
                        assert(crate::store::obj_matches(rg, obj_decode_spec(x)));
                        assert(false);
                    }
                }
                return Err(e);
            },
        };
        let ghost odv = obj.deep_view();
        let target = join_path(path, &entry_name);
        match obj {
            GitObject::Blob(b) => {
                let ghost bdata = b.buffer@;
                let action = FsAction::WriteFile { path: target, data: b.buffer };
                out.push(action);
                proof {
                    assert(extends(out@, before));
                    assert(has_write(out@, joined(path@, items[t as int].name@), bdata)) by {
                        assert(out@[out@.len() - 1] == action);
                    }
                }
            },
            GitObject::Tree(sub) => {
                if seen_contains(&chain, &entry_sha) {
                    proof {
                        let dv = tree.items.deep_view();
                        let cv = chain_view(chain@);
                        if tree_entries_ok(store@, dv, cv) {
                            assert(dv[t as int] == items[t as int].deep_view());
                            let x = choose|x: Seq<u8>|
                                store_get(store@, dv[t as int].sha) == #[trigger] zlib_of(x)
                                    && obj_decode_spec(x) is Ok;
                            assert(crate::store::obj_matches(rg, obj_decode_spec(x)));
                            assert(obj_decode_spec(x)->Ok_0 == odv);
                            lemma_chain_view_has(chain@, entry_sha@);
                            assert(false);
                        }
                    }
                    return Err(OzError::MalformedTree);
                }
                let mut child_chain = clone_vecs(&chain);
                proof {
                    lemma_chain_same(store@, chain@, child_chain@);
                }
                let ghost chain0 = child_chain@;
                child_chain.push(copy_range(&entry_sha, 0, entry_sha.len()));
                proof {
                    assert(entry_sha@.subrange(0, entry_sha@.len() as int) =~= entry_sha@);
                    let k = child_chain@[child_chain@.len() - 1];
                    assert(child_chain@ == chain0.push(k));
                    assert(!seen_has(chain0, k@)) by {
                        if seen_has(chain0, k@) {
                            let i = choose|i: int|
                                0 <= i < chain0.len() && (#[trigger] chain0[i])@ == k@;
                            assert(chain@[i]@ == k@);
                        }
                    }
                    lemma_unvisited_mark(store@, chain0, k);
                    assert(store_contains(store@, k@));
                    assert(unvisited(store@, child_chain@) < unvisited(store@, chain@));
                }
                let action = FsAction::MakeDir { path: target };
                out.push(action);
                let ghost mid = out@;
                proof {
                    assert(extends(mid, before));
                    assert(has_mkdir(mid, joined(path@, items[t as int].name@))) by {
                        assert(mid[mid.len() - 1] == action);
                    }
                }
                let ghost sub_items_v = sub.items.deep_view();
                let subtree = GitTree { items: sub.items };
                let target2 = join_path(path, &entry_name);
                let ghost ccv = chain_view(child_chain@);
                proof {
                    assert(ccv =~= chain_view(chain@).push(entry_sha@));
                }
                match checkout_tree(store, &subtree, &target2, child_chain, out) {
                    Ok(_) => {},
                    Err(e) => {
                        proof {
                            let dv = tree.items.deep_view();
                            let cv = chain_view(chain@);
                            if tree_entries_ok(store@, dv, cv) {
                                assert(dv[t as int] == items[t as int].deep_view());
                                let x = choose|x: Seq<u8>|
                                    store_get(store@, dv[t as int].sha) == #[trigger] zlib_of(x)
                                        && obj_decode_spec(x) is Ok;
                                assert(crate::store::obj_matches(rg, obj_decode_spec(x)));
                                assert(obj_decode_spec(x)->Ok_0 == odv);
                                assert(tree_entries_ok(store@, sub_items_v, cv.push(
                                    dv[t as int].sha,
                                )));
                                assert(false);
                            }
                        }
                        return Err(e);
                    },
                }
                proof {
                    lemma_plan_extends(mid, out@);
                    assert(extends(out@, before));
                    assert(has_mkdir(out@, joined(path@, items[t as int].name@)));
                }
            },
            _ => {
                proof {
                    let dv = tree.items.deep_view();
                    let cv = chain_view(chain@);
                    if tree_entries_ok(store@, dv, cv) {
                        assert(dv[t as int] == items[t as int].deep_view());
                        let x = choose|x: Seq<u8>|
                            store_get(store@, dv[t as int].sha) == #[trigger] zlib_of(x)
                                && obj_decode_spec(x) is Ok;
                        assert(crate::store::obj_matches(rg, obj_decode_spec(x)));
                        assert(obj_decode_spec(x)->Ok_0 == odv);
                        assert(false);
                    }
                }
                return Err(OzError::MalformedTree);
            },
        }
        proof {
            assert(extends(out@, before));
            lemma_plan_extends(before, out@);
            assert forall|u: int, x: Seq<u8>|
                0 <= u < t + 1 && store_contains(store@, (#[trigger] items[u]).sha@) && store_get(
                    store@,
                    items[u].sha@,
                ) == #[trigger] zlib_of(x) implies match obj_decode_spec(x) {
                Ok(GitObjectV::Blob(b)) => has_write(out@, joined(path@, items[u].name@), b),
                Ok(GitObjectV::Tree(_)) => has_mkdir(out@, joined(path@, items[u].name@)),
                _ => false,
            } by {
                if u < t {
                    assert(match obj_decode_spec(x) {
                        Ok(GitObjectV::Blob(b)) => has_write(
                            before,
                            joined(path@, items[u].name@),
                            b,
                        ),
                        Ok(GitObjectV::Tree(_)) => has_mkdir(before, joined(path@, items[u].name@)),
                        _ => false,
                    });
                } else {
                    assert(store_contains(store@, entry_sha@) && store_get(store@, entry_sha@)
                        == zlib_of(x));
                    assert(crate::store::obj_matches(rg, obj_decode_spec(x)));
                    assert(obj_decode_spec(x) == Ok::<GitObjectV, OzError>(odv));
                }
            }
        }
        t = t + 1;
    }
    Ok(())
}

pub(crate) proof fn lemma_chain_same(s: Seq<(Seq<u8>, Seq<u8>)>, c1: Seq<Vec<u8>>, c2: Seq<Vec<u8>>)
    requires
        c1.len() == c2.len(),
        forall|t: int| 0 <= t < c1.len() ==> (#[trigger] c2[t])@ == c1[t]@,
    ensures
        unvisited(s, c2) == unvisited(s, c1),
{
    assert forall|x: Seq<u8>| #[trigger] seen_has(c1, x) implies seen_has(c2, x) by {
        let i = choose|i: int| 0 <= i < c1.len() && (#[trigger] c1[i])@ == x;
        assert(c2[i]@ == x);
    }
    assert forall|x: Seq<u8>| #[trigger] seen_has(c2, x) implies seen_has(c1, x) by {
        let i = choose|i: int| 0 <= i < c2.len() && (#[trigger] c2[i])@ == x;
        assert(c1[i]@ == x);
    }
    lemma_unvisited_monotone(s, c1, c2);
    lemma_unvisited_monotone(s, c2, c1);
}

/// A plan that only grew keeps every write and directory it already held.
proof fn lemma_plan_extends(a: Seq<FsAction>, b: Seq<FsAction>)
    requires
        extends(b, a),
    ensures
        forall|p: Seq<u8>, d: Seq<u8>| #[trigger] has_write(a, p, d) ==> has_write(b, p, d),
        forall|p: Seq<u8>| #[trigger] has_mkdir(a, p) ==> has_mkdir(b, p),
{
    assert forall|p: Seq<u8>, d: Seq<u8>| #[trigger] has_write(a, p, d) implies has_write(
        b,
        p,
        d,
    ) by {
        let t = choose|t: int|
            0 <= t < a.len() && match #[trigger] a[t] {
                FsAction::WriteFile { path: pp, data: dd } => pp@ == p && dd@ == d,
                FsAction::MakeDir { .. } => false,
            };
        assert(b[t] == a[t]);
    }
    assert forall|p: Seq<u8>| #[trigger] has_mkdir(a, p) implies has_mkdir(b, p) by {
        let t = choose|t: int|
            0 <= t < a.len() && match #[trigger] a[t] {
                FsAction::WriteFile { .. } => false,
                FsAction::MakeDir { path: pp } => pp@ == p,
            };
        assert(b[t] == a[t]);
    }
}

/// Resolve a commit or tree digest to its tree and plan its checkout into
/// an initially empty destination: a commit contributes the tree its
/// single `tree` header names; any other object kind is rejected.
#[verifier::rlimit(100)]
pub fn cmd_checkout(store: &MemStore, sha: &Vec<u8>, path: &Vec<u8>) -> (r: Result<
    Vec<FsAction>,
    OzError,
>)
    ensures
        !store_contains(store@, sha@) ==> r == Err::<Vec<FsAction>, OzError>(OzError::NotFound),
        forall|x: Seq<u8>|
            store_contains(store@, sha@) && store_get(store@, sha@) == #[trigger] zlib_of(x)
                ==> match obj_decode_spec(x) {
                Ok(GitObjectV::Tree(es)) => (tree_entries_ok(store@, es, seq![sha@]) ==> r is Ok)
                    && (r is Ok ==> forall|t: int, y: Seq<u8>|
                    0 <= t < es.len() && store_contains(store@, (#[trigger] es[t]).sha)
                        && store_get(store@, es[t].sha) == #[trigger] zlib_of(y) ==> match
                        obj_decode_spec(y) {
                        Ok(GitObjectV::Blob(b)) => has_write(r->Ok_0@, joined(path@, es[t].name), b),
                        Ok(GitObjectV::Tree(_)) => has_mkdir(r->Ok_0@, joined(path@, es[t].name)),
                        _ => false,
                    }),
                Ok(GitObjectV::Blob(_)) => r == Err::<Vec<FsAction>, OzError>(
                    OzError::MalformedObject,
                ),
                Ok(GitObjectV::Tag(_)) => r == Err::<Vec<FsAction>, OzError>(
                    OzError::MalformedObject,
                ),
                Ok(GitObjectV::Commit(ps)) => ({
                    let ti = find_key(ps, tree_key());
                    if ti < 0 || ps[ti].values.len() == 0 {
                        r == Err::<Vec<FsAction>, OzError>(OzError::MalformedCommit)
                    } else {
                        let tsha = ps[ti].values[0];
                        (!store_contains(store@, tsha) ==> r == Err::<Vec<FsAction>, OzError>(
                            OzError::NotFound,
                        )) && forall|y: Seq<u8>|
                            store_contains(store@, tsha) && store_get(store@, tsha)
                                == #[trigger] zlib_of(y) ==> match obj_decode_spec(y) {
                                Ok(GitObjectV::Tree(es2)) => (tree_entries_ok(
                                    store@,
                                    es2,
                                    seq![tsha],
                                ) ==> r is Ok) && (r is Ok ==> forall|t: int, z: Seq<u8>|
                                    0 <= t < es2.len() && store_contains(
                                        store@,
                                        (#[trigger] es2[t]).sha,
                                    ) && store_get(store@, es2[t].sha) == #[trigger] zlib_of(z)
                                    ==> match obj_decode_spec(z) {
                                    Ok(GitObjectV::Blob(b)) => has_write(
                                        r->Ok_0@,
                                        joined(path@, es2[t].name),
                                        b,
                                    ),
                                    Ok(GitObjectV::Tree(_)) => has_mkdir(
                                        r->Ok_0@,
                                        joined(path@, es2[t].name),
                                    ),
                                    _ => false,
                                }),
                                Ok(_) => r == Err::<Vec<FsAction>, OzError>(OzError::MalformedTree),
                                Err(e2) => r == Err::<Vec<FsAction>, OzError>(e2),
                            }
                    }
                }),
                Err(e) => r == Err::<Vec<FsAction>, OzError>(e),
            },
{
    let robj = store.object_read(sha);
    let ghost rg = robj;
    proof {
        assert forall|x: Seq<u8>|
            store_contains(store@, sha@) && store_get(store@, sha@) == #[trigger] zlib_of(
            x,
        ) implies crate::store::obj_matches(rg, obj_decode_spec(x)) by {}
    }
    let obj = match robj {
        Ok(o) => o,
        Err(e) => {
            return Err(e);
        },
    };
    let ghost odv = obj.deep_view();
    let (tree, root_sha, g2): (GitTree, Vec<u8>, Ghost<Result<GitObject, OzError>>) = match obj {
        GitObject::Tree(t) => {
            let g = Ghost(rg);
            (t, copy_range(sha, 0, sha.len()), g)
        },
        GitObject::Commit(c) => {
            let ghost psx = c.data.deep_view();
            proof {
                assert(odv == GitObjectV::Commit(psx));
            }
            let mut tk: Vec<u8> = Vec::new();
            tk.push(116u8);
            tk.push(114u8);
            tk.push(101u8);
            tk.push(101u8);
            proof {
                assert(tk@ =~= tree_key());
            }
            let ti = match find_pair(&c.data, &tk) {
                Some(t) => t,
                None => {
                    proof {
                        assert(find_key(psx, tree_key()) < 0);
                    }
                    return Err(OzError::MalformedCommit);
                },
            };
            proof {
                assert(find_key(psx, tree_key()) == ti);
                assert(psx[ti as int].values.len() == c.data@[ti as int].values@.len());
            }
            if c.data[ti].values.len() == 0 {
                return Err(OzError::MalformedCommit);
            }
            let tsha = copy_range(&c.data[ti].values[0], 0, c.data[ti].values[0].len());
            proof {
                assert(c.data@[ti as int].values@[0]@.subrange(
                    0,
                    c.data@[ti as int].values@[0]@.len() as int,
                ) =~= c.data@[ti as int].values@[0]@);
                assert(psx[ti as int].values[0] == c.data@[ti as int].values@[0].deep_view());
                assert(c.data@[ti as int].values@[0].deep_view() =~= c.data@[
                    ti as int].values@[0]@);
                assert(tsha@ == psx[ti as int].values[0]);
            }
            let tobj_r = store.object_read(&tsha);
            let ghost rg2 = tobj_r;
            proof {
                assert forall|y: Seq<u8>|
                    store_contains(store@, tsha@) && store_get(store@, tsha@)
                        == #[trigger] zlib_of(y) implies crate::store::obj_matches(
                    rg2,
                    obj_decode_spec(y),
                ) by {}
            }
            let tobj = match tobj_r {
                Ok(o) => o,
                Err(e) => {
                    return Err(e);
                },
            };
            let ghost odv2 = tobj.deep_view();
            match tobj {
                GitObject::Tree(t) => {
                    let g = Ghost(rg2);
                    (t, tsha, g)
                },
                _ => {
                    return Err(OzError::MalformedTree);
                },
            }
        },
        _ => {
            return Err(OzError::MalformedObject);
        },
    };
    let ghost rg2g = g2@;
    let ghost tv = tree.items.deep_view();
    let mut chain: Vec<Vec<u8>> = Vec::new();
    chain.push(root_sha);
    let mut out: Vec<FsAction> = Vec::new();
    proof {
        assert(chain_view(chain@) =~= seq![root_sha@]);
    }
    let rr = checkout_tree(store, &tree, path, chain, &mut out);
    proof {
        match odv {
            GitObjectV::Tree(_) => {
                assert(root_sha@ == sha@);
            },
            _ => {},
        }
        if rr is Err {
            // the planner only fails when some entry cannot be
            // materialized, which the readiness hypotheses exclude
            assert forall|x: Seq<u8>|
                store_contains(store@, sha@) && store_get(store@, sha@) == #[trigger] zlib_of(
                x,
            ) implies match obj_decode_spec(x) {
                Ok(GitObjectV::Tree(es)) => !tree_entries_ok(store@, es, seq![sha@]),
                Ok(GitObjectV::Commit(ps)) => ({
                    let ti = find_key(ps, tree_key());
                    ti >= 0 && ps[ti].values.len() > 0 ==> forall|y: Seq<u8>|
                        store_contains(store@, ps[ti].values[0]) && store_get(
                            store@,
                            ps[ti].values[0],
                        ) == #[trigger] zlib_of(y) ==> match obj_decode_spec(y) {
                            Ok(GitObjectV::Tree(es2)) => !tree_entries_ok(
                                store@,
                                es2,
                                seq![ps[ti].values[0]],
                            ),
                            _ => true,
                        }
                }),
                _ => true,
            } by {
                assert(crate::store::obj_matches(rg, obj_decode_spec(x)));
                match obj_decode_spec(x) {
                    Ok(o) => match o {
                        GitObjectV::Tree(es) => {
                            assert(es == tv);
                            assert(root_sha@ == sha@);
                            if tree_entries_ok(store@, es, seq![sha@]) {
                                assert(rr is Ok);
                            }
                        },
                        GitObjectV::Commit(ps2) => {
                            let ti2 = find_key(ps2, tree_key());
                            if ti2 >= 0 && ps2[ti2].values.len() > 0 {
                                let tsv = ps2[ti2].values[0];
                                assert(root_sha@ == tsv);
                                assert forall|y: Seq<u8>|
                                    store_contains(store@, tsv) && store_get(store@, tsv)
                                        == #[trigger] zlib_of(y) implies match obj_decode_spec(y) {
                                    Ok(GitObjectV::Tree(es2)) => !tree_entries_ok(
                                        store@,
                                        es2,
                                        seq![tsv],
                                    ),
                                    _ => true,
                                } by {
                                    assert(crate::store::obj_matches(rg2g, obj_decode_spec(y)));
                                    match obj_decode_spec(y) {
                                        Ok(o2) => match o2 {
                                            GitObjectV::Tree(es2) => {
                                                assert(es2 == tv);
                                                if tree_entries_ok(store@, es2, seq![tsv]) {
                                                    assert(rr is Ok);
                                                }
                                            },
                                            _ => {},
                                        },
                                        _ => {},
                                    }
                                }
                            }
                        },
                        _ => {},
                    },
                    _ => {},
                }
            }
        }
        if rr is Ok {
            assert forall|x: Seq<u8>|
                store_contains(store@, sha@) && store_get(store@, sha@) == #[trigger] zlib_of(
                x,
            ) implies match obj_decode_spec(x) {
                Ok(GitObjectV::Tree(es)) => forall|t: int, y: Seq<u8>|
                    0 <= t < es.len() && store_contains(store@, (#[trigger] es[t]).sha)
                        && store_get(store@, es[t].sha) == #[trigger] zlib_of(y) ==> match
                        obj_decode_spec(y) {
                        Ok(GitObjectV::Blob(b)) => has_write(out@, joined(path@, es[t].name), b),
                        Ok(GitObjectV::Tree(_)) => has_mkdir(out@, joined(path@, es[t].name)),
                        _ => false,
                    },
                _ => true,
            } by {
                assert(crate::store::obj_matches(rg, obj_decode_spec(x)));
                match obj_decode_spec(x) {
                    Ok(o) => match o {
                        GitObjectV::Tree(es) => {
                            assert(es == tv);
                            assert forall|t: int, y: Seq<u8>|
                                0 <= t < es.len() && store_contains(
                                    store@,
                                    (#[trigger] es[t]).sha,
                                ) && store_get(store@, es[t].sha) == #[trigger] zlib_of(y) implies
                                match obj_decode_spec(y) {
                                Ok(GitObjectV::Blob(b)) => has_write(
                                    out@,
                                    joined(path@, es[t].name),
                                    b,
                                ),
                                Ok(GitObjectV::Tree(_)) => has_mkdir(out@, joined(path@, es[t].name)),
                                _ => false,
                            } by {
                                assert(es[t] == tree.items@[t as int].deep_view());
                                assert(tree.items@[t as int].sha@ == es[t].sha);
                                assert(tree.items@[t as int].name@ == es[t].name);
                            }
                        },
                        _ => {},
                    },
                    _ => {},
                }
            }
            assert forall|x: Seq<u8>|
                store_contains(store@, sha@) && store_get(store@, sha@) == #[trigger] zlib_of(
                x,
            ) implies match obj_decode_spec(x) {
                Ok(GitObjectV::Commit(ps2)) => ({
                    let ti2 = find_key(ps2, tree_key());
                    ti2 >= 0 && ps2[ti2].values.len() > 0 ==> forall|y: Seq<u8>|
                        store_contains(store@, ps2[ti2].values[0]) && store_get(
                            store@,
                            ps2[ti2].values[0],
                        ) == #[trigger] zlib_of(y) ==> match obj_decode_spec(y) {
                            Ok(GitObjectV::Tree(es2)) => forall|t: int, z: Seq<u8>|
                                0 <= t < es2.len() && store_contains(
                                    store@,
                                    (#[trigger] es2[t]).sha,
                                ) && store_get(store@, es2[t].sha) == #[trigger] zlib_of(z)
                                ==> match obj_decode_spec(z) {
                                Ok(GitObjectV::Blob(b)) => has_write(
                                    out@,
                                    joined(path@, es2[t].name),
                                    b,
                                ),
                                Ok(GitObjectV::Tree(_)) => has_mkdir(
                                    out@,
                                    joined(path@, es2[t].name),
                                ),
                                _ => false,
                            },
                            _ => true,
                        }
                }),
                _ => true,
            } by {
                assert(crate::store::obj_matches(rg, obj_decode_spec(x)));
                match obj_decode_spec(x) {
                    Ok(o) => match o {
                        GitObjectV::Commit(ps2) => {
                            let ti2 = find_key(ps2, tree_key());
                            if ti2 >= 0 && ps2[ti2].values.len() > 0 {
                                let tsv = ps2[ti2].values[0];
                                assert forall|y: Seq<u8>|
                                    store_contains(store@, tsv) && store_get(store@, tsv)
                                        == #[trigger] zlib_of(y) implies match obj_decode_spec(y) {
                                    Ok(GitObjectV::Tree(es2)) => forall|t: int, z: Seq<u8>|
                                        0 <= t < es2.len() && store_contains(
                                            store@,
                                            (#[trigger] es2[t]).sha,
                                        ) && store_get(store@, es2[t].sha) == #[trigger] zlib_of(z)
                                        ==> match obj_decode_spec(z) {
                                        Ok(GitObjectV::Blob(b)) => has_write(
                                            out@,
                                            joined(path@, es2[t].name),
                                            b,
                                        ),
                                        Ok(GitObjectV::Tree(_)) => has_mkdir(
                                            out@,
                                            joined(path@, es2[t].name),
                                        ),
                                        _ => false,
                                    },
                                    _ => true,
                                } by {
                                    assert(crate::store::obj_matches(rg2g, obj_decode_spec(y)));
                                    match obj_decode_spec(y) {
                                        Ok(o2) => match o2 {
                                            GitObjectV::Tree(es2) => {
                                                assert(es2 == tv);
                                                assert forall|t: int, z: Seq<u8>|
                                                    0 <= t < es2.len() && store_contains(
                                                        store@,
                                                        (#[trigger] es2[t]).sha,
                                                    ) && store_get(store@, es2[t].sha)
                                                    == #[trigger] zlib_of(z) implies match
                                                    obj_decode_spec(z) {
                                                    Ok(GitObjectV::Blob(b)) => has_write(
                                                        out@,
                                                        joined(path@, es2[t].name),
                                                        b,
                                                    ),
                                                    Ok(GitObjectV::Tree(_)) => has_mkdir(
                                                        out@,
                                                        joined(path@, es2[t].name),
                                                    ),
                                                    _ => false,
                                                } by {
                                                    assert(es2[t] == tree.items@[
                                                        t as int].deep_view());
                                                    assert(tree.items@[t as int].sha@ == es2[
                                                        t].sha);
                                                    assert(tree.items@[t as int].name@ == es2[
                                                        t].name);
                                                }
                                            },
                                            _ => {},
                                        },
                                        _ => {},
                                    }
                                }
                            }
                        },
                        _ => {},
                    },
                    _ => {},
                }
            }
        }
    }
    match rr {
        Ok(_) => Ok(out),
        Err(e) => Err(e),
    }
}

} // verus!
