//! Reading objects back for display: the serialized payload of a stored
//! object, and the listing of a tree's entries, flat or recursive.

use vstd::prelude::*;

use crate::OzError;
use crate::objcodec::{obj_decode_spec, payload_bytes};
use crate::objects::{GitObject, GitObjectV, TreeEntryV};
use crate::primitives::zlib_of;
use crate::store::{MemStore, obj_matches, store_contains, store_get};
use crate::treecodec::copy_range;
use crate::walk::{clone_vecs, extends, lemma_unvisited_mark, seen_contains, seen_has,
    unvisited};

verus! {

/// Serialize the payload of the object a digest names, for display.  The
/// type hint is a resolution concern handled by the caller's name service
/// and does not change which object the digest denotes.
pub fn cmd_cat_file(store: &MemStore, obj_type: Vec<u8>, object: Vec<u8>) -> (r: Result<
    Vec<u8>,
    OzError,
>)
    ensures
        !store_contains(store@, object@) ==> r == Err::<Vec<u8>, OzError>(OzError::NotFound),
        forall|x: Seq<u8>|
            store_contains(store@, object@) && store_get(store@, object@) == #[trigger] zlib_of(x)
                ==> match obj_decode_spec(x) {
                Ok(o) => r is Ok && r->Ok_0@ == payload_bytes(o),
                Err(e) => r == Err::<Vec<u8>, OzError>(e),
            },
{
    let _ = obj_type;
    let robj = store.object_read(&object);
    let ghost rg = robj;
    let obj = match robj {
        Ok(o) => o,
        Err(e) => {
            proof {
                assert forall|x: Seq<u8>|
                    store_contains(store@, object@) && store_get(store@, object@)
                        == #[trigger] zlib_of(x) implies match obj_decode_spec(x) {
                    Ok(o) => false,
                    Err(e2) => e == e2,
                } by {
                    assert(obj_matches(rg, obj_decode_spec(x)));
                }
            }
            return Err(e);
        },
    };
    let payload = obj.serialize();
    proof {
        assert forall|x: Seq<u8>|
            store_contains(store@, object@) && store_get(store@, object@) == #[trigger] zlib_of(
                x,
            ) implies match obj_decode_spec(x) {
            Ok(o) => payload@ == payload_bytes(o),
            Err(_) => false,
        } by {
            assert(obj_matches(rg, obj_decode_spec(x)));
        }
    }
    Ok(payload)
}

/// The listing type name an entry's mode opens with: `04` marks a tree,
/// `10` and `12` blobs, `16` a commit gitlink.
pub open spec fn mode_type(m: Seq<u8>) -> Option<Seq<u8>> {
    if m.len() >= 2 && m[0] == 48 && m[1] == 52 {
        Some(seq![116u8, 114u8, 101u8, 101u8])
    } else if m.len() >= 2 && m[0] == 49 && m[1] == 48 {
        Some(seq![98u8, 108u8, 111u8, 98u8])
    } else if m.len() >= 2 && m[0] == 49 && m[1] == 50 {
        Some(seq![98u8, 108u8, 111u8, 98u8])
    } else if m.len() >= 2 && m[0] == 49 && m[1] == 54 {
        Some(seq![99u8, 111u8, 109u8, 109u8, 105u8, 116u8])
    } else {
        None
    }
}

/// How an entry's path is shown: under a prefix when one has built up.
pub open spec fn display_path(prefix: Seq<u8>, name: Seq<u8>) -> Seq<u8> {
    if prefix.len() == 0 {
        name
    } else {
        prefix + seq![47u8] + name
    }
}

/// One listing line: mode, type name, digest, then a tab and the path.
pub open spec fn entry_line(prefix: Seq<u8>, e: TreeEntryV, ty: Seq<u8>) -> Seq<u8> {
    e.mode + seq![32u8] + ty + seq![32u8] + e.sha + seq![9u8] + display_path(prefix, e.name)
}

/// The flat listing of entries from index `i` on: one line per entry, or
/// the error an unlistable mode raises.
pub open spec fn ls_flat(es: Seq<TreeEntryV>, prefix: Seq<u8>, i: int, acc: Seq<Seq<u8>>) -> Result<
    Seq<Seq<u8>>,
    OzError,
>
    decreases es.len() - i,
{
    if i < 0 || i >= es.len() {
        Ok(acc)
    } else {
        match mode_type(es[i].mode) {
            None => Err(OzError::UnknownObjectType),
            Some(ty) => ls_flat(es, prefix, i + 1, acc.push(entry_line(prefix, es[i], ty))),
        }
    }
}

/// Append one listing line for an entry.
fn push_line(out: &mut Vec<Vec<u8>>, prefix: &Vec<u8>, e: &crate::objects::TreeEntry, ty: &Vec<
    u8,
>)
    requires
        mode_type(e.deep_view().mode) == Some(ty@),
    ensures
        final(out)@.len() == old(out)@.len() + 1,
        forall|t: int| 0 <= t < old(out)@.len() ==> #[trigger] final(out)@[t] == old(out)@[t],
        (final(out)@[old(out)@.len() as int])@ == entry_line(prefix@, e.deep_view(), ty@),
{
    let mut line = copy_range(&e.mode, 0, e.mode.len());
    line.push(32);
    crate::kvcodec::append_range(&mut line, ty);
    line.push(32);
    crate::kvcodec::append_range(&mut line, &e.sha);
    line.push(9);
    if prefix.len() > 0 {
        crate::kvcodec::append_range(&mut line, prefix);
        line.push(47);
    }
    crate::kvcodec::append_range(&mut line, &e.name);
    proof {
        assert(e.mode@.subrange(0, e.mode@.len() as int) =~= e.mode@);
        assert(line@ =~= entry_line(prefix@, e.deep_view(), ty@));
    }
    out.push(line);
}

/// The executable type name for an entry's mode.
fn mode_type_exec(m: &Vec<u8>) -> (r: Option<Vec<u8>>)
    ensures
        match r {
            Some(ty) => mode_type(m@) == Some(ty@),
            None => mode_type(m@) is None,
        },
{
    if m.len() < 2 {
        return None;
    }
    let mut ty: Vec<u8> = Vec::new();
    if m[0] == 48 && m[1] == 52 {
        ty.push(116);
        ty.push(114);
        ty.push(101);
        ty.push(101);
        proof {
            assert(ty@ =~= seq![116u8, 114u8, 101u8, 101u8]);
        }
        Some(ty)
    } else if m[0] == 49 && (m[1] == 48 || m[1] == 50) {
        ty.push(98);
        ty.push(108);
        ty.push(111);
        ty.push(98);
        proof {
            assert(ty@ =~= seq![98u8, 108u8, 111u8, 98u8]);
        }
        Some(ty)
    } else if m[0] == 49 && m[1] == 54 {
        ty.push(99);
        ty.push(111);
        ty.push(109);
        ty.push(109);
        ty.push(105);
        ty.push(116);
        proof {
            assert(ty@ =~= seq![99u8, 111u8, 109u8, 109u8, 105u8, 116u8]);
        }
        Some(ty)
    } else {
        None
    }
}

/// List the tree a digest names.  A digest that does not read back as a
/// tree contributes nothing.  Flat mode emits one line per entry; the
/// recursive mode descends into tree entries under a grown prefix instead
/// of listing them, guarded by the chain of trees being listed.
#[verifier::loop_isolation(false)]
pub fn ls_tree(
    store: &MemStore,
    sha: &Vec<u8>,
    recursive: bool,
    prefix: &Vec<u8>,
    chain: Vec<Vec<u8>>,
    out: &mut Vec<Vec<u8>>,
) -> (r: Result<(), OzError>)
    ensures
        extends(final(out)@, old(out)@),
        !store_contains(store@, sha@) ==> r is Ok && final(out)@ == old(out)@,
        forall|x: Seq<u8>|
            store_contains(store@, sha@) && store_get(store@, sha@) == #[trigger] zlib_of(x)
                ==> match obj_decode_spec(x) {
                Ok(GitObjectV::Tree(_)) => true,
                _ => r is Ok && final(out)@ == old(out)@,
            },
        !recursive ==> forall|x: Seq<u8>|
            store_contains(store@, sha@) && store_get(store@, sha@) == #[trigger] zlib_of(x)
                ==> match obj_decode_spec(x) {
                Ok(GitObjectV::Tree(es)) => match ls_flat(es, prefix@, 0, Seq::empty()) {
                    Ok(ls) => r is Ok && final(out)@.len() == old(out)@.len() + ls.len()
                        && forall|t: int|
                        0 <= t < ls.len() ==> (#[trigger] final(out)@[old(out)@.len() + t])@
                            == ls[t],
                    Err(e) => r == Err::<(), OzError>(e),
                },
                _ => true,
            },
    decreases unvisited(store@, chain@), 0nat,
{
    let ghost base_out = out@;
    let robj = store.object_read(sha);
    let ghost rg = robj;
    let tree = match robj {
        Ok(GitObject::Tree(t)) => t,
        _ => {
            proof {
                lemma_non_tree_flat(store, sha@, rg);
                assert forall|x: Seq<u8>|
                    store_contains(store@, sha@) && store_get(store@, sha@) == #[trigger] zlib_of(
                    x,
                ) implies match obj_decode_spec(x) {
                    Ok(GitObjectV::Tree(_)) => true,
                    _ => out@ == base_out,
                } by {
                    assert(obj_matches(rg, obj_decode_spec(x)));
                }
            }
            return Ok(());
        },
    };
    let ghost items = tree.items@;
    let ghost dv = tree.items.deep_view();
    proof {
        assert(lines_view(out@).subrange(base_out.len() as int, out@.len() as int)
            =~= Seq::<Seq<u8>>::empty());
        assert(store_contains(store@, sha@));
        assert forall|x: Seq<u8>|
            store_contains(store@, sha@) && store_get(store@, sha@) == #[trigger] zlib_of(
            x,
        ) implies (obj_decode_spec(x) matches Ok(GitObjectV::Tree(_))) by {
            assert(obj_matches(rg, obj_decode_spec(x)));
        }
    }
    let mut t: usize = 0;
    while t < tree.items.len()
        invariant
            t <= items.len(),
            items == tree.items@,
            dv == tree.items.deep_view(),
            extends(out@, base_out),
            !recursive ==> ls_flat(dv, prefix@, 0, Seq::empty()) == ls_flat(
                dv,
                prefix@,
                t as int,
                lines_view(out@).subrange(base_out.len() as int, out@.len() as int),
            ),
        decreases items.len() - t,
    {
        let entry_ty = mode_type_exec(&tree.items[t].mode);
        let ty = match entry_ty {
            Some(ty) => ty,
            None => {
                proof {
                    if !recursive {
                        assert(ls_flat(dv, prefix@, 0, Seq::empty()) == Err::<
                            Seq<Seq<u8>>,
                            OzError,
                        >(OzError::UnknownObjectType));
                        assert forall|x: Seq<u8>|
                            store_contains(store@, sha@) && store_get(store@, sha@)
                                == #[trigger] zlib_of(x) implies match obj_decode_spec(x) {
                            Ok(GitObjectV::Tree(es)) => ls_flat(es, prefix@, 0, Seq::empty())
                                == Err::<Seq<Seq<u8>>, OzError>(OzError::UnknownObjectType),
                            _ => true,
                        } by {
                            assert(obj_matches(rg, obj_decode_spec(x)));
                        }
                    }
                }
                return Err(OzError::UnknownObjectType);
            },
        };
        proof {
            assert(dv[t as int] == items[t as int].deep_view());
        }
        let is_tree_entry = tree.items[t].mode.len() >= 2 && tree.items[t].mode[0] == 48
            && tree.items[t].mode[1] == 52;
        if !recursive || !is_tree_entry {
            let ghost before = out@;
            push_line(out, prefix, &tree.items[t], &ty);
            proof {
                assert(extends(out@, base_out));
                if !recursive {
                    assert(lines_view(out@).subrange(base_out.len() as int, out@.len() as int)
                        =~= lines_view(before).subrange(
                        base_out.len() as int,
                        before.len() as int,
                    ).push(entry_line(prefix@, dv[t as int], ty@)));
                }
            }
        } else {
            let sub_sha = copy_range(&tree.items[t].sha, 0, tree.items[t].sha.len());
            proof {
                assert(items[t as int].sha@.subrange(0, items[t as int].sha@.len() as int)
                    =~= items[t as int].sha@);
            }
            if seen_contains(&chain, &sub_sha) {
                return Err(OzError::MalformedTree);
            }
            if store.contains(&sub_sha) {
                let mut child_chain = clone_vecs(&chain);
                proof {
                    crate::checkout::lemma_chain_same(store@, chain@, child_chain@);
                }
                let ghost chain0 = child_chain@;
                child_chain.push(copy_range(&sub_sha, 0, sub_sha.len()));
                proof {
                    assert(sub_sha@.subrange(0, sub_sha@.len() as int) =~= sub_sha@);
                    let k = child_chain@[child_chain@.len() - 1];
                    assert(child_chain@ == chain0.push(k));
                    assert(!seen_has(chain0, k@)) by {
                        if seen_has(chain0, k@) {
                            let i = choose|i: int|
                                0 <= i < chain0.len() && (#[trigger] chain0[i])@ == k@;
                            assert(chain@[i]@ == k@);
                        }
                    }
                    lemma_unvisited_mark(store@, chain0, k);
                    assert(unvisited(store@, child_chain@) < unvisited(store@, chain@));
                }
                let mut sub_prefix = copy_range(prefix, 0, prefix.len());
                sub_prefix.push(47);
                crate::kvcodec::append_range(&mut sub_prefix, &tree.items[t].name);
                match ls_tree(store, &sub_sha, recursive, &sub_prefix, child_chain, out) {
                    Ok(_) => {},
                    Err(e) => {
                        return Err(e);
                    },
                }
            }
            // a subtree digest that is absent or unreadable contributes
            // nothing, as in flat listing of foreign entries
        }
        t = t + 1;
    }
    proof {
        if !recursive {
            let emitted = lines_view(out@).subrange(base_out.len() as int, out@.len() as int);
            assert(ls_flat(dv, prefix@, items.len() as int, emitted) == Ok::<
                Seq<Seq<u8>>,
                OzError,
            >(emitted));
            assert forall|x: Seq<u8>|
                store_contains(store@, sha@) && store_get(store@, sha@) == #[trigger] zlib_of(
                x,
            ) implies match obj_decode_spec(x) {
                Ok(GitObjectV::Tree(es)) => match ls_flat(es, prefix@, 0, Seq::empty()) {
                    Ok(ls) => out@.len() == base_out.len() + ls.len() && forall|u: int|
                        0 <= u < ls.len() ==> (#[trigger] out@[base_out.len() + u])@ == ls[u],
                    Err(_) => false,
                },
                _ => true,
            } by {
                assert(obj_matches(rg, obj_decode_spec(x)));
                match obj_decode_spec(x) {
                    Ok(o) => match o {
                        GitObjectV::Tree(es) => {
                            assert(es == dv);
                            assert(ls_flat(es, prefix@, 0, Seq::empty()) == Ok::<
                                Seq<Seq<u8>>,
                                OzError,
                            >(emitted));
                            assert forall|u: int| 0 <= u < emitted.len() implies (#[trigger] out@[
                                base_out.len() + u])@ == emitted[u] by {
                                assert(emitted[u] == lines_view(out@)[base_out.len() + u]);
                            }
                        },
                        _ => {},
                    },
                    _ => {},
                }
            }
        }
    }
    Ok(())
}

/// The byte strings a listing holds.
pub open spec fn lines_view(out: Seq<Vec<u8>>) -> Seq<Seq<u8>> {
    Seq::new(out.len(), |i: int| out[i]@)
}

proof fn lemma_non_tree_flat(store: &MemStore, sha: Seq<u8>, rg: Result<GitObject, OzError>)
    requires
        forall|x: Seq<u8>|
            store_contains(store@, sha) && store_get(store@, sha) == zlib_of(x)
                ==> #[trigger] obj_matches(rg, obj_decode_spec(x)),
        !(rg matches Ok(GitObject::Tree(_))),
    ensures
        forall|x: Seq<u8>|
            store_contains(store@, sha) && store_get(store@, sha) == #[trigger] zlib_of(x)
                ==> !(obj_decode_spec(x) matches Ok(GitObjectV::Tree(_))),
{
    assert forall|x: Seq<u8>|
        store_contains(store@, sha) && store_get(store@, sha) == #[trigger] zlib_of(x) implies !(
    obj_decode_spec(x) matches Ok(GitObjectV::Tree(_))) by {
        assert(obj_matches(rg, obj_decode_spec(x)));
        if obj_decode_spec(x) matches Ok(GitObjectV::Tree(_)) {
            assert(rg is Ok);
            assert(rg->Ok_0.deep_view() == obj_decode_spec(x)->Ok_0);
            match rg->Ok_0 {
                GitObject::Tree(_) => {
                    assert(false);
                },
                _ => {
                    assert(false);
                },
            }
        }
    }
}

/// List a tree, flat or recursive, starting from its digest with an empty
/// prefix.
pub fn cmd_list_tree(store: &MemStore, recursive: bool, tree: Vec<u8>) -> (r: Result<
    Vec<Vec<u8>>,
    OzError,
>)
    ensures
        !recursive ==> forall|x: Seq<u8>|
            store_contains(store@, tree@) && store_get(store@, tree@) == #[trigger] zlib_of(x)
                ==> match obj_decode_spec(x) {
                Ok(GitObjectV::Tree(es)) => match ls_flat(es, Seq::<u8>::empty(), 0, Seq::empty()) {
                    Ok(ls) => r is Ok && r->Ok_0@.len() == ls.len() && forall|t: int|
                        0 <= t < ls.len() ==> (#[trigger] r->Ok_0@[t])@ == ls[t],
                    Err(e) => r == Err::<Vec<Vec<u8>>, OzError>(e),
                },
                _ => true,
            },
{
    let mut chain: Vec<Vec<u8>> = Vec::new();
    chain.push(copy_range(&tree, 0, tree.len()));
    proof {
        assert(tree@.subrange(0, tree@.len() as int) =~= tree@);
    }
    let prefix: Vec<u8> = Vec::new();
    let mut out: Vec<Vec<u8>> = Vec::new();
    proof {
        assert(prefix@ =~= Seq::<u8>::empty());
        assert(lines_view(out@).subrange(0, 0) =~= Seq::<Seq<u8>>::empty());
    }
    let rr = ls_tree(store, &tree, recursive, &prefix, chain, &mut out);
    proof {
        if !recursive {
            assert forall|x: Seq<u8>|
                store_contains(store@, tree@) && store_get(store@, tree@) == #[trigger] zlib_of(
                x,
            ) implies match obj_decode_spec(x) {
                Ok(GitObjectV::Tree(es)) => match ls_flat(es, Seq::<u8>::empty(), 0, Seq::empty()) {
                    Ok(ls) => rr is Ok && out@.len() == ls.len() && forall|t: int|
                        0 <= t < ls.len() ==> (#[trigger] out@[t])@ == ls[t],
                    Err(e) => rr == Err::<(), OzError>(e),
                },
                _ => true,
            } by {
                assert(store_get(store@, tree@) == zlib_of(x));
                assert(prefix@ == Seq::<u8>::empty());
                match obj_decode_spec(x) {
                    Ok(o) => match o {
                        GitObjectV::Tree(es) => {
                            match ls_flat(es, Seq::<u8>::empty(), 0, Seq::empty()) {
                                Ok(ls) => {
                                    assert(rr is Ok);
                                    assert(out@.len() == 0 + ls.len());
                                    assert forall|t: int| 0 <= t < ls.len() implies (
                                    #[trigger] out@[t])@ == ls[t] by {
                                        assert((out@[0 + t])@ == ls[t]);
                                    }
                                },
                                Err(_) => {},
                            }
                        },
                        _ => {},
                    },
                    _ => {},
                }
            }
        }
    }
    match rr {
        Ok(_) => Ok(out),
        Err(e) => Err(e),
    }
}

} // verus!
