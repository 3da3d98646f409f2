//! What taking a pointer out of the index, and zeroing a leaf, does to the paths of all keys.
use vstd::prelude::*;
use crate::block;
use crate::doc;
use crate::doc::{ChildView, DocView, NodeView};
use crate::edit;
use crate::error::ErrorView;
use crate::hamt::Index;
use crate::keep;
use crate::key;
use crate::seal;
use crate::swap;
use crate::tract;
use crate::trie;
use crate::trie::Trace;

verus! {

/// Whether a path leads to an empty slot.
pub open spec fn cut_off(u: Trace) -> bool {
    &&& u.found == Ok::<Option<Seq<u8>>, ErrorView>(None)
    &&& u.leaf == Ok::<Option<(u64, Seq<u8>)>, ErrorView>(None)
    &&& u.placed
    &&& u.whole
    &&& u.stop is None
    &&& u.reads == Set::<u64>::empty()
}

/// Whether a path ended at a pointer.
pub open spec fn ended_at(t: Trace, hash: Seq<u8>, lba: u64) -> bool {
    t.stop is Some && (t.stop->0).0 == hash && (t.stop->0).1 == lba
}

/// What taking out the pointer `(hash, lba)` along `route` does to the path of `k`.
pub open spec fn pruned(
    t: Trace,
    u: Trace,
    k: Seq<u8>,
    route: Seq<u8>,
    hash: Seq<u8>,
    lba: u64,
    gone: Set<u64>,
) -> bool {
    &&& swap::passed_by(t, u, gone) || (ended_at(t, hash, lba) && cut_off(u))
    &&& ended_at(t, hash, lba) && key::agree(k, route, (t.stop->0).2) ==> cut_off(u)
}

/// What taking out a pointer does to an index.
pub open spec fn prunes(
    t: Seq<Seq<u8>>,
    ix0: Index,
    ix1: Index,
    route: Seq<u8>,
    hash: Seq<u8>,
    lba: u64,
    gone: Set<u64>,
) -> bool {
    &&& ix1.wf()
    &&& keep::placed(t, ix0) && !(trie::doc_at(t, lba, hash) matches Ok(Some(DocView::Node(_))))
        ==> keep::placed(t, ix1) && (forall|k: Seq<u8>|
        k.len() == 32 ==> pruned(
            ix0.path(t, k),
            #[trigger] ix1.path(t, k),
            k,
            route,
            hash,
            lba,
            gone,
        ))
}

/// A swap for nothing takes the pointer out.
pub proof fn lemma_prunes(
    t: Seq<Seq<u8>>,
    ix0: Index,
    ix1: Index,
    route: Seq<u8>,
    hash: Seq<u8>,
    lba: u64,
    gone: Set<u64>,
)
    requires
        route.len() == 32,
        swap::swaps(
            t,
            ix0.arena,
            ix0.root,
            ix1.arena,
            ix1.root,
            route,
            (ChildView::At { hash, lba }),
            None,
            gone,
            0,
            255,
        ),
    ensures
        prunes(t, ix0, ix1, route, hash, lba, gone),
{
    let old = ChildView::At { hash, lba };
    if keep::placed(t, ix0) && !(trie::doc_at(t, lba, hash) matches Ok(Some(DocView::Node(_)))) {
        assert(edit::branch_placed(t, ix0.arena, ix0.root, route, 0)) by {
            assert forall|k: Seq<u8>| k.len() == 32 && key::agree(k, route, 0) implies (
            #[trigger] trie::walk(t, ix0.arena, ix0.root, k, 0)).placed by {
                assert(ix0.path(t, k).placed);
            }
        }
        assert forall|k: Seq<u8>| k.len() == 32 implies pruned(
            ix0.path(t, k),
            #[trigger] ix1.path(t, k),
            k,
            route,
            hash,
            lba,
            gone,
        ) && ix1.path(t, k).placed by {
            let a = ix0.path(t, k);
            let u = ix1.path(t, k);
            assert(a.placed);
            assert(key::agree(k, route, 0));
            assert(swap::swapped(
                t,
                trie::walk(t, ix0.arena, ix0.root, k, 0),
                trie::walk(t, ix1.arena, ix1.root, k, 0),
                k,
                route,
                old,
                None,
                gone,
                0,
                255,
            ));
            if !swap::passed_by(a, u, gone) {
                let e = choose|e: int|
                    0 <= e <= 52 && #[trigger] swap::passed_thru(
                        t,
                        a,
                        u,
                        k,
                        route,
                        old,
                        None,
                        gone,
                        e,
                    );
                assert(swap::tail(t, None, k, e) == trie::absent(
                    Set::<u64>::empty(),
                    true,
                    None,
                ));
                assert(cut_off(u));
            }
            if ended_at(a, hash, lba) && key::agree(k, route, (a.stop->0).2) {
                let e = (a.stop->0).2;
                assert(swap::passed_thru(t, a, u, k, route, old, None, gone, e));
                assert(swap::tail(t, None, k, e) == trie::absent(
                    Set::<u64>::empty(),
                    true,
                    None,
                ));
            }
        }
    }
}

/// A path that ends at a zeroed block finds nothing.
pub proof fn lemma_stop_zero(
    tract: Seq<Seq<u8>>,
    arena: Seq<NodeView>,
    slot: Option<ChildView>,
    k: Seq<u8>,
    d: int,
)
    ensures
        ({
            let t = trie::walk(tract, arena, slot, k, d);
            t.stop is Some && trie::doc_at(tract, (t.stop->0).1, (t.stop->0).0) == Ok::<
                Option<DocView>,
                ErrorView,
            >(None) ==> t.found == Ok::<Option<Seq<u8>>, ErrorView>(None) && t.leaf == Ok::<
                Option<(u64, Seq<u8>)>,
                ErrorView,
            >(None)
        }),
    decreases 52 - d,
{
    match slot {
        Some(ChildView::Dirty(j)) => {
            if 0 <= d < 52 && 0 <= j < arena.len() {
                lemma_stop_zero(
                    tract,
                    arena,
                    arena[j].kids[key::chunk_of(k, d) as int],
                    k,
                    d + 1,
                );
            }
        },
        Some(ChildView::At { hash, lba }) => {
            if let Ok(Some(DocView::Node(n))) = trie::doc_at(tract, lba, hash) {
                if 0 <= d < 52 {
                    lemma_stop_zero(tract, arena, n.kids[key::chunk_of(k, d) as int], k, d + 1);
                }
            }
        },
        None => {},
    }
}

// ---------------------------------------------------------------- zeroing a leaf

/// Whether a tract is another with some blocks zeroed.
pub open spec fn zeroed(t0: Seq<Seq<u8>>, t1: Seq<Seq<u8>>, ps: Set<u64>) -> bool {
    &&& t1.len() == t0.len()
    &&& forall|p: u64|
        p < t0.len() ==> #[trigger] t1[p as int] == (if ps.contains(p) {
            block::zeros()
        } else {
            t0[p as int]
        })
}

/// The blocks of a leaf and its furrows.
pub open spec fn leaf_blocks(lba: u64, leaf: DocView) -> Set<u64> {
    trie::furrow_set(leaf).insert(lba)
}

/// What zeroing the leaf of a key does to the path of `k`.
pub proof fn lemma_zero_walk(
    t0: Seq<Seq<u8>>,
    t1: Seq<Seq<u8>>,
    arena: Seq<NodeView>,
    slot: Option<ChildView>,
    lba: u64,
    hash: Seq<u8>,
    key: Seq<u8>,
    leaf: DocView,
    ps: Set<u64>,
    k: Seq<u8>,
    d: int,
)
    requires
        trie::arena_wf(arena),
        trie::slot_wf(slot, arena),
        k.len() == 32,
        trie::doc_at(t0, lba, hash) == Ok::<Option<DocView>, ErrorView>(Some(leaf)),
        trie::leaf_key(leaf) == Some(key),
        trie::leaf_value(t0, leaf) is Ok,
        ps.contains(lba),
        forall|p: u64| #[trigger] ps.contains(p) ==> leaf_blocks(lba, leaf).contains(p),
        zeroed(t0, t1, ps),
        trie::walk(t0, arena, slot, k, d).sound(),
        k == key ==> trie::walk(t0, arena, slot, k, d).leaf == Ok::<
            Option<(u64, Seq<u8>)>,
            ErrorView,
        >(Some((lba, hash))),
    ensures
        ({
            let t = trie::walk(t0, arena, slot, k, d);
            let u = trie::walk(t1, arena, slot, k, d);
            &&& u.sound()
            &&& u.stop == t.stop
            &&& forall|p: u64| #[trigger] u.reads.contains(p) ==> t.reads.contains(p)
            &&& ended_at(t, hash, lba) ==> u.found == Ok::<Option<Seq<u8>>, ErrorView>(None)
                && u.leaf == Ok::<Option<(u64, Seq<u8>)>, ErrorView>(None) && key::agree(
                key,
                k,
                (t.stop->0).2,
            )
            &&& !ended_at(t, hash, lba) ==> u == t && k != key && (forall|p: u64| #[trigger]
                t.reads.contains(p) ==> !ps.contains(p))
        }),
    decreases 52 - d,
{
    match slot {
        None => {},
        Some(ChildView::Dirty(j)) => {
            let x = key::chunk_of(k, d) as int;
            key::lemma_chunk_bound(k, d);
            let n = arena[j];
            assert(trie::node_wf(n, j, arena.len() as int));
            assert(trie::slot_wf(n.kids[x], arena));
            lemma_zero_walk(t0, t1, arena, n.kids[x], lba, hash, key, leaf, ps, k, d + 1);
        },
        Some(ChildView::At { hash: h, lba: l }) => {
            let t = trie::walk(t0, arena, slot, k, d);
            if l == lba {
                assert(h == hash);
            } else {
                assert(!ps.contains(l)) by {
                    if ps.contains(l) {
                        trie::lemma_leaf_owns(t0, leaf, l);
                        seal::lemma_zero_unsealed();
                    }
                }
                assert(trie::doc_at(t1, l, h) == trie::doc_at(t0, l, h)) by {
                    if l < t0.len() {
                        assert(t1[l as int] == t0[l as int]);
                    }
                }
                match trie::doc_at(t0, l, h) {
                    Ok(Some(DocView::Node(n))) => {
                        let x = key::chunk_of(k, d) as int;
                        key::lemma_chunk_bound(k, d);
                        trie::lemma_doc_shape(t0[l as int]);
                        assert(n.kids[x] matches Some(y) ==> y is At && y->hash.len() == 32);
                        lemma_zero_walk(
                            t0,
                            t1,
                            arena,
                            n.kids[x],
                            lba,
                            hash,
                            key,
                            leaf,
                            ps,
                            k,
                            d + 1,
                        );
                    },
                    Ok(Some(DocView::Furrow { .. })) => {},
                    Ok(Some(own)) => {
                        if trie::leaf_key(own) == Some(k) {
                            assert(k != key);
                            assert forall|p: u64| #[trigger] trie::furrow_set(own).contains(
                                p,
                            ) implies !ps.contains(p) by {
                                trie::lemma_leaf_owns(t0, own, p);
                                if ps.contains(p) {
                                    if p != lba {
                                        trie::lemma_leaf_owns(t0, leaf, p);
                                    }
                                }
                            }
                            assert(trie::same_at(t0, t1, trie::furrow_set(own)));
                            trie::lemma_value_frame(t0, t1, own);
                        }
                    },
                    _ => {},
                }
            }
        },
    }
}

/// What deleting a key leaves: the key finds nothing, every other key what it found.
pub open spec fn deleted(
    t0: Seq<Seq<u8>>,
    ix0: Index,
    t1: Seq<Seq<u8>>,
    ix1: Index,
    key: Seq<u8>,
    from: int,
    to: int,
) -> bool {
    &&& keep::fit(t1, ix1, from, to)
    &&& ix1.path(t1, key).found == Ok::<Option<Seq<u8>>, ErrorView>(None)
    &&& keep::same_answers_but(t0, ix0, t1, ix1, key)
    &&& forall|k: Seq<u8>|
        k.len() == 32 && k != key ==> (#[trigger] ix1.path(t1, k)).leaf == ix0.path(t0, k).leaf
    &&& forall|k: Seq<u8>, p: u64|
        k.len() == 32 && (#[trigger] ix1.path(t1, k).reads.contains(p)) ==> ix0.path(
            t0,
            k,
        ).reads.contains(p)
    &&& keep::still_covered(t0, ix0, t1, ix1)
}

/// Zeroing a key's leaf and taking out its pointer deletes the key.
pub proof fn lemma_deleted(
    t0: Seq<Seq<u8>>,
    ix0: Index,
    t1: Seq<Seq<u8>>,
    ix1: Index,
    key: Seq<u8>,
    lba: u64,
    hash: Seq<u8>,
    leaf: DocView,
    ps: Set<u64>,
    marks: Seq<(u64, Seq<u8>)>,
    gone: Seq<(u64, Seq<u8>)>,
    from: int,
    to: int,
)
    requires
        key.len() == 32,
        keep::fit(t0, ix0, from, to),
        ix0.path(t0, key).leaf == Ok::<Option<(u64, Seq<u8>)>, ErrorView>(Some((lba, hash))),
        trie::doc_at(t0, lba, hash) == Ok::<Option<DocView>, ErrorView>(Some(leaf)),
        trie::leaf_key(leaf) == Some(key),
        trie::leaf_value(t0, leaf) is Ok,
        forall|p: u64| ps.contains(p) == #[trigger] leaf_blocks(lba, leaf).contains(p),
        zeroed(t0, t1, ps),
        prunes(t1, ix0, ix1, key, hash, lba, edit::places(gone)),
        ix1.added == ix0.added,
        ix1.removed == ix0.removed + marks + gone,
        forall|i: int| 0 <= i < marks.len() ==> ps.contains((#[trigger] marks[i]).0),
    ensures
        deleted(t0, ix0, t1, ix1, key, from, to),
{
    let pg = edit::places(gone);
    assert(ps.contains(lba)) by {
        assert(leaf_blocks(lba, leaf).contains(lba));
    }
    assert forall|k: Seq<u8>| k.len() == 32 implies {
        let a = ix0.path(t0, k);
        let u = #[trigger] ix0.path(t1, k);
        &&& u.sound()
        &&& u.stop == a.stop
        &&& forall|p: u64| #[trigger] u.reads.contains(p) ==> a.reads.contains(p)
        &&& ended_at(a, hash, lba) ==> u.found == Ok::<Option<Seq<u8>>, ErrorView>(None) && u.leaf
            == Ok::<Option<(u64, Seq<u8>)>, ErrorView>(None) && key::agree(key, k, (a.stop->0).2)
        &&& !ended_at(a, hash, lba) ==> u == a && k != key && (forall|p: u64| #[trigger]
            a.reads.contains(p) ==> !ps.contains(p))
    } by {
        assert(ix0.path(t0, k).sound());
        lemma_zero_walk(t0, t1, ix0.arena, ix0.root, lba, hash, key, leaf, ps, k, 0);
    }
    assert(keep::placed(t1, ix0)) by {
        assert forall|k: Seq<u8>| k.len() == 32 implies (#[trigger] ix0.path(t1, k)).placed by {
            assert(ix0.path(t1, k).sound());
        }
    }
    assert(t1[lba as int] == block::zeros());
    assert(trie::doc_at(t1, lba, hash) == Ok::<Option<DocView>, ErrorView>(None));
    assert forall|k: Seq<u8>| k.len() == 32 implies {
        let a = ix0.path(t0, k);
        let w = #[trigger] ix1.path(t1, k);
        &&& w.sound()
        &&& a.sound()
        &&& k == key ==> w.found == Ok::<Option<Seq<u8>>, ErrorView>(None)
        &&& k != key ==> w.found == a.found && w.leaf == a.leaf
        &&& forall|p: u64| #[trigger]
            w.reads.contains(p) ==> a.reads.contains(p) && !ps.contains(p) && !pg.contains(p)
    } by {
        let a = ix0.path(t0, k);
        let u = ix0.path(t1, k);
        let w = ix1.path(t1, k);
        assert(u.sound());
        assert(a.sound());
        assert(pruned(u, w, k, key, hash, lba, pg));
        if ended_at(a, hash, lba) {
            trie::lemma_agree_swap(key, k, (a.stop->0).2);
            assert(cut_off(w));
            if k != key {
                lemma_stop_other(t0, ix0.arena, ix0.root, k, 0);
            }
        } else {
            assert(swap::passed_by(u, w, pg));
        }
    }
    assert forall|k: Seq<u8>, p: u64|
        k.len() == 32 && (#[trigger] ix1.path(t1, k).reads.contains(p)) implies ix0.path(
        t0,
        k,
    ).reads.contains(p) && !ps.contains(p) && !pg.contains(p) && p < t1.len() && !tract::in_strip(
        p as int,
        from,
        to,
        t1.len() as int,
    ) by {
        let w = ix1.path(t1, k);
        assert(w.sound());
        assert(ix0.path(t0, k).reads.contains(p));
    }
    assert forall|m: Map<u64, Seq<u8>>| keep::covered(t0, ix0, m) implies #[trigger] keep::covered(
        t1,
        ix1,
        m,
    ) by {
        let a0 = keep::applied(m, ix0.added, ix0.removed);
        let a1 = keep::applied(m, ix1.added, ix1.removed);
        assert forall|k: Seq<u8>, p: u64|
            k.len() == 32 && (#[trigger] ix1.path(t1, k).reads.contains(p)) implies p < t1.len()
            && seal::hp_of(t1[p as int]) is Some && a1.contains_key(p) && Some(a1[p])
            == seal::hp_of(t1[p as int]) by {
            assert(ix0.path(t0, k).reads.contains(p));
            assert(keep::knows(t0, ix0, a0));
            assert(t1[p as int] == t0[p as int]);
            let all = marks + gone;
            assert(!edit::places(all).contains(p)) by {
                if edit::places(all).contains(p) {
                    let i = choose|i: int| 0 <= i < all.len() && (#[trigger] all[i]).0 == p;
                    if i < marks.len() {
                        assert(marks[i].0 == p);
                    } else {
                        assert(gone[i - marks.len()].0 == p);
                    }
                }
            }
            let none = Seq::<(u64, Seq<u8>)>::empty();
            assert(ix0.added + none =~= ix1.added);
            assert(ix0.removed + all =~= ix1.removed);
            keep::lemma_applied_same(m, ix0.added, ix0.removed, none, all, p);
        }
    }
}

/// A sound path that ends at a leaf of another key finds nothing.
pub proof fn lemma_stop_other(
    tract: Seq<Seq<u8>>,
    arena: Seq<NodeView>,
    slot: Option<ChildView>,
    k: Seq<u8>,
    d: int,
)
    ensures
        ({
            let t = trie::walk(tract, arena, slot, k, d);
            t.sound() && t.stop is Some && (trie::doc_at(
                tract,
                (t.stop->0).1,
                (t.stop->0).0,
            ) matches Ok(Some(leaf)) && trie::leaf_key(leaf) != Some(k)) ==> t.found == Ok::<
                Option<Seq<u8>>,
                ErrorView,
            >(None) && t.leaf == Ok::<Option<(u64, Seq<u8>)>, ErrorView>(None)
        }),
    decreases 52 - d,
{
    match slot {
        Some(ChildView::Dirty(j)) => {
            if 0 <= d < 52 && 0 <= j < arena.len() {
                lemma_stop_other(
                    tract,
                    arena,
                    arena[j].kids[key::chunk_of(k, d) as int],
                    k,
                    d + 1,
                );
            }
        },
        Some(ChildView::At { hash, lba }) => {
            if let Ok(Some(DocView::Node(n))) = trie::doc_at(tract, lba, hash) {
                if 0 <= d < 52 {
                    lemma_stop_other(tract, arena, n.kids[key::chunk_of(k, d) as int], k, d + 1);
                }
            }
        },
        None => {},
    }
}

/// Zeroing blocks that are no nodes leaves how many nodes a path comes by.
pub proof fn lemma_zeroed_thawed(
    t0: Seq<Seq<u8>>,
    t1: Seq<Seq<u8>>,
    arena: Seq<NodeView>,
    slot: Option<ChildView>,
    k: Seq<u8>,
    d: int,
    ps: Set<u64>,
)
    requires
        0 <= d <= 52,
        zeroed(t0, t1, ps),
        forall|p: u64| #[trigger]
            ps.contains(p) ==> p < t0.len() && !(doc::doc_of(t0[p as int]) matches Ok(
                DocView::Node(_),
            )),
    ensures
        edit::thawed(t1, arena, slot, k, d) == edit::thawed(t0, arena, slot, k, d),
    decreases 52 - d,
{
    if d < 52 {
        match slot {
            None => {},
            Some(ChildView::Dirty(j)) => {
                if 0 <= j < arena.len() {
                    lemma_zeroed_thawed(
                        t0,
                        t1,
                        arena,
                        arena[j].kids[key::chunk_of(k, d) as int],
                        k,
                        d + 1,
                        ps,
                    );
                }
            },
            Some(ChildView::At { hash, lba }) => {
                if ps.contains(lba) {
                    assert(t1[lba as int] == block::zeros());
                } else {
                    assert(trie::doc_at(t1, lba, hash) == trie::doc_at(t0, lba, hash));
                    if let Ok(Some(DocView::Node(n))) = trie::doc_at(t0, lba, hash) {
                        lemma_zeroed_thawed(
                            t0,
                            t1,
                            arena,
                            n.kids[key::chunk_of(k, d) as int],
                            k,
                            d + 1,
                            ps,
                        );
                    }
                }
            },
        }
    }
}

}
