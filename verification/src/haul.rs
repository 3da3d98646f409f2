//! What moving a block, or rebuilding the leaf of moved furrows, does to the paths of all keys.
use vstd::prelude::*;
use crate::doc;
use crate::doc::{ChildView, DocView, NodeView};
use crate::edit;
use crate::error::ErrorView;
use crate::hamt::Index;
use crate::keep;
use crate::key;
use crate::seal;
use crate::settle;
use crate::swap;
use crate::tract;
use crate::trie;

verus! {

/// Whether a path from `new` comes to what it comes to from `old`, and reads nothing more than that
/// but `fresh`, and not `old` itself.
pub open spec fn alike_from(
    t: Seq<Seq<u8>>,
    old: ChildView,
    new: ChildView,
    fresh: Set<u64>,
    k: Seq<u8>,
    e: int,
) -> bool {
    let h = swap::tail(t, Some(old), k, e);
    let v = swap::tail(t, Some(new), k, e);
    &&& v.sound()
    &&& v.found == h.found
    &&& v.leaf == h.leaf || (h.leaf == Ok::<Option<(u64, Seq<u8>)>, ErrorView>(
        Some((old->lba, old->hash)),
    ) && v.leaf == Ok::<Option<(u64, Seq<u8>)>, ErrorView>(Some((new->lba, new->hash))))
    &&& forall|p: u64| #[trigger]
        v.reads.contains(p) ==> fresh.contains(p) || (h.reads.contains(p) && p != old->lba)
}

/// Whether every sound path from `new` comes to what it comes to from `old`.
pub open spec fn stands_for(
    t: Seq<Seq<u8>>,
    old: ChildView,
    new: ChildView,
    fresh: Set<u64>,
) -> bool {
    forall|k: Seq<u8>, e: int|
        k.len() == 32 && 0 <= e && swap::tail(t, Some(old), k, e).sound()
            ==> #[trigger] alike_from(t, old, new, fresh, k, e)
}

/// A copy of a block stands for it.
pub proof fn lemma_copy_stands(t: Seq<Seq<u8>>, hash: Seq<u8>, from: u64, to: u64)
    requires
        from != to,
        from < t.len(),
        to < t.len(),
        t[from as int] == t[to as int],
        seal::hp_of(t[from as int]) is Some,
    ensures
        stands_for(
            t,
            ChildView::At { hash, lba: from },
            ChildView::At { hash, lba: to },
            Set::<u64>::empty().insert(to),
        ),
{
    let old = ChildView::At { hash, lba: from };
    let new = ChildView::At { hash, lba: to };
    let fresh = Set::<u64>::empty().insert(to);
    seal::lemma_zero_unsealed();
    assert forall|k: Seq<u8>, e: int|
        k.len() == 32 && 0 <= e && swap::tail(t, Some(old), k, e).sound() implies #[trigger] alike_from(
        t,
        old,
        new,
        fresh,
        k,
        e,
    ) by {
        let h = swap::tail(t, Some(old), k, e);
        let v = swap::tail(t, Some(new), k, e);
        assert(trie::doc_at(t, from, hash) == trie::doc_at(t, to, hash));
        match trie::doc_at(t, from, hash) {
            Ok(Some(DocView::Node(n))) => {
                let none = Seq::<NodeView>::empty();
                let s = n.kids[key::chunk_of(k, e) as int];
                let sub = swap::tail(t, s, k, e + 1);
                trie::lemma_sound_reads(t, none, s, k, e + 1);
                assert(!sub.reads.contains(from));
            },
            Ok(Some(DocView::Furrow { .. })) => {},
            Ok(Some(leaf)) => {
                if trie::leaf_key(leaf) == Some(k) {
                    if trie::furrow_set(leaf).contains(from) {
                        trie::lemma_leaf_owns(t, leaf, from);
                    }
                }
            },
            _ => {},
        }
    }
}

proof fn lemma_same_gathered(
    t: Seq<Seq<u8>>,
    key: Seq<u8>,
    ps: Seq<u64>,
    qs: Seq<u64>,
    n: nat,
)
    requires
        n <= ps.len() == qs.len(),
        forall|i: int|
            0 <= i < ps.len() && (#[trigger] ps[i]) < t.len() ==> qs[i] < t.len() && t[qs[i] as int]
                == t[ps[i] as int],
        trie::gathered(t, key, ps, n) is Ok,
    ensures
        trie::gathered(t, key, qs, n) == trie::gathered(t, key, ps, n),
    decreases n,
{
    if n > 0 {
        lemma_same_gathered(t, key, ps, qs, (n - 1) as nat);
        assert(ps[n - 1] < t.len());
    }
}

/// A leaf that lists copies of another's furrows stands for it.
pub proof fn lemma_leaf_stands(
    t: Seq<Seq<u8>>,
    old: ChildView,
    new: ChildView,
    key: Seq<u8>,
    size: u64,
    a: DocView,
    b: DocView,
    ps: Seq<u64>,
    qs: Seq<u64>,
    fresh: Set<u64>,
)
    requires
        old is At,
        new is At,
        trie::doc_at(t, old->lba, old->hash) == Ok::<Option<DocView>, ErrorView>(Some(a)),
        trie::doc_at(t, new->lba, new->hash) == Ok::<Option<DocView>, ErrorView>(Some(b)),
        a matches DocView::Extent { key: k, size: s, runs } && k == key && s == size,
        b matches DocView::Extent { key: k, size: s, runs } && k == key && s == size,
        trie::leaf_positions(a) == Ok::<Seq<u64>, ErrorView>(ps),
        trie::leaf_positions(b) == Ok::<Seq<u64>, ErrorView>(qs),
        ps.len() == qs.len(),
        forall|i: int|
            0 <= i < ps.len() && (#[trigger] ps[i]) < t.len() ==> qs[i] < t.len() && t[qs[i] as int]
                == t[ps[i] as int],
        forall|i: int|
            0 <= i < qs.len() ==> (#[trigger] qs[i]) == ps[i] || fresh.contains(qs[i]),
        fresh.contains(new->lba),
        old->lba != new->lba,
    ensures
        stands_for(t, old, new, fresh),
{
    assert forall|k: Seq<u8>, e: int|
        k.len() == 32 && 0 <= e && swap::tail(t, Some(old), k, e).sound() implies #[trigger] alike_from(
        t,
        old,
        new,
        fresh,
        k,
        e,
    ) by {
        let h = swap::tail(t, Some(old), k, e);
        let v = swap::tail(t, Some(new), k, e);
        if k == key {
            lemma_same_gathered(t, key, ps, qs, ps.len());
            assert forall|p: u64| #[trigger] v.reads.contains(p) implies fresh.contains(p) || (
            h.reads.contains(p) && p != old->lba) by {
                if p != new->lba {
                    let i = choose|i: int| 0 <= i < qs.len() && qs[i] == p;
                    assert(qs[i] == p);
                    if !fresh.contains(p) {
                        assert(ps[i] == p);
                        assert(ps.to_set().contains(p));
                        trie::lemma_leaf_owns(t, a, p);
                        seal::lemma_zero_unsealed();
                    }
                }
            }
        }
    }
}

/// What swapping a pointer for one that stands for it keeps.
pub proof fn lemma_hauled(
    t: Seq<Seq<u8>>,
    ix0: Index,
    ix1: Index,
    old: ChildView,
    new: ChildView,
    key: Seq<u8>,
    depth: int,
    more: Seq<(u64, Seq<u8>)>,
    gone: Seq<(u64, Seq<u8>)>,
    olds: Seq<(u64, Seq<u8>)>,
    from: int,
    mid: int,
    to: int,
)
    requires
        from <= mid <= to,
        to - from <= t.len(),
        key.len() == 32,
        keep::fit(t, ix0, from, to),
        old is At,
        new is At,
        swap::swaps(
            t,
            ix0.arena,
            ix0.root,
            ix1.arena,
            ix1.root,
            key,
            old,
            Some(new),
            edit::places(gone),
            0,
            depth,
        ),
        swap::aimed(t, old, key, depth),
        stands_for(t, old, new, edit::places(more)),
        settle::marks_stand(t, more, from, mid),
        !tract::in_strip(old->lba as int, from, mid, t.len() as int),
        ix1.added == ix0.added + more,
        ix1.removed == ix0.removed + gone + olds,
        forall|i: int|
            0 <= i < olds.len() ==> (#[trigger] olds[i]).0 == old->lba || (doc::doc_of(
                t[olds[i].0 as int],
            ) matches Ok(DocView::Furrow { key: k, .. }) && k == key && olds[i].0 < t.len()
                && seal::hp_of(t[olds[i].0 as int]) is Some && ix0.path(t, key).leaf == Ok::<
                Option<(u64, Seq<u8>)>,
                ErrorView,
            >(Some((old->lba, old->hash))) && !(exists|e: int|
                swap::tail(t, Some(new), key, e).reads.contains(olds[i].0))),
    ensures
        keep::fit(t, ix1, mid, to),
        keep::freshly(t, ix0, t, ix1, from, mid),
        keep::same_answers(t, ix0, t, ix1),
        keep::still_covered(t, ix0, t, ix1),
        forall|k: Seq<u8>|
            k.len() == 32 ==> (#[trigger] ix1.path(t, k)).leaf == ix0.path(t, k).leaf || (ix0.path(
                t,
                k,
            ).leaf == Ok::<Option<(u64, Seq<u8>)>, ErrorView>(Some((old->lba, old->hash)))
                && ix1.path(t, k).leaf == Ok::<Option<(u64, Seq<u8>)>, ErrorView>(
                Some((new->lba, new->hash)),
            )),
        forall|k: Seq<u8>, p: u64|
            k.len() == 32 && (#[trigger] ix1.path(t, k).reads.contains(p)) ==> (edit::places(
                gone + olds,
            ).contains(p) ==> tract::in_strip(p as int, from, mid, t.len() as int)) && p
                != old->lba,
{
    let len = t.len() as int;
    let pg = edit::places(gone);
    let fresh = edit::places(more);
    settle::lemma_marks_within(t, more, from, mid);
    assert(edit::branch_placed(t, ix0.arena, ix0.root, key, 0)) by {
        assert forall|k: Seq<u8>| k.len() == 32 && key::agree(k, key, 0) implies (
        #[trigger] trie::walk(t, ix0.arena, ix0.root, k, 0)).placed by {
            assert(ix0.path(t, k).sound());
        }
    }
    assert forall|k: Seq<u8>| k.len() == 32 implies ({
        let a = ix0.path(t, k);
        let u = #[trigger] ix1.path(t, k);
        &&& a.sound()
        &&& u.sound()
        &&& u.found == a.found
        &&& u.leaf == a.leaf || (a.leaf == Ok::<Option<(u64, Seq<u8>)>, ErrorView>(
            Some((old->lba, old->hash)),
        ) && u.leaf == Ok::<Option<(u64, Seq<u8>)>, ErrorView>(Some((new->lba, new->hash))))
        &&& forall|p: u64| #[trigger]
            u.reads.contains(p) ==> (fresh.contains(p) || a.reads.contains(p)) && p != old->lba && (
            pg.contains(p) ==> fresh.contains(p)) && (edit::places(olds).contains(p)
                ==> fresh.contains(p))
    }) by {
        lemma_hauled_path(
            t,
            ix0,
            ix1,
            old,
            new,
            key,
            depth,
            more,
            gone,
            olds,
            from,
            mid,
            to,
            k,
        );
    }
    assert forall|k: Seq<u8>, p: u64|
        k.len() == 32 && (#[trigger] ix1.path(t, k).reads.contains(p)) implies ({
        &&& p < t.len()
        &&& !tract::in_strip(p as int, mid, to, len)
        &&& ix0.path(t, k).reads.contains(p) || tract::in_strip(p as int, from, mid, len)
        &&& (edit::places(gone + olds).contains(p) ==> tract::in_strip(p as int, from, mid, len))
        &&& p != old->lba
    }) by {
        let a = ix0.path(t, k);
        let u = ix1.path(t, k);
        assert(u.found == a.found);
        if fresh.contains(p) {
            tract::lemma_strip_apart(p as int, from, mid, to, len);
        } else {
            assert(a.reads.contains(p));
            if tract::in_strip(p as int, mid, to, len) {
                tract::lemma_strip_tail(p as int, from, mid, to, len);
            }
            lemma_places_add(gone, olds, p);
        }
    }
    assert forall|m: Map<u64, Seq<u8>>| keep::covered(t, ix0, m) implies #[trigger] keep::covered(
        t,
        ix1,
        m,
    ) by {
        let a0 = keep::applied(m, ix0.added, ix0.removed);
        let a1 = keep::applied(m, ix1.added, ix1.removed);
        assert forall|k: Seq<u8>, p: u64|
            k.len() == 32 && (#[trigger] ix1.path(t, k).reads.contains(p)) implies p < t.len()
            && seal::hp_of(t[p as int]) is Some && a1.contains_key(p) && Some(a1[p])
            == seal::hp_of(t[p as int]) by {
            let a = ix0.path(t, k);
            let u = ix1.path(t, k);
            assert(u.found == a.found);
            if fresh.contains(p) {
                let i = choose|i: int| 0 <= i < more.len() && (#[trigger] more[i]).0 == p;
                let h = more[i].1;
                assert(seal::hp_of(t[p as int]) == Some(h));
                keep::lemma_applied_new(m, ix0.added, ix1.removed, more, p, h);
            } else {
                assert(a.reads.contains(p));
                lemma_places_add(gone, olds, p);
                assert(ix0.removed + (gone + olds) =~= ix1.removed);
                keep::lemma_applied_same(m, ix0.added, ix0.removed, more, gone + olds, p);
                assert(keep::knows(t, ix0, a0));
            }
        }
    }
}

pub proof fn lemma_places_add(a: Seq<(u64, Seq<u8>)>, b: Seq<(u64, Seq<u8>)>, p: u64)
    ensures
        edit::places(a + b).contains(p) == (edit::places(a).contains(p) || edit::places(
            b,
        ).contains(p)),
{
    let c = a + b;
    if edit::places(a).contains(p) {
        let i = choose|i: int| 0 <= i < a.len() && (#[trigger] a[i]).0 == p;
        assert(c[i].0 == p);
    }
    if edit::places(b).contains(p) {
        let i = choose|i: int| 0 <= i < b.len() && (#[trigger] b[i]).0 == p;
        assert(c[a.len() + i].0 == p);
    }
    if edit::places(c).contains(p) {
        let i = choose|i: int| 0 <= i < c.len() && (#[trigger] c[i]).0 == p;
        if i < a.len() {
            assert(a[i].0 == p);
        } else {
            assert(b[i - a.len()].0 == p);
        }
    }
}

#[verifier::rlimit(50)]
proof fn lemma_hauled_path(
    t: Seq<Seq<u8>>,
    ix0: Index,
    ix1: Index,
    old: ChildView,
    new: ChildView,
    key: Seq<u8>,
    depth: int,
    more: Seq<(u64, Seq<u8>)>,
    gone: Seq<(u64, Seq<u8>)>,
    olds: Seq<(u64, Seq<u8>)>,
    from: int,
    mid: int,
    to: int,
    k: Seq<u8>,
)
    requires
        from <= mid <= to,
        to - from <= t.len(),
        key.len() == 32,
        k.len() == 32,
        keep::fit(t, ix0, from, to),
        old is At,
        new is At,
        edit::branch_placed(t, ix0.arena, ix0.root, key, 0),
        swap::swaps(
            t,
            ix0.arena,
            ix0.root,
            ix1.arena,
            ix1.root,
            key,
            old,
            Some(new),
            edit::places(gone),
            0,
            depth,
        ),
        swap::aimed(t, old, key, depth),
        stands_for(t, old, new, edit::places(more)),
        settle::marks_stand(t, more, from, mid),
        !tract::in_strip(old->lba as int, from, mid, t.len() as int),
        forall|i: int|
            0 <= i < olds.len() ==> (#[trigger] olds[i]).0 == old->lba || (doc::doc_of(
                t[olds[i].0 as int],
            ) matches Ok(DocView::Furrow { key: k, .. }) && k == key && olds[i].0 < t.len()
                && seal::hp_of(t[olds[i].0 as int]) is Some && ix0.path(t, key).leaf == Ok::<
                Option<(u64, Seq<u8>)>,
                ErrorView,
            >(Some((old->lba, old->hash))) && !(exists|e: int|
                swap::tail(t, Some(new), key, e).reads.contains(olds[i].0))),
    ensures
        ({
            let a = ix0.path(t, k);
            let u = ix1.path(t, k);
            let fresh = edit::places(more);
            &&& a.sound()
            &&& u.sound()
            &&& u.found == a.found
            &&& u.leaf == a.leaf || (a.leaf == Ok::<Option<(u64, Seq<u8>)>, ErrorView>(
                Some((old->lba, old->hash)),
            ) && u.leaf == Ok::<Option<(u64, Seq<u8>)>, ErrorView>(Some((new->lba, new->hash))))
            &&& forall|p: u64| #[trigger]
                u.reads.contains(p) ==> (fresh.contains(p) || a.reads.contains(p)) && p
                    != old->lba && (edit::places(gone).contains(p) ==> fresh.contains(p)) && (
                edit::places(olds).contains(p) ==> fresh.contains(p))
        }),
{
    let a = ix0.path(t, k);
    let u = ix1.path(t, k);
    let pg = edit::places(gone);
    let fresh = edit::places(more);
    settle::lemma_marks_within(t, more, from, mid);
    seal::lemma_zero_unsealed();
    assert(a.sound());
    assert(key::agree(k, key, 0));
    assert(swap::swapped(
        t,
        trie::walk(t, ix0.arena, ix0.root, k, 0),
        trie::walk(t, ix1.arena, ix1.root, k, 0),
        k,
        key,
        old,
        Some(new),
        pg,
        0,
        depth,
    ));
    let hit = exists|e: int|
        0 <= e <= 52 && #[trigger] swap::passed_thru(
            t,
            a,
            u,
            k,
            key,
            old,
            Some(new),
            pg,
            e,
        );
    if hit {
        let e = choose|e: int|
            0 <= e <= 52 && #[trigger] swap::passed_thru(
                t,
                a,
                u,
                k,
                key,
                old,
                Some(new),
                pg,
                e,
            );
        let h = swap::tail(t, Some(old), k, e);
        let v = swap::tail(t, Some(new), k, e);
        assert(h.sound());
        assert(alike_from(t, old, new, fresh, k, e));
        let none = Seq::<NodeView>::empty();
        trie::lemma_sound_reads(t, none, Some(new), k, e);
        assert forall|p: u64| #[trigger] u.reads.contains(p) implies (fresh.contains(p)
            || a.reads.contains(p)) && p != old->lba && (pg.contains(p) ==> fresh.contains(p)) && (
        edit::places(olds).contains(p) ==> fresh.contains(p)) by {
            assert(v.reads.contains(p));
            if edit::places(olds).contains(p) && !fresh.contains(p) {
                let i = choose|i: int| 0 <= i < olds.len() && (#[trigger] olds[i]).0 == p;
                if olds[i].0 != old->lba {
                    // furrows of `key` are read by `key` alone
                    assert(k == key);
                    assert(swap::tail(t, Some(new), key, e).reads.contains(p));
                }
            }
        }
    } else {
        assert(swap::passed_by(a, u, pg));
        trie::lemma_sound_reads(t, ix1.arena, ix1.root, k, 0);
        assert forall|p: u64| #[trigger] u.reads.contains(p) implies (fresh.contains(p)
            || a.reads.contains(p)) && p != old->lba && (pg.contains(p) ==> fresh.contains(p)) && (
        edit::places(olds).contains(p) ==> fresh.contains(p)) by {
            assert(a.reads.contains(p));
            if edit::places(olds).contains(p) {
                let i = choose|i: int| 0 <= i < olds.len() && (#[trigger] olds[i]).0 == p;
                if olds[i].0 != old->lba {
                    assert(k == key);
                    // the path of `key` ends at its leaf, which is `old`
                    trie::lemma_furrow_reads(t, ix0.arena, ix0.root, key, 0, p);
                    lemma_key_hits(t, ix0, ix1, old, new, key, depth, gone, p);
                }
            }
        }
    }
}

/// The path of a leaf's own key passes the pointer to it.
proof fn lemma_key_hits(
    t: Seq<Seq<u8>>,
    ix0: Index,
    ix1: Index,
    old: ChildView,
    new: ChildView,
    key: Seq<u8>,
    depth: int,
    gone: Seq<(u64, Seq<u8>)>,
    p: u64,
)
    requires
        key.len() == 32,
        keep::sound(t, ix0),
        old is At,
        swap::aimed(t, old, key, depth),
        ix1.path(t, key).reads.contains(p),
        ix0.path(t, key).leaf == Ok::<Option<(u64, Seq<u8>)>, ErrorView>(
            Some((old->lba, old->hash)),
        ),
        swap::swapped(
            t,
            ix0.path(t, key),
            ix1.path(t, key),
            key,
            key,
            old,
            Some(new),
            edit::places(gone),
            0,
            depth,
        ),
    ensures
        exists|e: int|
            0 <= e <= 52 && #[trigger] swap::passed_thru(
                t,
                ix0.path(t, key),
                ix1.path(t, key),
                key,
                key,
                old,
                Some(new),
                edit::places(gone),
                e,
            ),
{
    crate::hamt::lemma_leaf_found(t, ix0.arena, ix0.root, key, 0);
    swap::lemma_stop_below(t, ix0.arena, ix0.root, key, 0);
    let a = ix0.path(t, key);
    assert(depth == 255);
    assert(key::agree(key, key, (a.stop->0).2));
}

}
