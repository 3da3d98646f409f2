//! What writing arena nodes to the tract does to the paths of all keys: nothing but where they read.
use vstd::prelude::*;
use crate::doc;
use crate::doc::{ChildView, DocView, NodeView};
use crate::edit;
use crate::error::ErrorView;
use crate::hamt::Index;
use crate::keep;
use crate::key;
use crate::seal;
use crate::tract;
use crate::trie;
use crate::trie::Trace;

verus! {

/// Whether a path comes to the same, and reads nothing new but `fresh`.
pub open spec fn alike(t: Trace, u: Trace, fresh: Set<u64>) -> bool {
    &&& u.found == t.found
    &&& u.leaf == t.leaf
    &&& u.placed == t.placed
    &&& u.whole == t.whole
    &&& u.stop == t.stop || u.stop is Some
    &&& forall|p: u64| #[trigger] u.reads.contains(p) ==> t.reads.contains(p) || fresh.contains(p)
    &&& t.reads.subset_of(u.reads)
}

/// Whether a path stays out of the totals from `from` up to `to`.
pub open spec fn clear(t: Trace, from: int, to: int, len: int) -> bool {
    forall|p: u64| #[trigger]
        t.reads.contains(p) ==> p < len && !tract::in_strip(p as int, from, to, len)
}

/// Whether every path from every slot that stays out of clean space comes to the same.
pub open spec fn all_alike(
    t0: Seq<Seq<u8>>,
    a0: Seq<NodeView>,
    t1: Seq<Seq<u8>>,
    a1: Seq<NodeView>,
    fresh: Set<u64>,
    from: int,
    to: int,
) -> bool {
    forall|slot: Option<ChildView>, k: Seq<u8>, d: int|
        k.len() == 32 && trie::slot_wf(slot, a0) && clear(
            trie::walk(t0, a0, slot, k, d),
            from,
            to,
            t0.len() as int,
        ) ==> alike(
            trie::walk(t0, a0, slot, k, d),
            #[trigger] trie::walk(t1, a1, slot, k, d),
            fresh,
        )
}

/// Whether every path from `was` comes to the same from `now`.
pub open spec fn slots_alike(
    t0: Seq<Seq<u8>>,
    a0: Seq<NodeView>,
    was: Option<ChildView>,
    t1: Seq<Seq<u8>>,
    a1: Seq<NodeView>,
    now: Option<ChildView>,
    fresh: Set<u64>,
    from: int,
    to: int,
) -> bool {
    forall|k: Seq<u8>, d: int|
        k.len() == 32 && clear(trie::walk(t0, a0, was, k, d), from, to, t0.len() as int) ==> alike(
            trie::walk(t0, a0, was, k, d),
            #[trigger] trie::walk(t1, a1, now, k, d),
            fresh,
        )
}

/// Marks of blocks that stand within the totals `from` up to `mid`.
pub open spec fn marks_stand(
    t: Seq<Seq<u8>>,
    marks: Seq<(u64, Seq<u8>)>,
    from: int,
    mid: int,
) -> bool {
    forall|i: int|
        0 <= i < marks.len() ==> {
            let e = #[trigger] marks[i];
            &&& e.0 < t.len()
            &&& tract::in_strip(e.0 as int, from, mid, t.len() as int)
            &&& seal::hp_of(t[e.0 as int]) == Some(e.1)
        }
}

/// A change of the tract where no path goes.
pub proof fn lemma_alike_tract(
    t0: Seq<Seq<u8>>,
    a: Seq<NodeView>,
    t1: Seq<Seq<u8>>,
    from: int,
    lim: int,
    to: int,
)
    requires
        trie::arena_wf(a),
        tract::kept_outside(t0, t1, from, lim),
        lim <= to,
    ensures
        all_alike(t0, a, t1, a, Set::<u64>::empty(), from, to),
{
    assert forall|slot: Option<ChildView>, k: Seq<u8>, d: int|
        k.len() == 32 && trie::slot_wf(slot, a) && clear(
            trie::walk(t0, a, slot, k, d),
            from,
            to,
            t0.len() as int,
        ) implies alike(
        trie::walk(t0, a, slot, k, d),
        #[trigger] trie::walk(t1, a, slot, k, d),
        Set::<u64>::empty(),
    ) by {
        let r = trie::walk(t0, a, slot, k, d).reads;
        assert(trie::same_at(t0, t1, r)) by {
            assert forall|p: u64| #[trigger] r.contains(p) && p < t0.len() implies t0[p as int]
                == t1[p as int] by {
                assert(!tract::in_strip(p as int, from, lim, t0.len() as int));
            }
        }
        trie::law_path_depends_on_its_reads(t0, t1, a, a, slot, k, d);
    }
}

/// One arena node gets another pointer that comes to the same.
proof fn lemma_alike_walk(
    t: Seq<Seq<u8>>,
    a: Seq<NodeView>,
    j: int,
    c: int,
    new: ChildView,
    fresh: Set<u64>,
    from: int,
    to: int,
    slot: Option<ChildView>,
    k: Seq<u8>,
    d: int,
)
    requires
        trie::arena_wf(a),
        0 <= j < a.len(),
        0 <= c < 32,
        a[j].kids[c] is Some,
        new is At,
        slots_alike(t, a, a[j].kids[c], t, a, Some(new), fresh, from, to),
        k.len() == 32,
        trie::slot_wf(slot, a),
        clear(trie::walk(t, a, slot, k, d), from, to, t.len() as int),
    ensures
        alike(
            trie::walk(t, a, slot, k, d),
            trie::walk(
                t,
                a.update(j, NodeView { kids: a[j].kids.update(c, Some(new)), ..a[j] }),
                slot,
                k,
                d,
            ),
            fresh,
        ),
    decreases 52 - d,
{
    let b = a.update(j, NodeView { kids: a[j].kids.update(c, Some(new)), ..a[j] });
    assert(trie::node_wf(a[j], j, a.len() as int));
    trie::lemma_stands_kid(a[j], k, d, c, Some(new));
    match slot {
        None => {},
        Some(ChildView::Dirty(i)) => {
            if 0 <= d < 52 {
                let x = key::chunk_of(k, d) as int;
                key::lemma_chunk_bound(k, d);
                assert(trie::node_wf(a[i], i, a.len() as int));
                let sub = a[i].kids[x];
                assert(trie::slot_wf(sub, a));
                let s = trie::walk(t, a, sub, k, d + 1);
                assert(clear(s, from, to, t.len() as int)) by {
                    assert forall|p: u64| #[trigger] s.reads.contains(p) implies p < t.len()
                        && !tract::in_strip(p as int, from, to, t.len() as int) by {
                        assert(trie::walk(t, a, slot, k, d).reads.contains(p));
                    }
                }
                if i == j && x == c {
                    edit::lemma_committed_walk(t, a, b, Some(new), k, d + 1);
                    assert(alike(s, trie::walk(t, a, Some(new), k, d + 1), fresh));
                } else {
                    lemma_alike_walk(t, a, j, c, new, fresh, from, to, sub, k, d + 1);
                    assert(b[i].kids[x] == sub);
                }
            }
        },
        Some(ChildView::At { hash, lba }) => {
            edit::lemma_committed_walk(t, a, b, slot, k, d);
        },
    }
}

/// One arena node gets another pointer that comes to the same: every path comes to the same.
pub proof fn lemma_alike_kid(
    t: Seq<Seq<u8>>,
    a: Seq<NodeView>,
    j: int,
    c: int,
    new: ChildView,
    fresh: Set<u64>,
    from: int,
    to: int,
)
    requires
        trie::arena_wf(a),
        0 <= j < a.len(),
        0 <= c < 32,
        a[j].kids[c] is Some,
        new is At,
        new->hash.len() == 32,
        slots_alike(t, a, a[j].kids[c], t, a, Some(new), fresh, from, to),
    ensures
        ({
            let b = a.update(j, NodeView { kids: a[j].kids.update(c, Some(new)), ..a[j] });
            &&& trie::arena_wf(b)
            &&& all_alike(t, a, t, b, fresh, from, to)
        }),
{
    let b = a.update(j, NodeView { kids: a[j].kids.update(c, Some(new)), ..a[j] });
    assert forall|i: int| 0 <= i < b.len() implies trie::node_wf(
        #[trigger] b[i],
        i,
        b.len() as int,
    ) by {
        assert(trie::node_wf(a[i], i, a.len() as int));
        if i == j {
            assert forall|x: int| 0 <= x < 32 implies ((#[trigger] b[i].kids[x]) matches Some(y)
                ==> match y {
                ChildView::Dirty(q) => i < q < b.len(),
                ChildView::At { hash, lba } => hash.len() == 32,
            }) by {
                if x != c {
                    assert(b[i].kids[x] == a[i].kids[x]);
                }
            }
        }
    }
    assert forall|slot: Option<ChildView>, k: Seq<u8>, d: int|
        k.len() == 32 && trie::slot_wf(slot, a) && clear(
            trie::walk(t, a, slot, k, d),
            from,
            to,
            t.len() as int,
        ) implies alike(
        trie::walk(t, a, slot, k, d),
        #[trigger] trie::walk(t, b, slot, k, d),
        fresh,
    ) by {
        lemma_alike_walk(t, a, j, c, new, fresh, from, to, slot, k, d);
    }
}

/// Alike twice is alike.
pub proof fn lemma_alike_twice(
    t0: Seq<Seq<u8>>,
    a0: Seq<NodeView>,
    t1: Seq<Seq<u8>>,
    a1: Seq<NodeView>,
    t2: Seq<Seq<u8>>,
    a2: Seq<NodeView>,
    f: Set<u64>,
    g: Set<u64>,
    fresh: Set<u64>,
    from: int,
    mid: int,
    to: int,
    was: Option<ChildView>,
    now: Option<ChildView>,
    end: Option<ChildView>,
)
    requires
        from <= mid <= to,
        to - from <= t0.len(),
        t1.len() == t0.len(),
        a1.len() >= a0.len(),
        all_alike(t0, a0, t1, a1, f, from, to),
        all_alike(t1, a1, t2, a2, g, mid, to),
        forall|p: u64| #[trigger] f.contains(p) ==> fresh.contains(p),
        forall|p: u64| #[trigger] g.contains(p) ==> fresh.contains(p),
        forall|p: u64| #[trigger]
            f.contains(p) ==> p < t0.len() && tract::in_strip(
                p as int,
                from,
                mid,
                t0.len() as int,
            ),
    ensures
        all_alike(t0, a0, t2, a2, fresh, from, to),
        slots_alike(t0, a0, was, t1, a1, now, f, from, to) && slots_alike(
            t1,
            a1,
            now,
            t2,
            a2,
            end,
            g,
            mid,
            to,
        ) ==> slots_alike(t0, a0, was, t2, a2, end, fresh, from, to),
{
    let len = t0.len() as int;
    assert forall|slot: Option<ChildView>, k: Seq<u8>, d: int|
        k.len() == 32 && trie::slot_wf(slot, a0) && clear(
            trie::walk(t0, a0, slot, k, d),
            from,
            to,
            len,
        ) implies alike(
        trie::walk(t0, a0, slot, k, d),
        #[trigger] trie::walk(t2, a2, slot, k, d),
        fresh,
    ) by {
        let t = trie::walk(t0, a0, slot, k, d);
        let u = trie::walk(t1, a1, slot, k, d);
        assert(alike(t, u, f));
        lemma_still_clear(t, u, f, from, mid, to, len);
        assert(trie::slot_wf(slot, a1));
        assert(alike(u, trie::walk(t2, a2, slot, k, d), g));
    }
    if slots_alike(t0, a0, was, t1, a1, now, f, from, to) && slots_alike(
        t1,
        a1,
        now,
        t2,
        a2,
        end,
        g,
        mid,
        to,
    ) {
        assert forall|k: Seq<u8>, d: int|
            k.len() == 32 && clear(trie::walk(t0, a0, was, k, d), from, to, len) implies alike(
            trie::walk(t0, a0, was, k, d),
            #[trigger] trie::walk(t2, a2, end, k, d),
            fresh,
        ) by {
            let t = trie::walk(t0, a0, was, k, d);
            let u = trie::walk(t1, a1, now, k, d);
            assert(alike(t, u, f));
            lemma_still_clear(t, u, f, from, mid, to, len);
            assert(alike(u, trie::walk(t2, a2, end, k, d), g));
        }
    }
}

proof fn lemma_still_clear(
    t: Trace,
    u: Trace,
    f: Set<u64>,
    from: int,
    mid: int,
    to: int,
    len: int,
)
    requires
        clear(t, from, to, len),
        alike(t, u, f),
        from <= mid <= to,
        to - from <= len,
        forall|p: u64| #[trigger]
            f.contains(p) ==> p < len && tract::in_strip(p as int, from, mid, len),
    ensures
        clear(u, mid, to, len),
{
    assert forall|p: u64| #[trigger] u.reads.contains(p) implies p < len && !tract::in_strip(
        p as int,
        mid,
        to,
        len,
    ) by {
        if t.reads.contains(p) {
            if tract::in_strip(p as int, mid, to, len) {
                tract::lemma_strip_tail(p as int, from, mid, to, len);
            }
        } else {
            tract::lemma_strip_apart(p as int, from, mid, to, len);
        }
    }
}

/// An arena node without arena children comes to the same as its block on the tract.
pub proof fn lemma_alike_written(
    t: Seq<Seq<u8>>,
    a: Seq<NodeView>,
    j: int,
    hash: Seq<u8>,
    lba: u64,
    from: int,
    to: int,
)
    requires
        trie::arena_wf(a),
        0 <= j < a.len(),
        doc::all_at(a[j].kids),
        trie::doc_at(t, lba, hash) == Ok::<Option<DocView>, ErrorView>(Some(DocView::Node(a[j]))),
    ensures
        slots_alike(
            t,
            a,
            Some(ChildView::Dirty(j)),
            t,
            a,
            Some(ChildView::At { hash, lba }),
            Set::<u64>::empty().insert(lba),
            from,
            to,
        ),
{
    let fresh = Set::<u64>::empty().insert(lba);
    assert forall|k: Seq<u8>, d: int|
        k.len() == 32 && clear(
            trie::walk(t, a, Some(ChildView::Dirty(j)), k, d),
            from,
            to,
            t.len() as int,
        ) implies alike(
        trie::walk(t, a, Some(ChildView::Dirty(j)), k, d),
        #[trigger] trie::walk(t, a, Some(ChildView::At { hash, lba }), k, d),
        fresh,
    ) by {
        if 0 <= d < 52 {
            let s = trie::walk(t, a, a[j].kids[key::chunk_of(k, d) as int], k, d + 1);
        }
    }
}

/// What flushing keeps of an index in working order.
pub proof fn lemma_settled(
    t0: Seq<Seq<u8>>,
    ix0: Index,
    from: int,
    t1: Seq<Seq<u8>>,
    ix1: Index,
    mid: int,
    lim: int,
    to: int,
    more: Seq<(u64, Seq<u8>)>,
)
    requires
        ix1.wf(),
        from <= mid <= to,
        lim <= to,
        to - from <= t0.len(),
        tract::kept_outside(t0, t1, from, lim),
        keep::fit(t0, ix0, from, to) ==> slots_alike(
            t0,
            ix0.arena,
            ix0.root,
            t1,
            ix1.arena,
            ix1.root,
            edit::places(more),
            from,
            to,
        ),
        marks_stand(t1, more, from, mid),
        ix1.added == ix0.added + more,
        ix1.removed == ix0.removed,
    ensures
        keep::tended(t0, ix0, from, t1, ix1, mid, lim, to),
        keep::fit(t0, ix0, from, to) ==> keep::same_answers(t0, ix0, t1, ix1) && (forall|
            k: Seq<u8>,
        |
            k.len() == 32 ==> (#[trigger] ix1.path(t1, k)).leaf == ix0.path(t0, k).leaf),
        keep::fit(t0, ix0, from, to) ==> forall|k: Seq<u8>|
            k.len() == 32 ==> edit::retains(
                ix0.path(t0, k),
                #[trigger] ix1.path(t1, k),
                edit::places(Seq::<(u64, Seq<u8>)>::empty()),
            ),
{
    let len = t0.len() as int;
    if keep::fit(t0, ix0, from, to) {
        let fresh = edit::places(more);
        assert forall|p: u64| #[trigger] fresh.contains(p) implies p < len && tract::in_strip(
            p as int,
            from,
            mid,
            len,
        ) by {
            let i = choose|i: int| 0 <= i < more.len() && (#[trigger] more[i]).0 == p;
            assert(more[i].0 == p);
        }
        assert forall|k: Seq<u8>| k.len() == 32 implies alike(
            ix0.path(t0, k),
            #[trigger] ix1.path(t1, k),
            fresh,
        ) && clear(ix0.path(t0, k), from, to, len) && ix0.path(t0, k).sound() by {
            let t = ix0.path(t0, k);
            assert(clear(t, from, to, len)) by {
                assert forall|p: u64| #[trigger] t.reads.contains(p) implies p < len
                    && !tract::in_strip(p as int, from, to, len) by {
                    assert(ix0.path(t0, k).reads.contains(p));
                }
            }
            assert(alike(
                trie::walk(t0, ix0.arena, ix0.root, k, 0),
                trie::walk(t1, ix1.arena, ix1.root, k, 0),
                fresh,
            ));
        }
        assert forall|k: Seq<u8>, p: u64|
            k.len() == 32 && (#[trigger] ix1.path(t1, k).reads.contains(p)) implies ({
            &&& p < t1.len()
            &&& !tract::in_strip(p as int, mid, to, len)
            &&& ix0.path(t0, k).reads.contains(p) || tract::in_strip(p as int, from, mid, len)
        }) by {
            let t = ix0.path(t0, k);
            let u = ix1.path(t1, k);
            assert(alike(t, u, fresh));
            lemma_still_clear(t, u, fresh, from, mid, to, len);
        }
        assert forall|m: Map<u64, Seq<u8>>| keep::covered(
            t0,
            ix0,
            m,
        ) implies #[trigger] keep::covered(t1, ix1, m) by {
            let a0 = keep::applied(m, ix0.added, ix0.removed);
            let a1 = keep::applied(m, ix1.added, ix1.removed);
            assert forall|k: Seq<u8>, p: u64|
                k.len() == 32 && (#[trigger] ix1.path(t1, k).reads.contains(p)) implies p
                < t1.len() && seal::hp_of(t1[p as int]) is Some && a1.contains_key(p) && Some(
                a1[p],
            ) == seal::hp_of(t1[p as int]) by {
                let t = ix0.path(t0, k);
                let u = ix1.path(t1, k);
                assert(alike(t, u, fresh));
                if fresh.contains(p) {
                    let i = choose|i: int| 0 <= i < more.len() && (#[trigger] more[i]).0 == p;
                    let h = more[i].1;
                    assert(seal::hp_of(t1[p as int]) == Some(h));
                    keep::lemma_applied_new(m, ix0.added, ix1.removed, more, p, h);
                } else {
                    assert(t.reads.contains(p));
                    assert(!tract::in_strip(p as int, from, to, len));
                    assert(t1[p as int] == t0[p as int]);
                    let none = Seq::<(u64, Seq<u8>)>::empty();
                    assert(ix0.removed + none =~= ix1.removed);
                    keep::lemma_applied_same(m, ix0.added, ix0.removed, more, none, p);
                    assert(keep::knows(t0, ix0, a0));
                }
            }
        }
    }
}

/// Marks stay good while appends go on behind them.
pub proof fn lemma_marks_stay(
    t0: Seq<Seq<u8>>,
    t1: Seq<Seq<u8>>,
    marks: Seq<(u64, Seq<u8>)>,
    more: Seq<(u64, Seq<u8>)>,
    from: int,
    mid: int,
    end: int,
    lim: int,
)
    requires
        from <= mid <= end <= lim,
        lim - from <= t0.len(),
        marks_stand(t0, marks, from, mid),
        tract::kept_outside(t0, t1, mid, lim),
        marks_stand(t1, more, mid, end),
    ensures
        marks_stand(t1, marks + more, from, end),
        forall|p: u64| #[trigger]
            edit::places(marks + more).contains(p) == (edit::places(marks).contains(p)
                || edit::places(more).contains(p)),
{
    let len = t0.len() as int;
    let all = marks + more;
    assert forall|i: int| 0 <= i < all.len() implies ({
        let e = #[trigger] all[i];
        &&& e.0 < t1.len()
        &&& tract::in_strip(e.0 as int, from, end, len)
        &&& seal::hp_of(t1[e.0 as int]) == Some(e.1)
    }) by {
        let e = all[i];
        if i < marks.len() {
            assert(marks[i] == e);
            tract::lemma_strip_apart(e.0 as int, from, mid, lim, len);
            assert(t1[e.0 as int] == t0[e.0 as int]);
        } else {
            assert(more[i - marks.len()] == e);
            tract::lemma_strip_tail(e.0 as int, from, mid, end, len);
        }
    }
    assert forall|p: u64| #[trigger] edit::places(all).contains(p) == (edit::places(
        marks,
    ).contains(p) || edit::places(more).contains(p)) by {
        if edit::places(marks).contains(p) {
            let i = choose|i: int| 0 <= i < marks.len() && (#[trigger] marks[i]).0 == p;
            assert(all[i].0 == p);
        }
        if edit::places(more).contains(p) {
            let i = choose|i: int| 0 <= i < more.len() && (#[trigger] more[i]).0 == p;
            assert(all[marks.len() + i].0 == p);
        }
        if edit::places(all).contains(p) {
            let i = choose|i: int| 0 <= i < all.len() && (#[trigger] all[i]).0 == p;
            if i < marks.len() {
                assert(marks[i].0 == p);
            } else {
                assert(more[i - marks.len()].0 == p);
            }
        }
    }
}

/// Where marks stand.
pub proof fn lemma_marks_within(t: Seq<Seq<u8>>, marks: Seq<(u64, Seq<u8>)>, from: int, mid: int)
    requires
        marks_stand(t, marks, from, mid),
    ensures
        forall|p: u64| #[trigger]
            edit::places(marks).contains(p) ==> p < t.len() && tract::in_strip(
                p as int,
                from,
                mid,
                t.len() as int,
            ),
{
    assert forall|p: u64| #[trigger] edit::places(marks).contains(p) implies p < t.len()
        && tract::in_strip(p as int, from, mid, t.len() as int) by {
        let i = choose|i: int| 0 <= i < marks.len() && (#[trigger] marks[i]).0 == p;
        assert(marks[i].0 == p);
    }
}

/// Every path is like itself.
pub proof fn lemma_alike_self(t: Seq<Seq<u8>>, a: Seq<NodeView>, fresh: Set<u64>, from: int, to: int)
    ensures
        all_alike(t, a, t, a, fresh, from, to),
{
}

/// The blocks of marks stay as they are while others are appended.
pub proof fn lemma_marks_blocks(
    t0: Seq<Seq<u8>>,
    t1: Seq<Seq<u8>>,
    marks: Seq<(u64, Seq<u8>)>,
    from: int,
    mid: int,
    lim: int,
)
    requires
        from <= mid <= lim,
        lim - from <= t0.len(),
        marks_stand(t0, marks, from, mid),
        tract::kept_outside(t0, t1, mid, lim),
    ensures
        forall|p: u64| #[trigger]
            edit::places(marks).contains(p) ==> p < t0.len() && t1[p as int] == t0[p as int],
{
    assert forall|p: u64| #[trigger] edit::places(marks).contains(p) implies p < t0.len()
        && t1[p as int] == t0[p as int] by {
        let i = choose|i: int| 0 <= i < marks.len() && (#[trigger] marks[i]).0 == p;
        assert(marks[i].0 == p);
        tract::lemma_strip_apart(p as int, from, mid, lim, t0.len() as int);
    }
}

}
