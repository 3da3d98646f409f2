//! What every operation on the index keeps: sound paths, that no path leads into clean space, and
//! that the live set knows every block on a path.
use vstd::prelude::*;
use crate::edit;
use crate::hamt::Index;
use crate::key;
use crate::seal;
use crate::tract;
use crate::trie;

verus! {

/// Whether every key's path is sound.
pub open spec fn sound(t: Seq<Seq<u8>>, ix: Index) -> bool {
    forall|k: Seq<u8>| k.len() == 32 ==> (#[trigger] ix.path(t, k)).sound()
}

/// Whether every key's path is well placed.
pub open spec fn placed(t: Seq<Seq<u8>>, ix: Index) -> bool {
    forall|k: Seq<u8>| k.len() == 32 ==> (#[trigger] ix.path(t, k)).placed
}

/// Whether no path reads a block at the totals from `from` up to `to`.
pub open spec fn sheltered(t: Seq<Seq<u8>>, ix: Index, from: int, to: int) -> bool {
    forall|k: Seq<u8>, p: u64|
        k.len() == 32 && (#[trigger] ix.path(t, k).reads.contains(p)) ==> p < t.len()
            && !tract::in_strip(p as int, from, to, t.len() as int)
}

/// An index in working order over a tract whose clean space is `from` up to `to`.
pub open spec fn fit(t: Seq<Seq<u8>>, ix: Index, from: int, to: int) -> bool {
    &&& ix.wf()
    &&& sound(t, ix)
    &&& sheltered(t, ix, from, to)
}

/// A map without the entries that are exactly those given.
pub open spec fn thinned(m: Map<u64, Seq<u8>>, rs: Seq<(u64, Seq<u8>)>) -> Map<u64, Seq<u8>>
    decreases rs.len(),
{
    if rs.len() == 0 {
        m
    } else {
        let s = thinned(m, rs.drop_last());
        if s.contains_key(rs.last().0) && s[rs.last().0] == rs.last().1 {
            s.remove(rs.last().0)
        } else {
            s
        }
    }
}

/// A map with the entries given, the later ones over the earlier.
pub open spec fn filled(m: Map<u64, Seq<u8>>, xs: Seq<(u64, Seq<u8>)>) -> Map<u64, Seq<u8>>
    decreases xs.len(),
{
    if xs.len() == 0 {
        m
    } else {
        filled(m, xs.drop_last()).insert(xs.last().0, xs.last().1)
    }
}

/// A live set after what was added and removed: removals first.
pub open spec fn applied(
    m: Map<u64, Seq<u8>>,
    added: Seq<(u64, Seq<u8>)>,
    removed: Seq<(u64, Seq<u8>)>,
) -> Map<u64, Seq<u8>> {
    filled(thinned(m, removed), added)
}

/// Whether a live set holds every block on every path, under its hash.
pub open spec fn knows(t: Seq<Seq<u8>>, ix: Index, m: Map<u64, Seq<u8>>) -> bool {
    forall|k: Seq<u8>, p: u64|
        k.len() == 32 && (#[trigger] ix.path(t, k).reads.contains(p)) ==> p < t.len()
            && seal::hp_of(t[p as int]) is Some && m.contains_key(p) && Some(m[p])
            == seal::hp_of(t[p as int])
}

/// Whether a live set, brought up to date, holds every block on every path.
pub open spec fn covered(t: Seq<Seq<u8>>, ix: Index, m: Map<u64, Seq<u8>>) -> bool {
    knows(t, ix, applied(m, ix.added, ix.removed))
}

/// Whether paths read only what they read before, or blocks appended since.
pub open spec fn freshly(
    t0: Seq<Seq<u8>>,
    ix0: Index,
    t1: Seq<Seq<u8>>,
    ix1: Index,
    from: int,
    mid: int,
) -> bool {
    forall|k: Seq<u8>, p: u64|
        k.len() == 32 && (#[trigger] ix1.path(t1, k).reads.contains(p)) ==> ix0.path(
            t0,
            k,
        ).reads.contains(p) || tract::in_strip(p as int, from, mid, t0.len() as int)
}

/// Whether a live set that covered the index before covers it now.
pub open spec fn still_covered(t0: Seq<Seq<u8>>, ix0: Index, t1: Seq<Seq<u8>>, ix1: Index) -> bool {
    forall|m: Map<u64, Seq<u8>>|
        covered(t0, ix0, m) ==> #[trigger] covered(t1, ix1, m)
}

/// What an operation that appends from `from` up to `mid`, and may touch no more than what is
/// before `lim`, keeps of an index whose clean space ends at `to`.
pub open spec fn tended(
    t0: Seq<Seq<u8>>,
    ix0: Index,
    from: int,
    t1: Seq<Seq<u8>>,
    ix1: Index,
    mid: int,
    lim: int,
    to: int,
) -> bool {
    &&& from <= mid
    &&& tract::kept_outside(t0, t1, from, lim)
    &&& ix1.wf()
    &&& fit(t0, ix0, from, to) ==> {
        &&& fit(t1, ix1, mid, to)
        &&& freshly(t0, ix0, t1, ix1, from, mid)
        &&& still_covered(t0, ix0, t1, ix1)
    }
}

/// Whether every key finds what it found before.
pub open spec fn same_answers(t0: Seq<Seq<u8>>, ix0: Index, t1: Seq<Seq<u8>>, ix1: Index) -> bool {
    forall|k: Seq<u8>|
        k.len() == 32 ==> (#[trigger] ix1.path(t1, k)).found == ix0.path(t0, k).found
}

/// Whether every key but one finds what it found before.
pub open spec fn same_answers_but(
    t0: Seq<Seq<u8>>,
    ix0: Index,
    t1: Seq<Seq<u8>>,
    ix1: Index,
    key: Seq<u8>,
) -> bool {
    forall|k: Seq<u8>|
        k.len() == 32 && k != key ==> (#[trigger] ix1.path(t1, k)).found == ix0.path(t0, k).found
}

/// Whether two maps say the same of a position.
pub open spec fn same_entry(a: Map<u64, Seq<u8>>, b: Map<u64, Seq<u8>>, p: u64) -> bool {
    a.contains_key(p) == b.contains_key(p) && (a.contains_key(p) ==> a[p] == b[p])
}

pub proof fn lemma_thinned_entry(
    m: Map<u64, Seq<u8>>,
    rs: Seq<(u64, Seq<u8>)>,
    gs: Seq<(u64, Seq<u8>)>,
    p: u64,
)
    requires
        !edit::places(gs).contains(p),
    ensures
        same_entry(thinned(m, rs + gs), thinned(m, rs), p),
    decreases gs.len(),
{
    if gs.len() == 0 {
        assert(rs + gs =~= rs);
    } else {
        let front = gs.drop_last();
        assert((rs + gs).drop_last() =~= rs + front);
        assert(!edit::places(front).contains(p)) by {
            if edit::places(front).contains(p) {
                let i = choose|i: int| 0 <= i < front.len() && (#[trigger] front[i]).0 == p;
                assert(gs[i].0 == p);
            }
        }
        lemma_thinned_entry(m, rs, front, p);
        assert(gs[gs.len() - 1].0 != p);
    }
}

pub proof fn lemma_filled_entry(
    a: Map<u64, Seq<u8>>,
    b: Map<u64, Seq<u8>>,
    xs: Seq<(u64, Seq<u8>)>,
    p: u64,
)
    requires
        same_entry(a, b, p),
    ensures
        same_entry(filled(a, xs), filled(b, xs), p),
    decreases xs.len(),
{
    if xs.len() > 0 {
        lemma_filled_entry(a, b, xs.drop_last(), p);
    }
}

pub proof fn lemma_filled_more(
    m: Map<u64, Seq<u8>>,
    xs: Seq<(u64, Seq<u8>)>,
    ys: Seq<(u64, Seq<u8>)>,
    p: u64,
)
    ensures
        !edit::places(ys).contains(p) ==> same_entry(filled(m, xs + ys), filled(m, xs), p),
        forall|h: Seq<u8>|
            edit::places(ys).contains(p) && (forall|i: int|
                0 <= i < ys.len() && (#[trigger] ys[i]).0 == p ==> ys[i].1 == h)
                ==> #[trigger] filled(m, xs + ys).contains_pair(p, h),
    decreases ys.len(),
{
    if ys.len() == 0 {
        assert(xs + ys =~= xs);
    } else {
        let front = ys.drop_last();
        assert((xs + ys).drop_last() =~= xs + front);
        lemma_filled_more(m, xs, front, p);
        let last = ys[ys.len() - 1];
        assert((xs + ys).last() == last);
        if edit::places(front).contains(p) {
            let i = choose|i: int| 0 <= i < front.len() && (#[trigger] front[i]).0 == p;
            assert(ys[i].0 == p);
        }
        assert forall|h: Seq<u8>|
            edit::places(ys).contains(p) && (forall|i: int|
                0 <= i < ys.len() && (#[trigger] ys[i]).0 == p ==> ys[i].1
                    == h) implies #[trigger] filled(m, xs + ys).contains_pair(p, h) by {
            if last.0 == p {
                assert(last.1 == h);
            } else {
                let i = choose|i: int| 0 <= i < ys.len() && (#[trigger] ys[i]).0 == p;
                assert(front[i].0 == p);
                assert(edit::places(front).contains(p));
                assert forall|i: int| 0 <= i < front.len() && (#[trigger] front[i]).0
                    == p implies front[i].1 == h by {
                    assert(ys[i] == front[i]);
                }
                assert(filled(m, xs + front).contains_pair(p, h));
            }
        }
    }
}

/// A position that was neither added nor removed keeps its entry.
pub proof fn lemma_applied_same(
    m: Map<u64, Seq<u8>>,
    added: Seq<(u64, Seq<u8>)>,
    removed: Seq<(u64, Seq<u8>)>,
    more: Seq<(u64, Seq<u8>)>,
    gone: Seq<(u64, Seq<u8>)>,
    p: u64,
)
    requires
        !edit::places(more).contains(p),
        !edit::places(gone).contains(p),
    ensures
        same_entry(
            applied(m, added + more, removed + gone),
            applied(m, added, removed),
            p,
        ),
{
    lemma_thinned_entry(m, removed, gone, p);
    lemma_filled_entry(thinned(m, removed + gone), thinned(m, removed), added, p);
    lemma_filled_more(thinned(m, removed + gone), added, more, p);
}

/// A position that was added has the entry it was added with.
pub proof fn lemma_applied_new(
    m: Map<u64, Seq<u8>>,
    added: Seq<(u64, Seq<u8>)>,
    removed: Seq<(u64, Seq<u8>)>,
    more: Seq<(u64, Seq<u8>)>,
    p: u64,
    h: Seq<u8>,
)
    requires
        edit::places(more).contains(p),
        forall|i: int| 0 <= i < more.len() && (#[trigger] more[i]).0 == p ==> more[i].1 == h,
    ensures
        applied(m, added + more, removed).contains_pair(p, h),
{
    lemma_filled_more(thinned(m, removed), added, more, p);
}

/// A tract that changed only where no path reads leaves every path as it is.
pub proof fn lemma_undisturbed(
    t0: Seq<Seq<u8>>,
    t1: Seq<Seq<u8>>,
    ix: Index,
    from: int,
    lim: int,
    to: int,
)
    requires
        ix.wf(),
        sheltered(t0, ix, from, to),
        lim <= to,
        tract::kept_outside(t0, t1, from, lim),
    ensures
        forall|k: Seq<u8>| k.len() == 32 ==> #[trigger] ix.path(t1, k) == ix.path(t0, k),
{
    assert forall|k: Seq<u8>| k.len() == 32 implies #[trigger] ix.path(t1, k) == ix.path(t0, k) by {
        let r = ix.path(t0, k).reads;
        assert(trie::same_at(t0, t1, r)) by {
            assert forall|p: u64| #[trigger] r.contains(p) && p < t0.len() implies t0[p as int]
                == t1[p as int] by {
                assert(ix.path(t0, k).reads.contains(p));
                assert(!tract::in_strip(p as int, from, lim, t0.len() as int));
            }
        }
        trie::law_path_depends_on_its_reads(t0, t1, ix.arena, ix.arena, ix.root, k, 0);
    }
}

/// Clean space that shrank from the front is still clean.
pub proof fn lemma_sheltered_tail(t: Seq<Seq<u8>>, ix: Index, from: int, mid: int, to: int)
    requires
        sheltered(t, ix, from, to),
        from <= mid,
        to - from <= t.len(),
    ensures
        sheltered(t, ix, mid, to),
{
    assert forall|k: Seq<u8>, p: u64|
        k.len() == 32 && (#[trigger] ix.path(t, k).reads.contains(p)) implies p < t.len()
        && !tract::in_strip(p as int, mid, to, t.len() as int) by {
        if tract::in_strip(p as int, mid, to, t.len() as int) {
            if mid <= to {
                tract::lemma_strip_tail(p as int, from, mid, to, t.len() as int);
            } else {
                vstd::arithmetic::div_mod::lemma_mod_bound(p - mid, t.len() as int);
            }
        }
    }
}

/// Two operations in a row keep what each keeps.
pub proof fn lemma_tended_twice(
    t0: Seq<Seq<u8>>,
    ix0: Index,
    from: int,
    t1: Seq<Seq<u8>>,
    ix1: Index,
    mid: int,
    t2: Seq<Seq<u8>>,
    ix2: Index,
    end: int,
    lim: int,
    to: int,
)
    requires
        tended(t0, ix0, from, t1, ix1, mid, lim, to),
        tended(t1, ix1, mid, t2, ix2, end, lim, to),
        end <= lim,
        lim - from <= t0.len(),
    ensures
        tended(t0, ix0, from, t2, ix2, end, lim, to),
{
    let len = t0.len() as int;
    assert(tract::kept_outside(t0, t2, from, lim)) by {
        assert forall|p: int|
            0 <= p < t0.len() && !tract::in_strip(p, from, lim, len) implies #[trigger] t2[p]
            == t0[p] by {
            if tract::in_strip(p, mid, lim, len) {
                tract::lemma_strip_tail(p, from, mid, lim, len);
            }
            assert(t1[p] == t0[p]);
        }
    }
    if fit(t0, ix0, from, to) {
        assert forall|k: Seq<u8>, p: u64|
            k.len() == 32 && (#[trigger] ix2.path(t2, k).reads.contains(p)) implies ix0.path(
            t0,
            k,
        ).reads.contains(p) || tract::in_strip(p as int, from, end, len) by {
            assert(p < t2.len());
            if ix1.path(t1, k).reads.contains(p) {
                if tract::in_strip(p as int, from, mid, len) {
                    vstd::arithmetic::div_mod::lemma_mod_bound(p - from, len);
                }
            } else {
                tract::lemma_strip_tail(p as int, from, mid, end, len);
            }
        }
        assert forall|m: Map<u64, Seq<u8>>| covered(t0, ix0, m) implies #[trigger] covered(
            t2,
            ix2,
            m,
        ) by {
            assert(covered(t1, ix1, m));
        }
    }
}

/// What planting a leaf of `key` keeps: the index stays in working order, and every other key finds
/// what it found.
pub proof fn lemma_planted(
    t0: Seq<Seq<u8>>,
    ix0: Index,
    from: int,
    t1: Seq<Seq<u8>>,
    ix1: Index,
    mid: int,
    to: int,
    key: Seq<u8>,
    c: crate::doc::ChildView,
    more: Seq<(u64, Seq<u8>)>,
    gone: Seq<(u64, Seq<u8>)>,
)
    requires
        key.len() == 32,
        fit(t0, ix0, from, to),
        from <= mid <= to,
        to - from <= t0.len(),
        tract::kept_outside(t0, t1, from, mid),
        edit::plants(
            t1,
            ix0.arena,
            ix0.root,
            ix1.arena,
            ix1.root,
            key,
            c,
            edit::places(gone),
            0,
        ),
        ix1.added == ix0.added + more,
        ix1.removed == ix0.removed + gone,
        edit::ending(t1, c, key, 0).whole,
        forall|p: u64| #[trigger]
            edit::ending(t1, c, key, 0).reads.contains(p) ==> edit::places(more).contains(p),
        forall|i: int|
            0 <= i < more.len() ==> {
                let e = #[trigger] more[i];
                &&& e.0 < t1.len()
                &&& tract::in_strip(e.0 as int, from, mid, t1.len() as int)
                &&& seal::hp_of(t1[e.0 as int]) == Some(e.1)
            },
    ensures
        fit(t1, ix1, mid, to),
        freshly(t0, ix0, t1, ix1, from, mid),
        still_covered(t0, ix0, t1, ix1),
        same_answers_but(t0, ix0, t1, ix1, key),
        forall|k: Seq<u8>|
            k.len() == 32 && k != key ==> (#[trigger] ix1.path(t1, k)).leaf == ix0.path(
                t0,
                k,
            ).leaf,
        forall|k: Seq<u8>, p: u64|
            k.len() == 32 && (#[trigger] ix1.path(t1, k).reads.contains(p)) && edit::places(
                gone,
            ).contains(p) ==> edit::places(more).contains(p),
        forall|k: Seq<u8>|
            k.len() == 32 ==> edit::retains(
                ix0.path(t0, k),
                #[trigger] ix1.path(t1, k),
                edit::places(gone),
            ),
        forall|p: u64| #[trigger]
            edit::places(gone).contains(p) ==> ix0.path(t0, key).reads.contains(p) && t1[p as int]
                == t0[p as int],
{
    let len = t0.len() as int;
    let leaf = edit::ending(t1, c, key, 0);
    lemma_undisturbed(t0, t1, ix0, from, mid, to);
    assert(edit::branch_placed(t1, ix0.arena, ix0.root, key, 0)) by {
        assert forall|k: Seq<u8>| k.len() == 32 && key::agree(k, key, 0) implies (
        #[trigger] trie::walk(t1, ix0.arena, ix0.root, k, 0)).placed by {
            assert(ix0.path(t1, k) == ix0.path(t0, k));
            assert(ix0.path(t0, k).sound());
        }
    }
    assert(ix0.path(t1, key) == ix0.path(t0, key));
    assert(ix0.path(t0, key).sound());
    assert forall|k: Seq<u8>| k.len() == 32 implies edit::planted(
        ix0.path(t0, k),
        #[trigger] ix1.path(t1, k),
        k,
        key,
        leaf,
        edit::places(gone),
    ) && ix0.path(t0, k).sound() by {
        assert(key::agree(k, key, 0));
        assert(ix0.path(t1, k) == ix0.path(t0, k));
        assert(edit::planted(
            trie::walk(t1, ix0.arena, ix0.root, k, 0),
            trie::walk(t1, ix1.arena, ix1.root, k, 0),
            k,
            key,
            leaf,
            edit::places(gone),
        ));
    }
    assert forall|p: u64| #[trigger] edit::places(gone).contains(p) implies ix0.path(
        t0,
        key,
    ).reads.contains(p) && t1[p as int] == t0[p as int] by {
        assert(trie::walk(t1, ix0.arena, ix0.root, key, 0).reads.contains(p));
        assert(ix0.path(t0, key).reads.contains(p));
        assert(!tract::in_strip(p as int, from, to, len));
        assert(!tract::in_strip(p as int, from, mid, len));
    }
    assert forall|p: u64| #[trigger] leaf.reads.contains(p) implies p < t1.len()
        && tract::in_strip(p as int, from, mid, len) && edit::places(more).contains(p) by {
        let i = choose|i: int| 0 <= i < more.len() && (#[trigger] more[i]).0 == p;
        assert(more[i].0 == p);
    }
    assert forall|k: Seq<u8>, p: u64|
        k.len() == 32 && (#[trigger] ix1.path(t1, k).reads.contains(p)) implies ({
        &&& p < t1.len()
        &&& !tract::in_strip(p as int, mid, to, len)
        &&& ix0.path(t0, k).reads.contains(p) || tract::in_strip(p as int, from, mid, len)
        &&& edit::places(gone).contains(p) ==> edit::places(more).contains(p)
    }) by {
        let t = ix0.path(t0, k);
        let u = ix1.path(t1, k);
        assert(edit::planted(t, u, k, key, leaf, edit::places(gone)));
        if leaf.reads.contains(p) {
            tract::lemma_strip_apart(p as int, from, mid, to, len);
        } else {
            assert(t.reads.contains(p));
            if tract::in_strip(p as int, mid, to, len) {
                tract::lemma_strip_tail(p as int, from, mid, to, len);
            }
        }
    }
    assert forall|m: Map<u64, Seq<u8>>| covered(t0, ix0, m) implies #[trigger] covered(
        t1,
        ix1,
        m,
    ) by {
        let a0 = applied(m, ix0.added, ix0.removed);
        let a1 = applied(m, ix1.added, ix1.removed);
        assert forall|k: Seq<u8>, p: u64|
            k.len() == 32 && (#[trigger] ix1.path(t1, k).reads.contains(p)) implies p < t1.len()
            && seal::hp_of(t1[p as int]) is Some && a1.contains_key(p) && Some(a1[p])
            == seal::hp_of(t1[p as int]) by {
            let t = ix0.path(t0, k);
            let u = ix1.path(t1, k);
            assert(edit::planted(t, u, k, key, leaf, edit::places(gone)));
            if edit::places(more).contains(p) {
                let i = choose|i: int| 0 <= i < more.len() && (#[trigger] more[i]).0 == p;
                let h = more[i].1;
                assert(seal::hp_of(t1[p as int]) == Some(h));
                lemma_applied_new(m, ix0.added, ix1.removed, more, p, h);
            } else {
                assert(t.reads.contains(p));
                assert(!edit::places(gone).contains(p));
                assert(!tract::in_strip(p as int, from, to, len));
                assert(t1[p as int] == t0[p as int]);
                lemma_applied_same(m, ix0.added, ix0.removed, more, gone, p);
                assert(knows(t0, ix0, a0));
            }
        }
    }
}

/// An arena that only grew, with nothing new marked, leaves the index as it is.
pub proof fn lemma_unplanted(
    t0: Seq<Seq<u8>>,
    ix0: Index,
    from: int,
    t1: Seq<Seq<u8>>,
    ix1: Index,
    mid: int,
    lim: int,
    to: int,
)
    requires
        ix0.wf(),
        trie::arena_wf(ix1.arena),
        edit::arena_within(ix0.arena, ix1.arena, Set::<int>::empty()),
        ix1.root == ix0.root,
        ix1.added == ix0.added,
        ix1.removed == ix0.removed,
        from <= mid,
        lim <= to,
        to - from <= t0.len(),
        tract::kept_outside(t0, t1, from, lim),
    ensures
        tended(t0, ix0, from, t1, ix1, mid, lim, to),
        fit(t0, ix0, from, to) ==> forall|k: Seq<u8>|
            k.len() == 32 ==> #[trigger] ix1.path(t1, k) == ix0.path(t0, k),
{
    if fit(t0, ix0, from, to) {
        lemma_undisturbed(t0, t1, ix0, from, lim, to);
        assert forall|k: Seq<u8>| k.len() == 32 implies #[trigger] ix1.path(t1, k) == ix0.path(
            t0,
            k,
        ) by {
            assert(ix0.path(t1, k) == ix0.path(t0, k));
            trie::law_path_depends_on_its_reads(
                t1,
                t1,
                ix0.arena,
                ix1.arena,
                ix0.root,
                k,
                0,
            );
        }
        assert forall|k: Seq<u8>, p: u64|
            k.len() == 32 && (#[trigger] ix1.path(t1, k).reads.contains(p)) implies ix0.path(
            t0,
            k,
        ).reads.contains(p) by {}
        lemma_sheltered_tail(t0, ix0, from, mid, to);
        assert(sheltered(t1, ix1, mid, to)) by {
            assert forall|k: Seq<u8>, p: u64|
                k.len() == 32 && (#[trigger] ix1.path(t1, k).reads.contains(p)) implies p
                < t1.len() && !tract::in_strip(p as int, mid, to, t1.len() as int) by {
                assert(ix0.path(t0, k).reads.contains(p));
            }
        }
        assert forall|m: Map<u64, Seq<u8>>| covered(t0, ix0, m) implies #[trigger] covered(
            t1,
            ix1,
            m,
        ) by {
            let a = applied(m, ix0.added, ix0.removed);
            assert forall|k: Seq<u8>, p: u64|
                k.len() == 32 && (#[trigger] ix1.path(t1, k).reads.contains(p)) implies p
                < t1.len() && seal::hp_of(t1[p as int]) is Some && a.contains_key(p) && Some(a[p])
                == seal::hp_of(t1[p as int]) by {
                assert(ix0.path(t0, k).reads.contains(p));
                assert(knows(t0, ix0, a));
                assert(t1[p as int] == t0[p as int]);
            }
        }
    }
}

/// Law: a live set is brought up to date position by position. One that was added holds the hash it was last
/// added with; another is live exactly where it was, under the same hash, and was not removed under that
/// hash.
pub proof fn law_live_set_is_brought_up_to_date(
    m: Map<u64, Seq<u8>>,
    added: Seq<(u64, Seq<u8>)>,
    removed: Seq<(u64, Seq<u8>)>,
    p: u64,
)
    ensures
        forall|i: int|
            0 <= i < added.len() && (#[trigger] added[i]).0 == p && (forall|j: int|
                i < j < added.len() ==> (#[trigger] added[j]).0 != p) ==> applied(
                m,
                added,
                removed,
            ).contains_pair(p, added[i].1),
        (forall|i: int| 0 <= i < added.len() ==> (#[trigger] added[i]).0 != p) ==> {
            &&& applied(m, added, removed).contains_key(p) <==> m.contains_key(p)
                && !removed.contains((p, m[p]))
            &&& applied(m, added, removed).contains_key(p) ==> applied(m, added, removed)[p] == m[p]
        },
{
    lemma_thinned_at(m, removed, p);
    lemma_filled_at(thinned(m, removed), added, p);
}

proof fn lemma_thinned_at(m: Map<u64, Seq<u8>>, rs: Seq<(u64, Seq<u8>)>, p: u64)
    ensures
        thinned(m, rs).contains_key(p) <==> m.contains_key(p) && !rs.contains((p, m[p])),
        thinned(m, rs).contains_key(p) ==> thinned(m, rs)[p] == m[p],
    decreases rs.len(),
{
    if rs.len() > 0 {
        let less = rs.drop_last();
        lemma_thinned_at(m, less, p);
        let x = (p, m[p]);
        if rs.contains(x) {
            let i = choose|i: int| 0 <= i < rs.len() && rs[i] == x;
            if i < less.len() {
                assert(less[i] == x);
            }
        }
        if less.contains(x) {
            let i = choose|i: int| 0 <= i < less.len() && less[i] == x;
            assert(rs[i] == x);
        }
        assert(rs[rs.len() - 1] == rs.last());
    }
}

#[verifier::rlimit(40)]
proof fn lemma_filled_at(m: Map<u64, Seq<u8>>, xs: Seq<(u64, Seq<u8>)>, p: u64)
    ensures
        forall|i: int|
            0 <= i < xs.len() && (#[trigger] xs[i]).0 == p && (forall|j: int|
                i < j < xs.len() ==> (#[trigger] xs[j]).0 != p) ==> filled(m, xs).contains_pair(
                p,
                xs[i].1,
            ),
        (forall|i: int| 0 <= i < xs.len() ==> (#[trigger] xs[i]).0 != p) ==> (filled(
            m,
            xs,
        ).contains_key(p) == m.contains_key(p) && filled(m, xs)[p] == m[p]),
    decreases xs.len(),
{
    if xs.len() > 0 {
        let less = xs.drop_last();
        lemma_filled_at(m, less, p);
        assert(forall|i: int| 0 <= i < less.len() ==> less[i] == #[trigger] xs[i]);
        assert(xs[xs.len() - 1] == xs.last());
        assert forall|i: int|
            0 <= i < xs.len() && (#[trigger] xs[i]).0 == p && (forall|j: int|
                i < j < xs.len() ==> (#[trigger] xs[j]).0 != p) implies filled(
            m,
            xs,
        ).contains_pair(p, xs[i].1) by {
            if i < less.len() {
                assert(less[i].0 == p);
                assert forall|j: int| i < j < less.len() implies (#[trigger] less[j]).0 != p by {
                    assert(xs[j].0 != p);
                }
                assert(xs[xs.len() - 1].0 != p);
            }
        }
        if forall|i: int| 0 <= i < xs.len() ==> (#[trigger] xs[i]).0 != p {
            assert forall|i: int| 0 <= i < less.len() implies (#[trigger] less[i]).0 != p by {
                assert(xs[i].0 != p);
            }
            assert(xs[xs.len() - 1].0 != p);
        }
    }
}

}
