//! That the live set holds nothing but what the index leads to.
use vstd::prelude::*;
use crate::doc::{ChildView, DocView, NodeView};
use crate::edit;
use crate::error::ErrorView;
use crate::hamt::Index;
use crate::keep;
use crate::key;
use crate::seal;
use crate::survey;
use crate::swap;
use crate::trie;

verus! {

/// Whether the path of some key reads a block.
pub open spec fn led_to(t: Seq<Seq<u8>>, ix: Index, p: u64) -> bool {
    exists|k: Seq<u8>| k.len() == 32 && #[trigger] ix.path(t, k).reads.contains(p)
}

/// Whether a live set, brought up to date, holds no block but those that the index leads to.
pub open spec fn tight(t: Seq<Seq<u8>>, ix: Index, m: Map<u64, Seq<u8>>) -> bool {
    forall|p: u64| #[trigger]
        keep::applied(m, ix.added, ix.removed).contains_key(p) ==> led_to(t, ix, p)
}

/// Whether no block was both added and removed since the last commit.
pub open spec fn unmixed(ix: Index) -> bool {
    forall|p: u64| #[trigger]
        edit::places(ix.added).contains(p) ==> !edit::places(ix.removed).contains(p)
}

/// Whether a live set that held what the index leads to and no more does so now.
pub open spec fn still_tight(t0: Seq<Seq<u8>>, ix0: Index, t1: Seq<Seq<u8>>, ix1: Index) -> bool {
    forall|m: Map<u64, Seq<u8>>|
        keep::covered(t0, ix0, m) && tight(t0, ix0, m) && unmixed(ix1) ==> #[trigger] tight(
            t1,
            ix1,
            m,
        )
}

/// A leaf that one key's path stops at is found by its own key.
proof fn lemma_same_way(
    t: Seq<Seq<u8>>,
    arena: Seq<NodeView>,
    slot: Option<ChildView>,
    k: Seq<u8>,
    own: Seq<u8>,
    d: int,
)
    requires
        trie::walk(t, arena, slot, k, d).sound(),
        trie::walk(t, arena, slot, k, d).stop matches Some((hash, lba, e)) && (trie::doc_at(
            t,
            lba,
            hash,
        ) matches Ok(Some(leaf)) && trie::leaf_key(leaf) == Some(own)) && key::agree(own, k, e),
    ensures
        trie::walk(t, arena, slot, own, d).leaf matches Ok(Some(_)),
        trie::walk(t, arena, slot, own, d).reads.contains(
            (trie::walk(t, arena, slot, k, d).stop->0).1,
        ),
    decreases 52 - d,
{
    match slot {
        Some(ChildView::Dirty(j)) => {
            if 0 <= d < 52 && 0 <= j < arena.len() {
                let sub = arena[j].kids[key::chunk_of(k, d) as int];
                swap::lemma_stop_below(t, arena, sub, k, d + 1);
                assert(key::chunk_of(own, d) == key::chunk_of(k, d));
                lemma_same_way(t, arena, sub, k, own, d + 1);
            }
        },
        Some(ChildView::At { hash, lba }) => {
            if let Ok(Some(DocView::Node(n))) = trie::doc_at(t, lba, hash) {
                if 0 <= d < 52 {
                    let sub = n.kids[key::chunk_of(k, d) as int];
                    swap::lemma_stop_below(t, arena, sub, k, d + 1);
                    assert(key::chunk_of(own, d) == key::chunk_of(k, d));
                    lemma_same_way(t, arena, sub, k, own, d + 1);
                }
            }
        },
        None => {},
    }
}

/// Where a sound path stops short of a leaf of its own, at a block that is there, it is at the leaf of
/// another key that came the same way.
proof fn lemma_stops_at(
    t: Seq<Seq<u8>>,
    arena: Seq<NodeView>,
    slot: Option<ChildView>,
    k: Seq<u8>,
    d: int,
)
    requires
        trie::walk(t, arena, slot, k, d).sound(),
        trie::walk(t, arena, slot, k, d).leaf == Ok::<Option<(u64, Seq<u8>)>, ErrorView>(None),
        trie::walk(t, arena, slot, k, d).stop matches Some((_, lba, _)) && lba < t.len()
            && seal::hp_of(t[lba as int]) is Some,
    ensures
        trie::walk(t, arena, slot, k, d).stop matches Some((hash, lba, e)) && (trie::doc_at(
            t,
            lba,
            hash,
        ) matches Ok(Some(leaf)) && (trie::leaf_key(leaf) matches Some(own) && own.len() == 32
            && key::agree(own, k, e))),
    decreases 52 - d,
{
    seal::lemma_zero_unsealed();
    match slot {
        Some(ChildView::Dirty(j)) => {
            if 0 <= d < 52 && 0 <= j < arena.len() {
                lemma_stops_at(t, arena, arena[j].kids[key::chunk_of(k, d) as int], k, d + 1);
            }
        },
        Some(ChildView::At { hash, lba }) => {
            if let Ok(Some(doc)) = trie::doc_at(t, lba, hash) {
                trie::lemma_doc_shape(t[lba as int]);
                if let DocView::Node(n) = doc {
                    if 0 <= d < 52 {
                        lemma_stops_at(t, arena, n.kids[key::chunk_of(k, d) as int], k, d + 1);
                    }
                }
            }
        },
        None => {},
    }
}

/// What a path reads is read by a path that does not stop there short of a leaf of its own.
proof fn lemma_owner(t: Seq<Seq<u8>>, ix: Index, k: Seq<u8>, p: u64) -> (own: Seq<u8>)
    requires
        keep::sound(t, ix),
        k.len() == 32,
        ix.path(t, k).reads.contains(p),
        p < t.len(),
        seal::hp_of(t[p as int]) is Some,
    ensures
        own.len() == 32,
        ix.path(t, own).reads.contains(p),
        !(ix.path(t, own).leaf == Ok::<Option<(u64, Seq<u8>)>, ErrorView>(None) && (ix.path(
            t,
            own,
        ).stop matches Some(s) && s.1 == p)),
{
    let w = ix.path(t, k);
    assert(w.sound());
    if w.leaf == Ok::<Option<(u64, Seq<u8>)>, ErrorView>(None) && (w.stop matches Some(s) && s.1
        == p) {
        lemma_stops_at(t, ix.arena, ix.root, k, 0);
        let s = w.stop->0;
        let own = trie::leaf_key(trie::doc_at(t, s.1, s.0)->Ok_0->0)->0;
        lemma_same_way(t, ix.arena, ix.root, k, own, 0);
        own
    } else {
        k
    }
}

/// What a live set loses when the exact entry of a place is among those removed.
proof fn lemma_thinned_out(m: Map<u64, Seq<u8>>, rs: Seq<(u64, Seq<u8>)>, p: u64)
    ensures
        keep::thinned(m, rs).contains_key(p) ==> m.contains_key(p) && keep::thinned(m, rs)[p]
            == m[p] && !rs.contains((p, m[p])),
    decreases rs.len(),
{
    if rs.len() > 0 {
        lemma_thinned_out(m, rs.drop_last(), p);
        if keep::thinned(m, rs).contains_key(p) && rs.contains((p, m[p])) {
            let i = choose|i: int| 0 <= i < rs.len() && rs[i] == (p, m[p]);
            if i < rs.len() - 1 {
                assert(rs.drop_last()[i] == (p, m[p]));
            }
        }
    }
}

proof fn lemma_thinned_less(
    m: Map<u64, Seq<u8>>,
    rs: Seq<(u64, Seq<u8>)>,
    gs: Seq<(u64, Seq<u8>)>,
    p: u64,
)
    ensures
        keep::thinned(m, rs + gs).contains_key(p) ==> keep::thinned(m, rs).contains_key(p),
    decreases gs.len(),
{
    if gs.len() == 0 {
        assert(rs + gs =~= rs);
    } else {
        assert((rs + gs).drop_last() =~= rs + gs.drop_last());
        lemma_thinned_less(m, rs, gs.drop_last(), p);
    }
}

/// A place that was not added has the entry it had before anything was.
proof fn lemma_filled_none(m: Map<u64, Seq<u8>>, xs: Seq<(u64, Seq<u8>)>, p: u64)
    requires
        !edit::places(xs).contains(p),
    ensures
        keep::same_entry(keep::filled(m, xs), m, p),
{
    keep::lemma_filled_more(m, Seq::<(u64, Seq<u8>)>::empty(), xs, p);
    assert(Seq::<(u64, Seq<u8>)>::empty() + xs =~= xs);
}

/// An edit that takes out no more than it says, and puts in no more than it leads to, leaves a live set
/// without more than the index leads to.
pub proof fn lemma_tight(
    t0: Seq<Seq<u8>>,
    ix0: Index,
    t1: Seq<Seq<u8>>,
    ix1: Index,
    more: Seq<(u64, Seq<u8>)>,
    gone: Seq<(u64, Seq<u8>)>,
)
    requires
        keep::sound(t0, ix0),
        ix1.added == ix0.added + more,
        ix1.removed == ix0.removed + gone,
        forall|k: Seq<u8>|
            k.len() == 32 ==> edit::retains(
                ix0.path(t0, k),
                #[trigger] ix1.path(t1, k),
                edit::places(gone),
            ),
        forall|p: u64| #[trigger] edit::places(more).contains(p) ==> led_to(t1, ix1, p),
        forall|i: int|
            0 <= i < gone.len() ==> (#[trigger] gone[i]).0 < t0.len() && seal::hp_of(
                t0[gone[i].0 as int],
            ) == Some(gone[i].1),
    ensures
        still_tight(t0, ix0, t1, ix1),
{
    assert forall|m: Map<u64, Seq<u8>>|
        keep::covered(t0, ix0, m) && tight(t0, ix0, m) && unmixed(ix1) implies #[trigger] tight(
        t1,
        ix1,
        m,
    ) by {
        let a0 = keep::applied(m, ix0.added, ix0.removed);
        let a1 = keep::applied(m, ix1.added, ix1.removed);
        assert forall|p: u64| #[trigger] a1.contains_key(p) implies led_to(t1, ix1, p) by {
            if !edit::places(more).contains(p) {
                if edit::places(gone).contains(p) {
                    let i = choose|i: int| 0 <= i < gone.len() && (#[trigger] gone[i]).0 == p;
                    assert(ix1.removed[ix0.removed.len() + i] == gone[i]);
                    assert(edit::places(ix1.removed).contains(p));
                    assert(!edit::places(ix1.added).contains(p));
                    assert(!edit::places(ix0.added).contains(p)) by {
                        if edit::places(ix0.added).contains(p) {
                            let j = choose|j: int|
                                0 <= j < ix0.added.len() && (#[trigger] ix0.added[j]).0 == p;
                            assert(ix1.added[j].0 == p);
                        }
                    }
                    lemma_filled_none(keep::thinned(m, ix1.removed), ix1.added, p);
                    lemma_filled_none(keep::thinned(m, ix0.removed), ix0.added, p);
                    lemma_thinned_out(m, ix1.removed, p);
                    lemma_thinned_out(m, ix0.removed, p);
                    lemma_thinned_less(m, ix0.removed, gone, p);
                    assert(a0.contains_key(p));
                    assert(led_to(t0, ix0, p));
                    let k = choose|k: Seq<u8>|
                        k.len() == 32 && #[trigger] ix0.path(t0, k).reads.contains(p);
                    assert(ix0.path(t0, k).reads.contains(p));
                    assert(Some(a0[p]) == seal::hp_of(t0[p as int]));
                    assert(ix1.removed[ix0.removed.len() + i] == (p, m[p]));
                } else {
                    keep::lemma_applied_same(m, ix0.added, ix0.removed, more, gone, p);
                    assert(a0.contains_key(p));
                    assert(led_to(t0, ix0, p));
                    let k = choose|k: Seq<u8>|
                        k.len() == 32 && #[trigger] ix0.path(t0, k).reads.contains(p);
                    assert(ix0.path(t0, k).reads.contains(p));
                    assert(seal::hp_of(t0[p as int]) is Some);
                    let own = lemma_owner(t0, ix0, k, p);
                    assert(edit::retains(
                        ix0.path(t0, own),
                        ix1.path(t1, own),
                        edit::places(gone),
                    ));
                    assert(ix1.path(t1, own).reads.contains(p));
                }
            }
        }
    }
}

/// Whether a block hangs below a pointer to a node, or is that, by way of nodes at the places `f` alone.
pub open spec fn hangs(
    t: Seq<Seq<u8>>,
    slot: Option<ChildView>,
    p: u64,
    f: Set<u64>,
    n: nat,
) -> bool
    decreases n,
{
    if n == 0 {
        false
    } else {
        match slot {
            Some(ChildView::At { hash, lba }) => f.contains(lba) && match trie::doc_at(
                t,
                lba,
                hash,
            ) {
                Ok(Some(DocView::Node(x))) => p == lba || exists|c: int|
                    0 <= c < 32 && hangs(t, #[trigger] x.kids[c], p, f, (n - 1) as nat),
                _ => false,
            },
            _ => false,
        }
    }
}

/// What hangs still does once other blocks are written.
pub proof fn lemma_hangs_kept(
    t0: Seq<Seq<u8>>,
    t1: Seq<Seq<u8>>,
    slot: Option<ChildView>,
    p: u64,
    f: Set<u64>,
    g: Set<u64>,
    n: nat,
    m: nat,
)
    requires
        t1.len() == t0.len(),
        forall|q: u64| #[trigger]
            f.contains(q) ==> g.contains(q) && (q < t0.len() ==> t1[q as int] == t0[q as int]),
        n <= m,
        hangs(t0, slot, p, f, n),
    ensures
        hangs(t1, slot, p, g, m),
    decreases n,
{
    if let Some(ChildView::At { hash, lba }) = slot {
        assert(f.contains(lba));
        assert(trie::doc_at(t1, lba, hash) == trie::doc_at(t0, lba, hash));
        if let Ok(Some(DocView::Node(x))) = trie::doc_at(t0, lba, hash) {
            if p != lba {
                let c = choose|c: int|
                    0 <= c < 32 && hangs(t0, #[trigger] x.kids[c], p, f, (n - 1) as nat);
                lemma_hangs_kept(
                    t0,
                    t1,
                    x.kids[c],
                    p,
                    f,
                    g,
                    (n - 1) as nat,
                    (m - 1) as nat,
                );
            }
        }
    }
}

/// Some key's path leads to what hangs.
pub proof fn lemma_hangs_led(
    t: Seq<Seq<u8>>,
    arena: Seq<NodeView>,
    slot: Option<ChildView>,
    p: u64,
    f: Set<u64>,
    n: nat,
    b: Seq<u8>,
    d: int,
) -> (k: Seq<u8>)
    requires
        b.len() == 32,
        0 <= d,
        hangs(t, slot, p, f, n),
        forall|k: Seq<u8>|
            k.len() == 32 && key::agree(k, b, d) ==> (#[trigger] trie::walk(
                t,
                arena,
                slot,
                k,
                d,
            )).placed,
    ensures
        k.len() == 32,
        key::agree(k, b, d),
        trie::walk(t, arena, slot, k, d).reads.contains(p),
    decreases n,
{
    assert(key::agree(b, b, d));
    assert(trie::walk(t, arena, slot, b, d).placed);
    let lba = slot->0->lba;
    let x = trie::doc_at(t, lba, slot->0->hash)->Ok_0->0->Node_0;
    if p == lba {
        b
    } else {
        let c = choose|c: int|
            0 <= c < 32 && hangs(t, #[trigger] x.kids[c], p, f, (n - 1) as nat);
        trie::lemma_doc_shape(t[lba as int]);
        assert(x.kids[c] is Some);
        assert(trie::stands(x, b, d));
        let b2 = key::routed(b, d, c as u8);
        key::lemma_routed(b, d, c as u8);
        assert(key::chunk_of(b2, d) == c);
        assert forall|k: Seq<u8>| k.len() == 32 && key::agree(k, b2, d + 1) implies (
        #[trigger] trie::walk(t, arena, x.kids[c], k, d + 1)).placed by {
            lemma_agree_on(k, b2, b, d);
            assert(trie::walk(t, arena, slot, k, d).placed);
        }
        let k = lemma_hangs_led(t, arena, x.kids[c], p, f, (n - 1) as nat, b2, d + 1);
        lemma_agree_on(k, b2, b, d);
        assert(trie::walk(t, arena, x.kids[c], k, d + 1).reads.contains(p));
        k
    }
}

proof fn lemma_agree_on(k: Seq<u8>, b2: Seq<u8>, b: Seq<u8>, d: int)
    requires
        0 <= d,
        key::agree(k, b2, d + 1),
        key::agree(b2, b, d),
    ensures
        key::agree(k, b, d),
        key::chunk_of(k, d) == key::chunk_of(b2, d),
{
    assert forall|i: int| 0 <= i < d implies #[trigger] key::chunk_of(k, i) == key::chunk_of(
        b,
        i,
    ) by {
        assert(key::chunk_of(k, i) == key::chunk_of(b2, i));
        assert(key::chunk_of(b2, i) == key::chunk_of(b, i));
    }
}

/// Whether all blocks of some marks hang from the first `c` of some slots.
pub open spec fn shelved(
    t: Seq<Seq<u8>>,
    kids: Seq<Option<ChildView>>,
    ms: Seq<(u64, Seq<u8>)>,
    c: int,
    n: nat,
) -> bool {
    forall|p: u64| #[trigger]
        edit::places(ms).contains(p) ==> exists|x: int|
            0 <= x < c && hangs(t, #[trigger] kids[x], p, edit::places(ms), n)
}

/// One more slot, from which what was added hangs.
pub proof fn lemma_shelved_kid(
    t0: Seq<Seq<u8>>,
    t1: Seq<Seq<u8>>,
    was: Seq<Option<ChildView>>,
    now: Seq<Option<ChildView>>,
    f: Seq<(u64, Seq<u8>)>,
    g: Seq<(u64, Seq<u8>)>,
    c: int,
    n: nat,
    m: nat,
)
    requires
        0 <= c,
        m <= n,
        shelved(t0, was, f, c, n),
        t1.len() == t0.len(),
        forall|p: u64| #[trigger]
            edit::places(f).contains(p) ==> p < t0.len() && t1[p as int] == t0[p as int],
        forall|x: int| 0 <= x < c ==> #[trigger] now[x] == was[x],
        forall|p: u64| #[trigger]
            edit::places(g).contains(p) ==> hangs(t1, now[c], p, edit::places(g), m),
        forall|p: u64| #[trigger]
            edit::places(f + g).contains(p) == (edit::places(f).contains(p) || edit::places(
                g,
            ).contains(p)),
    ensures
        shelved(t1, now, f + g, c + 1, n),
{
    let all = edit::places(f + g);
    assert forall|p: u64| #[trigger] all.contains(p) implies exists|x: int|
        0 <= x < c + 1 && hangs(t1, #[trigger] now[x], p, all, n) by {
        if edit::places(f).contains(p) {
            let x = choose|x: int|
                0 <= x < c && hangs(t0, #[trigger] was[x], p, edit::places(f), n);
            lemma_hangs_kept(t0, t1, was[x], p, edit::places(f), all, n, n);
            assert(hangs(t1, now[x], p, all, n));
        } else {
            lemma_hangs_kept(t1, t1, now[c], p, edit::places(g), all, m, n);
            assert(hangs(t1, now[c], p, all, n));
        }
    }
}

/// Another slot takes nothing away.
pub proof fn lemma_shelved_more(
    t: Seq<Seq<u8>>,
    kids: Seq<Option<ChildView>>,
    ms: Seq<(u64, Seq<u8>)>,
    c: int,
    n: nat,
)
    requires
        shelved(t, kids, ms, c, n),
    ensures
        shelved(t, kids, ms, c + 1, n),
{
    assert forall|p: u64| #[trigger] edit::places(ms).contains(p) implies exists|x: int|
        0 <= x < c + 1 && hangs(t, #[trigger] kids[x], p, edit::places(ms), n) by {
        let x = choose|x: int| 0 <= x < c && hangs(t, #[trigger] kids[x], p, edit::places(ms), n);
        assert(hangs(t, kids[x], p, edit::places(ms), n));
    }
}

/// A node, and what hangs from one of its slots.
proof fn lemma_hangs_node(
    t: Seq<Seq<u8>>,
    x: NodeView,
    hash: Seq<u8>,
    lba: u64,
    p: u64,
    g: Set<u64>,
    n: nat,
    c: int,
)
    requires
        g.contains(lba),
        trie::doc_at(t, lba, hash) == Ok::<Option<DocView>, ErrorView>(Some(DocView::Node(x))),
        p == lba || (0 <= c < 32 && hangs(t, x.kids[c], p, g, n)),
    ensures
        hangs(t, Some(ChildView::At { hash, lba }), p, g, n + 1),
{
    let m: nat = n + 1;
    let slot = Some(ChildView::At { hash, lba });
    assert((m - 1) as nat == n);
    match trie::doc_at(t, lba, hash) {
        Ok(Some(DocView::Node(y))) => {
            if p != lba {
                assert(y == x);
                assert(y.kids[c] == x.kids[c]);
                assert(hangs(t, y.kids[c], p, g, (m - 1) as nat));
            }
        },
        _ => {},
    }
    assert(hangs(t, slot, p, g, m));
}

/// What hangs from the slots of a node hangs from the node, once it is written.
pub proof fn lemma_shelved_node(
    t0: Seq<Seq<u8>>,
    t1: Seq<Seq<u8>>,
    x: NodeView,
    f: Seq<(u64, Seq<u8>)>,
    all: Seq<(u64, Seq<u8>)>,
    hash: Seq<u8>,
    lba: u64,
    n: nat,
)
    requires
        shelved(t0, x.kids, f, 32, n),
        t1.len() == t0.len(),
        forall|p: u64| #[trigger]
            edit::places(f).contains(p) ==> p < t0.len() && t1[p as int] == t0[p as int],
        trie::doc_at(t1, lba, hash) == Ok::<Option<DocView>, ErrorView>(Some(DocView::Node(x))),
        forall|p: u64| #[trigger]
            edit::places(all).contains(p) == (edit::places(f).contains(p) || p == lba),
    ensures
        forall|p: u64| #[trigger]
            edit::places(all).contains(p) ==> hangs(
                t1,
                Some(ChildView::At { hash, lba }),
                p,
                edit::places(all),
                n + 1,
            ),
{
    let g = edit::places(all);
    assert forall|p: u64| #[trigger] g.contains(p) implies hangs(
        t1,
        Some(ChildView::At { hash, lba }),
        p,
        g,
        n + 1,
    ) by {
        assert(edit::places(all).contains(lba));
        if p != lba {
            assert(edit::places(all).contains(p));
            assert(edit::places(f).contains(p));
            let c = choose|c: int|
                0 <= c < 32 && hangs(t0, #[trigger] x.kids[c], p, edit::places(f), n);
            lemma_hangs_kept(t0, t1, x.kids[c], p, edit::places(f), g, n, n);
            assert(((n + 1) - 1) as nat == n);
            lemma_hangs_node(t1, x, hash, lba, p, g, n, c);
        } else {
            lemma_hangs_node(t1, x, hash, lba, p, g, n, 0);
        }
    }
}

/// The places of two lists are those of each.
proof fn lemma_places_join(a: Seq<(u64, Seq<u8>)>, b: Seq<(u64, Seq<u8>)>, p: u64)
    ensures
        edit::places(a + b).contains(p) == (edit::places(a).contains(p) || edit::places(
            b,
        ).contains(p)),
{
    let ab = a + b;
    if edit::places(ab).contains(p) {
        let i = choose|i: int| 0 <= i < ab.len() && (#[trigger] ab[i]).0 == p;
        if i < a.len() {
            assert(a[i].0 == p);
        } else {
            assert(b[i - a.len()].0 == p);
        }
    }
    if edit::places(a).contains(p) {
        let i = choose|i: int| 0 <= i < a.len() && (#[trigger] a[i]).0 == p;
        assert(ab[i].0 == p);
    }
    if edit::places(b).contains(p) {
        let i = choose|i: int| 0 <= i < b.len() && (#[trigger] b[i]).0 == p;
        assert(ab[a.len() + i].0 == p);
    }
}

/// Some key's path leads to what a strict walk lists as live.
proof fn lemma_survey_led(
    t: Seq<Seq<u8>>,
    arena: Seq<NodeView>,
    hash: Seq<u8>,
    lba: u64,
    route: Seq<u8>,
    d: int,
    p: u64,
) -> (k: Seq<u8>)
    requires
        0 <= d <= 52,
        route.len() == 32,
        survey::survey(t, hash, lba, route, d, false) matches Ok(s) && edit::places(
            s.live,
        ).contains(p),
        forall|k: Seq<u8>|
            k.len() == 32 && key::agree(k, route, d) ==> (#[trigger] trie::walk(
                t,
                arena,
                Some(ChildView::At { hash, lba }),
                k,
                d,
            )).sound(),
    ensures
        k.len() == 32,
        key::agree(k, route, d),
        trie::walk(t, arena, Some(ChildView::At { hash, lba }), k, d).reads.contains(p),
    decreases 52 - d, 33int,
{
    let slot = Some(ChildView::At { hash, lba });
    let s = survey::survey(t, hash, lba, route, d, false)->Ok_0;
    let one = seq![(lba, hash)];
    assert(key::agree(route, route, d));
    assert(trie::walk(t, arena, slot, route, d).sound());
    assert(edit::places(one).contains(p) ==> p == lba) by {
        if edit::places(one).contains(p) {
            let i = choose|i: int| 0 <= i < one.len() && (#[trigger] one[i]).0 == p;
            assert(one[i].0 == p);
        }
    }
    if p == lba {
        route
    } else {
        match trie::doc_at(t, lba, hash) {
            Ok(Some(DocView::Node(x))) => {
                let o = survey::survey_kids(t, x.kids, 32, route, d, false)->Ok_0;
                lemma_places_join(one, o.live, p);
                assert(s.live =~= one + o.live);
                lemma_kids_led(t, arena, hash, lba, x, 32, route, d, p)
            },
            Ok(Some(leaf)) => {
                if leaf is Lone {
                    assert(s.live =~= one);
                    route
                } else {
                    let ms = trie::furrow_marks(t, leaf)->Ok_0;
                    lemma_places_join(one, ms, p);
                    assert(s.live =~= one + ms);
                    let ps = trie::leaf_positions(leaf)->Ok_0;
                    trie::lemma_marked(t, ps, ps.len());
                    let i = choose|i: int| 0 <= i < ms.len() && (#[trigger] ms[i]).0 == p;
                    assert(ms[i].0 == p);
                    assert(trie::furrow_set(leaf).contains(p));
                    trie::lemma_doc_shape(t[lba as int]);
                    let own = trie::leaf_key(leaf)->0;
                    own
                }
            },
            _ => route,
        }
    }
}

/// Some key's path leads to what a strict walk lists as live below a node.
proof fn lemma_kids_led(
    t: Seq<Seq<u8>>,
    arena: Seq<NodeView>,
    hash: Seq<u8>,
    lba: u64,
    x: NodeView,
    n: nat,
    route: Seq<u8>,
    d: int,
    p: u64,
) -> (k: Seq<u8>)
    requires
        0 <= d < 52,
        n <= 32,
        route.len() == 32,
        trie::doc_at(t, lba, hash) == Ok::<Option<DocView>, ErrorView>(Some(DocView::Node(x))),
        survey::survey_kids(t, x.kids, n, route, d, false) matches Ok(s) && edit::places(
            s.live,
        ).contains(p),
        forall|k: Seq<u8>|
            k.len() == 32 && key::agree(k, route, d) ==> (#[trigger] trie::walk(
                t,
                arena,
                Some(ChildView::At { hash, lba }),
                k,
                d,
            )).sound(),
    ensures
        k.len() == 32,
        key::agree(k, route, d),
        trie::walk(t, arena, Some(ChildView::At { hash, lba }), k, d).reads.contains(p),
    decreases 52 - d, n,
{
    let slot = Some(ChildView::At { hash, lba });
    if n == 0 {
        route
    } else {
        let c = n - 1;
        let front = survey::survey_kids(t, x.kids, c as nat, route, d, false)->Ok_0;
        if edit::places(front.live).contains(p) {
            lemma_kids_led(t, arena, hash, lba, x, c as nat, route, d, p)
        } else {
            let kid = x.kids[c];
            let r2 = key::routed(route, d, c as u8);
            let h2 = kid->0->hash;
            let l2 = kid->0->lba;
            let o = survey::survey(t, h2, l2, r2, d + 1, false)->Ok_0;
            lemma_places_join(front.live, o.live, p);
            trie::lemma_doc_shape(t[lba as int]);
            assert(key::agree(route, route, d));
            assert(trie::walk(t, arena, slot, route, d).sound());
            assert(trie::stands(x, route, d));
            assert(x.kids[c] is Some);
            key::lemma_routed(route, d, c as u8);
            assert(key::chunk_of(r2, d) == c);
            assert forall|k: Seq<u8>| k.len() == 32 && key::agree(k, r2, d + 1) implies (
            #[trigger] trie::walk(
                t,
                arena,
                Some(ChildView::At { hash: h2, lba: l2 }),
                k,
                d + 1,
            )).sound() by {
                lemma_agree_on(k, r2, route, d);
                assert(trie::walk(t, arena, slot, k, d).sound());
            }
            let k = lemma_survey_led(t, arena, h2, l2, r2, d + 1, p);
            lemma_agree_on(k, r2, route, d);
            assert(trie::walk(t, arena, kid, k, d + 1).reads.contains(p));
            k
        }
    }
}

/// Law: the live set that holds what the index leads to and no more holds what a walk of the index
/// lists, and no more.
pub proof fn law_live_set_is_the_survey(
    t: Seq<Seq<u8>>,
    ix: Index,
    m: Map<u64, Seq<u8>>,
    s: survey::Survey,
)
    requires
        keep::sound(t, ix),
        ix.arena.len() == 0,
        ix.added.len() == 0,
        ix.removed.len() == 0,
        keep::covered(t, ix, m),
        tight(t, ix, m),
        survey::survey_root(t, ix.root, false) == Ok::<survey::Survey, ErrorView>(s),
        s.stale.len() == 0,
        s.dangling.len() == 0,
    ensures
        forall|p: u64| #[trigger] m.contains_key(p) <==> edit::places(s.live).contains(p),
        forall|p: u64| #[trigger] m.contains_key(p) <==> led_to(t, ix, p),
{
    let zero = crate::block::zeros32();
    assert(keep::applied(m, ix.added, ix.removed) == m);
    assert forall|p: u64| led_to(t, ix, p) implies #[trigger] m.contains_key(p) by {
        let k = choose|k: Seq<u8>| k.len() == 32 && #[trigger] ix.path(t, k).reads.contains(p);
        assert(ix.path(t, k).reads.contains(p));
    }
    assert forall|p: u64| #[trigger] m.contains_key(p) implies edit::places(s.live).contains(p) by {
        assert(led_to(t, ix, p));
        let k = choose|k: Seq<u8>| k.len() == 32 && #[trigger] ix.path(t, k).reads.contains(p);
        assert(ix.path(t, k).sound());
        if let Some(ChildView::At { hash, lba }) = ix.root {
            survey::lemma_survey_accounts(t, hash, lba, zero, 0, false, k);
            edit::lemma_committed_walk(t, ix.arena, Seq::<NodeView>::empty(), ix.root, k, 0);
            let w = swap::tail(t, ix.root, k, 0);
            assert(w.reads.contains(p));
            assert(!survey::listed(s, w, k));
            let h = seal::hp_of(t[p as int])->0;
            assert(s.live.contains((p, h)));
            let i = choose|i: int| 0 <= i < s.live.len() && s.live[i] == (p, h);
            assert(s.live[i].0 == p);
        }
    }
    assert forall|p: u64| edit::places(s.live).contains(p) implies #[trigger] m.contains_key(p) by {
        if let Some(ChildView::At { hash, lba }) = ix.root {
            assert forall|k: Seq<u8>| k.len() == 32 && key::agree(k, zero, 0) implies (
            #[trigger] trie::walk(
                t,
                ix.arena,
                Some(ChildView::At { hash, lba }),
                k,
                0,
            )).sound() by {
                assert(ix.path(t, k).sound());
            }
            let k = lemma_survey_led(t, ix.arena, hash, lba, zero, 0, p);
            assert(ix.path(t, k).reads.contains(p));
            assert(led_to(t, ix, p));
        }
    }
}

proof fn lemma_filled_from(xs: Seq<(u64, Seq<u8>)>, p: u64)
    requires
        keep::filled(Map::<u64, Seq<u8>>::empty(), xs).contains_key(p),
    ensures
        edit::places(xs).contains(p),
{
    if !edit::places(xs).contains(p) {
        lemma_filled_none(Map::<u64, Seq<u8>>::empty(), xs, p);
    }
}

/// Law: a live set made of what a walk of the index lists holds no block but those that the index leads
/// to.
pub proof fn law_survey_makes_a_tight_live_set(t: Seq<Seq<u8>>, ix: Index, s: survey::Survey)
    requires
        keep::sound(t, ix),
        ix.arena.len() == 0,
        ix.added.len() == 0,
        ix.removed.len() == 0,
        survey::survey_root(t, ix.root, false) == Ok::<survey::Survey, ErrorView>(s),
    ensures
        tight(t, ix, keep::filled(Map::<u64, Seq<u8>>::empty(), s.live)),
{
    let m = keep::filled(Map::<u64, Seq<u8>>::empty(), s.live);
    let zero = crate::block::zeros32();
    assert(keep::applied(m, ix.added, ix.removed) == m);
    assert forall|p: u64| #[trigger]
        keep::applied(m, ix.added, ix.removed).contains_key(p) implies led_to(t, ix, p) by {
        lemma_filled_from(s.live, p);
        if let Some(ChildView::At { hash, lba }) = ix.root {
            assert forall|k: Seq<u8>| k.len() == 32 && key::agree(k, zero, 0) implies (
            #[trigger] trie::walk(
                t,
                ix.arena,
                Some(ChildView::At { hash, lba }),
                k,
                0,
            )).sound() by {
                assert(ix.path(t, k).sound());
            }
            let k = lemma_survey_led(t, ix.arena, hash, lba, zero, 0, p);
            assert(ix.path(t, k).reads.contains(p));
        }
    }
}

}
