//! What swapping one pointer for another, or for nothing, does to the paths of all keys.
use vstd::prelude::*;
use crate::doc;
use crate::doc::{ChildView, DocView, NodeView};
use crate::edit;
use crate::key;
use crate::trie;
use crate::trie::Trace;

verus! {

/// The path of `k` from a slot without arena nodes.
pub open spec fn tail(tract: Seq<Seq<u8>>, slot: Option<ChildView>, k: Seq<u8>, d: int) -> Trace {
    trie::walk(tract, Seq::<NodeView>::empty(), slot, k, d)
}

/// A path that does not pass the pointer: it ends as it did.
pub open spec fn passed_by(t: Trace, u: Trace, gone: Set<u64>) -> bool {
    &&& u.found == t.found
    &&& u.leaf == t.leaf
    &&& u.whole == t.whole
    &&& u.stop == t.stop
    &&& t.placed ==> u.placed
    &&& forall|p: u64| #[trigger]
        u.reads.contains(p) ==> t.reads.contains(p) && (t.sound() ==> !gone.contains(p))
}

/// A path that passes the pointer at depth `e`: it ends as it would from the new one.
pub open spec fn passed_thru(
    tract: Seq<Seq<u8>>,
    t: Trace,
    u: Trace,
    k: Seq<u8>,
    key: Seq<u8>,
    old: ChildView,
    new: Option<ChildView>,
    gone: Set<u64>,
    e: int,
) -> bool {
    let h = tail(tract, Some(old), k, e);
    let v = tail(tract, new, k, e);
    &&& key::agree(k, key, e)
    &&& t.found == h.found
    &&& t.leaf == h.leaf
    &&& t.whole == h.whole
    &&& t.stop == h.stop
    &&& t.placed ==> h.placed
    &&& forall|p: u64| #[trigger] h.reads.contains(p) ==> t.reads.contains(p)
    &&& u.found == v.found
    &&& u.leaf == v.leaf
    &&& u.whole == v.whole
    &&& u.stop == v.stop
    &&& t.placed && v.placed ==> u.placed
    &&& u.reads == v.reads
    &&& forall|p: u64| #[trigger]
        gone.contains(p) ==> (doc::doc_of(tract[p as int]) matches Ok(DocView::Node(n)) && n.depth
            < e)
}

/// Whether a pointer leads to a block that addresses itself by `key`, and to the depth looked for.
pub open spec fn aimed(tract: Seq<Seq<u8>>, old: ChildView, key: Seq<u8>, depth: int) -> bool {
    old matches ChildView::At { hash, lba } && match trie::doc_at(tract, lba, hash) {
        Ok(Some(DocView::Node(n))) => n.route == key && (depth == 255 || n.depth == depth),
        Ok(Some(DocView::Furrow { .. })) => false,
        Ok(Some(leaf)) => trie::leaf_key(leaf) == Some(key) && depth == 255,
        _ => false,
    }
}

/// What swapping `old` for `new` along `key` does to the path of `k`.
pub open spec fn swapped(
    tract: Seq<Seq<u8>>,
    t: Trace,
    u: Trace,
    k: Seq<u8>,
    key: Seq<u8>,
    old: ChildView,
    new: Option<ChildView>,
    gone: Set<u64>,
    d: int,
    depth: int,
) -> bool {
    &&& passed_by(t, u, gone) || exists|e: int|
        d <= e <= 52 && #[trigger] passed_thru(tract, t, u, k, key, old, new, gone, e)
    &&& depth == 255 && t.stop == Some((old->hash, old->lba, (t.stop->0).2)) && key::agree(
        k,
        key,
        (t.stop->0).2,
    ) ==> d <= (t.stop->0).2 && passed_thru(
        tract,
        t,
        u,
        k,
        key,
        old,
        new,
        gone,
        (t.stop->0).2,
    )
    &&& aimed(tract, old, key, depth) && t.sound() && u.reads.contains(old->lba) ==> exists|e: int|
        d <= e <= 52 && #[trigger] passed_thru(tract, t, u, k, key, old, new, gone, e)
}

/// What swapping `old` for `new` along `key` does to the branch at depth `d`.
pub open spec fn swaps(
    tract: Seq<Seq<u8>>,
    was: Seq<NodeView>,
    slot: Option<ChildView>,
    now: Seq<NodeView>,
    fresh: Option<ChildView>,
    key: Seq<u8>,
    old: ChildView,
    new: Option<ChildView>,
    gone: Set<u64>,
    d: int,
    depth: int,
) -> bool {
    &&& edit::reworked(tract, was, slot, now, fresh, key, d)
    &&& edit::branch_placed(tract, was, slot, key, d) ==> {
        &&& forall|k: Seq<u8>|
            k.len() == 32 && key::agree(k, key, d) ==> swapped(
                tract,
                trie::walk(tract, was, slot, k, d),
                #[trigger] trie::walk(tract, now, fresh, k, d),
                k,
                key,
                old,
                new,
                gone,
                d,
                depth,
            )
        &&& forall|p: u64| #[trigger]
            gone.contains(p) ==> p < tract.len() && trie::mine(tract[p as int], key, d) && (
            doc::doc_of(tract[p as int]) matches Ok(DocView::Node(_)))
    }
}

/// A slot that is left as it is.
pub proof fn lemma_swap_none(
    tract: Seq<Seq<u8>>,
    was: Seq<NodeView>,
    slot: Option<ChildView>,
    key: Seq<u8>,
    old: ChildView,
    new: Option<ChildView>,
    d: int,
    depth: int,
)
    requires
        0 <= d <= 52,
        key.len() == 32,
        trie::arena_wf(was),
        trie::slot_wf(slot, was),
        old is At,
        slot != Some(old),
        match slot {
            None => true,
            Some(ChildView::At { hash, lba }) => (depth != 255 && d > depth + 1) || (trie::doc_at(
                tract,
                lba,
                hash,
            ) matches Ok(x) && !(x matches Some(DocView::Node(_)))),
            _ => false,
        },
    ensures
        swaps(tract, was, slot, was, slot, key, old, new, Set::<u64>::empty(), d, depth),
{
    edit::lemma_committed_walk(tract, was, was, slot, key, d);
    if edit::branch_placed(tract, was, slot, key, d) {
        assert forall|k: Seq<u8>| k.len() == 32 && key::agree(k, key, d) implies swapped(
            tract,
            trie::walk(tract, was, slot, k, d),
            #[trigger] trie::walk(tract, was, slot, k, d),
            k,
            key,
            old,
            new,
            Set::<u64>::empty(),
            d,
            depth,
        ) by {
            let t = trie::walk(tract, was, slot, k, d);
            assert(passed_by(t, t, Set::<u64>::empty()));
            if aimed(tract, old, key, depth) && t.sound() && t.reads.contains(old->lba) {
                trie::lemma_sound_reads(tract, was, slot, k, d);
                crate::seal::lemma_zero_unsealed();
                if depth != 255 && d > depth + 1 {
                } else {
                    let lba = slot->0->lba;
                    if lba != old->lba {
                        let leaf = trie::doc_at(tract, lba, slot->0->hash)->Ok_0->0;
                        trie::lemma_leaf_owns(tract, leaf, old->lba);
                    }
                }
            }
        }
    }
}

/// The slot that is looked for.
pub proof fn lemma_swap_hit(
    tract: Seq<Seq<u8>>,
    was: Seq<NodeView>,
    key: Seq<u8>,
    old: ChildView,
    new: Option<ChildView>,
    d: int,
    depth: int,
)
    requires
        0 <= d <= 52,
        key.len() == 32,
        trie::arena_wf(was),
        trie::slot_wf(Some(old), was),
        trie::slot_wf(new, was),
        old is At,
        new matches Some(c) ==> c is At,
    ensures
        swaps(tract, was, Some(old), was, new, key, old, new, Set::<u64>::empty(), d, depth),
{
    let none = Seq::<NodeView>::empty();
    edit::lemma_committed_walk(tract, was, none, Some(old), key, d);
    if edit::branch_placed(tract, was, Some(old), key, d) {
        assert forall|k: Seq<u8>| k.len() == 32 && key::agree(k, key, d) implies swapped(
            tract,
            trie::walk(tract, was, Some(old), k, d),
            #[trigger] trie::walk(tract, was, new, k, d),
            k,
            key,
            old,
            new,
            Set::<u64>::empty(),
            d,
            depth,
        ) by {
            edit::lemma_committed_walk(tract, was, none, Some(old), k, d);
            edit::lemma_committed_walk(tract, was, none, new, k, d);
            let t = trie::walk(tract, was, Some(old), k, d);
            let u = trie::walk(tract, was, new, k, d);
            assert(passed_thru(tract, t, u, k, key, old, new, Set::<u64>::empty(), d));
            lemma_stop_here(tract, old, k, d);
        }
    }
}

/// A path that ends at its own first pointer ends at that depth; one that goes on ends at another
/// pointer, or goes too deep.
proof fn lemma_stop_here(tract: Seq<Seq<u8>>, c: ChildView, k: Seq<u8>, d: int)
    requires
        c is At,
        0 <= d <= 52,
    ensures
        ({
            let t = tail(tract, Some(c), k, d);
            t.placed && t.stop is Some && (t.stop->0).0 == c->hash && (t.stop->0).1 == c->lba ==> (
            t.stop->0).2 == d
        }),
{
    if let Ok(Some(DocView::Node(n))) = trie::doc_at(tract, c->lba, c->hash) {
        if d < 52 {
            key::lemma_chunk_bound(k, d);
            trie::lemma_doc_shape(tract[c->lba as int]);
            let s = n.kids[key::chunk_of(k, d) as int];
            assert(s matches Some(x) ==> x is At);
            lemma_stop_not_node(tract, s, k, d + 1);
        }
    }
}

/// A well placed path ends at a pointer that leads to no node.
proof fn lemma_stop_not_node(tract: Seq<Seq<u8>>, slot: Option<ChildView>, k: Seq<u8>, d: int)
    requires
        slot matches Some(x) ==> x is At,
        0 <= d,
    ensures
        ({
            let t = tail(tract, slot, k, d);
            t.placed && t.stop is Some ==> !(trie::doc_at(
                tract,
                (t.stop->0).1,
                (t.stop->0).0,
            ) matches Ok(Some(DocView::Node(_))))
        }),
    decreases 52 - d,
{
    if let Some(ChildView::At { hash, lba }) = slot {
        if let Ok(Some(DocView::Node(n))) = trie::doc_at(tract, lba, hash) {
            if d < 52 {
                key::lemma_chunk_bound(k, d);
                trie::lemma_doc_shape(tract[lba as int]);
                let s = n.kids[key::chunk_of(k, d) as int];
                assert(s matches Some(x) ==> x is At);
                lemma_stop_not_node(tract, s, k, d + 1);
            }
        }
    }
}

/// A path that ended at a depth further down is lifted over an arena node.
proof fn lemma_lift(
    tract: Seq<Seq<u8>>,
    s: Trace,
    v: Trace,
    t: Trace,
    u: Trace,
    k: Seq<u8>,
    key: Seq<u8>,
    old: ChildView,
    new: Option<ChildView>,
    below: Set<u64>,
    gone: Set<u64>,
    d: int,
    depth: int,
    lba: Option<u64>,
)
    requires
        swapped(tract, s, v, k, key, old, new, below, d + 1, depth),
        t.found == s.found,
        t.leaf == s.leaf,
        t.whole == s.whole,
        t.stop == s.stop,
        t.placed ==> s.placed,
        match lba {
            Some(l) => t.reads == s.reads.insert(l) && gone == below.insert(l) && (s.sound()
                ==> !s.reads.contains(l)) && (t.placed ==> (doc::doc_of(
                tract[l as int],
            ) matches Ok(DocView::Node(n)) && n.depth == d)),
            None => t.reads == s.reads && gone == below,
        },
        u.found == v.found,
        u.leaf == v.leaf,
        u.whole == v.whole,
        u.stop == v.stop,
        u.reads == v.reads,
        t.placed,
        v.placed ==> u.placed,
    ensures
        swapped(tract, t, u, k, key, old, new, gone, d, depth),
{
    assert forall|e: int|
        d + 1 <= e <= 52 && #[trigger] passed_thru(
            tract,
            s,
            v,
            k,
            key,
            old,
            new,
            below,
            e,
        ) implies passed_thru(tract, t, u, k, key, old, new, gone, e) by {
        let h = tail(tract, Some(old), k, e);
        assert forall|p: u64| #[trigger] h.reads.contains(p) implies t.reads.contains(p) by {
            assert(s.reads.contains(p));
        }
        assert forall|p: u64| #[trigger] gone.contains(p) implies (doc::doc_of(
            tract[p as int],
        ) matches Ok(DocView::Node(n)) && n.depth < e) by {
            if below.contains(p) {
            }
        }
    }
    if passed_by(s, v, below) {
        assert(passed_by(t, u, gone)) by {
            assert forall|p: u64| #[trigger] u.reads.contains(p) implies t.reads.contains(p) && (
            t.sound() ==> !gone.contains(p)) by {
                assert(v.reads.contains(p));
                assert(s.reads.contains(p));
            }
        }
    } else {
        let e = choose|e: int|
            d + 1 <= e <= 52 && #[trigger] passed_thru(
                tract,
                s,
                v,
                k,
                key,
                old,
                new,
                below,
                e,
            );
        assert(passed_thru(tract, t, u, k, key, old, new, gone, e));
    }
    if aimed(tract, old, key, depth) && t.sound() && u.reads.contains(old->lba) {
        let e = choose|e: int|
            d + 1 <= e <= 52 && #[trigger] passed_thru(
                tract,
                s,
                v,
                k,
                key,
                old,
                new,
                below,
                e,
            );
        assert(passed_thru(tract, t, u, k, key, old, new, gone, e));
    }
    if depth == 255 && t.stop == Some((old->hash, old->lba, (t.stop->0).2)) && key::agree(
        k,
        key,
        (t.stop->0).2,
    ) {
        assert(passed_thru(tract, s, v, k, key, old, new, below, (s.stop->0).2));
        assert(passed_thru(tract, t, u, k, key, old, new, gone, (t.stop->0).2));
    }
}

/// Where a path ends lies below where it starts.
pub proof fn lemma_stop_below(
    tract: Seq<Seq<u8>>,
    arena: Seq<NodeView>,
    slot: Option<ChildView>,
    k: Seq<u8>,
    d: int,
)
    ensures
        trie::walk(tract, arena, slot, k, d).stop matches Some((_, _, e)) ==> e >= d && (0 <= d
            <= 52 ==> e <= 52),
    decreases 52 - d,
{
    match slot {
        Some(ChildView::Dirty(j)) => {
            if 0 <= d < 52 && 0 <= j < arena.len() {
                lemma_stop_below(
                    tract,
                    arena,
                    arena[j].kids[key::chunk_of(k, d) as int],
                    k,
                    d + 1,
                );
            }
        },
        Some(ChildView::At { hash, lba }) => {
            if let Ok(Some(DocView::Node(n))) = trie::doc_at(tract, lba, hash) {
                if 0 <= d < 52 {
                    lemma_stop_below(tract, arena, n.kids[key::chunk_of(k, d) as int], k, d + 1);
                }
            }
        },
        None => {},
    }
}

/// A key of another slot keeps its path.
proof fn lemma_aside(
    tract: Seq<Seq<u8>>,
    arena: Seq<NodeView>,
    slot: Option<ChildView>,
    t: Trace,
    u: Trace,
    k: Seq<u8>,
    key: Seq<u8>,
    old: ChildView,
    new: Option<ChildView>,
    gone: Set<u64>,
    d: int,
    depth: int,
)
    requires
        0 <= d < 52,
        k.len() == 32,
        key.len() == 32,
        key::agree(k, key, d),
        !key::agree(k, key, d + 1),
        ({
            let s = trie::walk(tract, arena, slot, k, d + 1);
            &&& t.found == s.found
            &&& t.leaf == s.leaf
            &&& t.whole == s.whole
            &&& t.stop == s.stop
            &&& t.placed
            &&& s.placed
            &&& forall|p: u64| #[trigger] s.reads.contains(p) ==> t.reads.contains(p)
            &&& u.found == s.found
            &&& u.leaf == s.leaf
            &&& u.whole == s.whole
            &&& u.stop == s.stop
            &&& u.placed
            &&& u.reads == s.reads
        }),
        forall|p: u64| #[trigger]
            gone.contains(p) ==> p < tract.len() && trie::mine(tract[p as int], key, d) && (
            doc::doc_of(tract[p as int]) matches Ok(DocView::Node(_))),
    ensures
        swapped(tract, t, u, k, key, old, new, gone, d, depth),
{
    let s = trie::walk(tract, arena, slot, k, d + 1);
    lemma_stop_below(tract, arena, slot, k, d + 1);
    assert(passed_by(t, u, gone)) by {
        assert forall|p: u64| #[trigger] u.reads.contains(p) && t.sound() implies !gone.contains(
            p,
        ) by {
            if gone.contains(p) {
                lemma_apart(tract, arena, slot, k, key, d, p);
            }
        }
    }
    if aimed(tract, old, key, depth) && t.sound() && u.reads.contains(old->lba) {
        let p = old->lba;
        crate::seal::lemma_zero_unsealed();
        trie::lemma_sound_reads(tract, arena, slot, k, d + 1);
        match trie::doc_at(tract, p, old->hash) {
            Ok(Some(DocView::Node(n))) => {
                trie::lemma_agree_shared(n.route, n.route, k, n.depth as int, d + 1);
                trie::lemma_agree_swap(key, k, d + 1);
            },
            Ok(Some(leaf)) => {
                trie::lemma_agree_swap(key, k, d + 1);
            },
            _ => {},
        }
    }
    if depth == 255 && t.stop == Some((old->hash, old->lba, (t.stop->0).2)) && key::agree(
        k,
        key,
        (t.stop->0).2,
    ) {
        trie::lemma_agree_shared(k, k, key, (t.stop->0).2, d + 1);
    }
}

/// A node of the way of `key` is not on the way of a key that parted from it before.
proof fn lemma_apart(
    tract: Seq<Seq<u8>>,
    arena: Seq<NodeView>,
    slot: Option<ChildView>,
    k: Seq<u8>,
    key: Seq<u8>,
    d: int,
    p: u64,
)
    requires
        0 <= d < 52,
        trie::walk(tract, arena, slot, k, d + 1).sound(),
        !key::agree(k, key, d + 1),
        p < tract.len(),
        trie::mine(tract[p as int], key, d),
        doc::doc_of(tract[p as int]) matches Ok(DocView::Node(_)),
    ensures
        !trie::walk(tract, arena, slot, k, d + 1).reads.contains(p),
{
    if trie::walk(tract, arena, slot, k, d + 1).reads.contains(p) {
        trie::lemma_sound_reads(tract, arena, slot, k, d + 1);
        let n = doc::doc_of(tract[p as int])->Ok_0->Node_0;
        trie::lemma_agree_shared(n.route, k, key, n.depth as int, d + 1);
    }
}

/// Swapping one arena node further up.
#[verifier::rlimit(40)]
pub proof fn lemma_swap_dirty(
    tract: Seq<Seq<u8>>,
    was: Seq<NodeView>,
    mid: Seq<NodeView>,
    now: Seq<NodeView>,
    j: int,
    fresh: Option<ChildView>,
    key: Seq<u8>,
    old: ChildView,
    new: Option<ChildView>,
    gone: Set<u64>,
    d: int,
    depth: int,
)
    requires
        0 <= d < 52,
        key.len() == 32,
        trie::arena_wf(was),
        0 <= j < was.len(),
        swaps(
            tract,
            was,
            was[j].kids[key::chunk_of(key, d) as int],
            mid,
            fresh,
            key,
            old,
            new,
            gone,
            d + 1,
            depth,
        ),
        now == mid.update(
            j,
            NodeView {
                kids: was[j].kids.update(key::chunk_of(key, d) as int, fresh),
                ..was[j]
            },
        ),
    ensures
        mid[j] == was[j],
        swaps(
            tract,
            was,
            Some(ChildView::Dirty(j)),
            now,
            Some(ChildView::Dirty(j)),
            key,
            old,
            new,
            gone,
            d,
            depth,
        ),
{
    let slot = Some(ChildView::Dirty(j));
    let x = key::chunk_of(key, d) as int;
    let sub = was[j].kids[x];
    edit::lemma_step(tract, was, mid, now, j, fresh, key, d);
    if edit::branch_placed(tract, was, slot, key, d) {
        assert(edit::branch_placed(tract, was, sub, key, d + 1)) by {
            assert forall|k: Seq<u8>| k.len() == 32 && key::agree(k, key, d + 1) implies (
            #[trigger] trie::walk(tract, was, sub, k, d + 1)).placed by {
                assert(key::chunk_of(k, d) == key::chunk_of(key, d));
                assert(trie::walk(tract, was, slot, k, d).placed);
            }
        }
        assert(trie::walk(tract, was, slot, key, d).placed);
        assert forall|p: u64| #[trigger] gone.contains(p) implies p < tract.len() && trie::mine(
            tract[p as int],
            key,
            d,
        ) && (doc::doc_of(tract[p as int]) matches Ok(DocView::Node(_))) by {}
        assert forall|k: Seq<u8>| k.len() == 32 && key::agree(k, key, d) implies swapped(
            tract,
            trie::walk(tract, was, slot, k, d),
            #[trigger] trie::walk(tract, now, slot, k, d),
            k,
            key,
            old,
            new,
            gone,
            d,
            depth,
        ) by {
            trie::lemma_agree_step(k, key, d);
            let t = trie::walk(tract, was, slot, k, d);
            let u = trie::walk(tract, now, slot, k, d);
            let e = key::chunk_of(k, d) as int;
            let s = trie::walk(tract, was, was[j].kids[e], k, d + 1);
            assert(t.placed);
            if key::agree(k, key, d + 1) {
                let v = trie::walk(tract, mid, fresh, k, d + 1);
                assert(swapped(tract, s, v, k, key, old, new, gone, d + 1, depth));
                assert(u == edit::up_dirty(was[j], j, k, d, v));
                lemma_lift(tract, s, v, t, u, k, key, old, new, gone, gone, d, depth, None);
            } else {
                assert(u == edit::up_dirty(was[j], j, k, d, s));
                lemma_aside(
                    tract,
                    was,
                    was[j].kids[e],
                    t,
                    u,
                    k,
                    key,
                    old,
                    new,
                    gone,
                    d,
                    depth,
                );
            }
        }
    }
}

/// Swapping one committed node further up: the node is copied into the arena.
#[verifier::rlimit(40)]
pub proof fn lemma_swap_committed(
    tract: Seq<Seq<u8>>,
    was: Seq<NodeView>,
    n: NodeView,
    mid: Seq<NodeView>,
    now: Seq<NodeView>,
    hash: Seq<u8>,
    lba: u64,
    fresh: Option<ChildView>,
    key: Seq<u8>,
    old: ChildView,
    new: Option<ChildView>,
    gone: Set<u64>,
    d: int,
    depth: int,
)
    requires
        0 <= d < 52,
        key.len() == 32,
        trie::arena_wf(was),
        trie::doc_at(tract, lba, hash) == Ok::<Option<DocView>, crate::error::ErrorView>(
            Some(DocView::Node(n)),
        ),
        swaps(
            tract,
            was.push(n),
            n.kids[key::chunk_of(key, d) as int],
            mid,
            fresh,
            key,
            old,
            new,
            gone,
            d + 1,
            depth,
        ),
        now == mid.update(
            was.len() as int,
            NodeView { kids: n.kids.update(key::chunk_of(key, d) as int, fresh), ..n },
        ),
    ensures
        mid[was.len() as int] == n,
        swaps(
            tract,
            was,
            Some(ChildView::At { hash, lba }),
            now,
            Some(ChildView::Dirty(was.len() as int)),
            key,
            old,
            new,
            gone.insert(lba),
            d,
            depth,
        ),
{
    let slot = Some(ChildView::At { hash, lba });
    let j = was.len() as int;
    let grown = was.push(n);
    let up = Some(ChildView::Dirty(j));
    edit::lemma_node_joins(was, tract[lba as int], n);
    trie::lemma_doc_shape(tract[lba as int]);
    let x = key::chunk_of(key, d) as int;
    key::lemma_chunk_bound(key, d);
    let sub = n.kids[x];
    assert(grown[j] == n);
    edit::lemma_step(tract, grown, mid, now, j, fresh, key, d);
    edit::lemma_committed_walk(tract, was, was, slot, key, d);
    assert(sub matches Some(y) ==> y is At);
    edit::lemma_committed_walk(tract, grown, grown, sub, key, d + 1);
    assert(edit::arena_within(was, now, Set::<int>::empty())) by {
        assert forall|i: int| 0 <= i < was.len() implies #[trigger] now[i] == was[i] by {
            assert(grown[i] == was[i]);
            assert(mid[i] == grown[i]);
        }
    }
    let more = gone.insert(lba);
    if edit::branch_placed(tract, was, slot, key, d) {
        assert forall|k: Seq<u8>| k.len() == 32 && key::agree(k, key, d) implies trie::walk(
            tract,
            was,
            slot,
            k,
            d,
        ) == edit::up_committed(
            n,
            lba,
            k,
            d,
            trie::walk(tract, grown, n.kids[key::chunk_of(k, d) as int], k, d + 1),
        ) by {
            key::lemma_chunk_bound(k, d);
            let e = key::chunk_of(k, d) as int;
            assert(n.kids[e] matches Some(y) ==> y is At);
            edit::lemma_committed_walk(tract, was, grown, n.kids[e], k, d + 1);
        }
        assert(edit::branch_placed(tract, grown, sub, key, d + 1)) by {
            assert forall|k: Seq<u8>| k.len() == 32 && key::agree(k, key, d + 1) implies (
            #[trigger] trie::walk(tract, grown, sub, k, d + 1)).placed by {
                assert(key::chunk_of(k, d) == key::chunk_of(key, d));
                assert(trie::walk(tract, was, slot, k, d).placed);
            }
        }
        assert(trie::walk(tract, was, slot, key, d).placed);
        assert(trie::stands(n, key, d));
        assert forall|p: u64| #[trigger] more.contains(p) implies p < tract.len() && trie::mine(
            tract[p as int],
            key,
            d,
        ) && (doc::doc_of(tract[p as int]) matches Ok(DocView::Node(_))) by {
            if p == lba {
            } else {
                assert(gone.contains(p));
            }
        }
        assert forall|k: Seq<u8>| k.len() == 32 && key::agree(k, key, d) implies swapped(
            tract,
            trie::walk(tract, was, slot, k, d),
            #[trigger] trie::walk(tract, now, up, k, d),
            k,
            key,
            old,
            new,
            more,
            d,
            depth,
        ) by {
            trie::lemma_agree_step(k, key, d);
            let t = trie::walk(tract, was, slot, k, d);
            let u = trie::walk(tract, now, up, k, d);
            let e = key::chunk_of(k, d) as int;
            let s = trie::walk(tract, grown, n.kids[e], k, d + 1);
            assert(t.placed);
            assert(t == edit::up_committed(n, lba, k, d, s));
            if s.sound() {
                trie::lemma_sound_reads(tract, grown, n.kids[e], k, d + 1);
                assert(!s.reads.contains(lba));
            }
            if key::agree(k, key, d + 1) {
                let v = trie::walk(tract, mid, fresh, k, d + 1);
                assert(swapped(tract, s, v, k, key, old, new, gone, d + 1, depth));
                assert(u == edit::up_dirty(n, j, k, d, v));
                lemma_lift(
                    tract,
                    s,
                    v,
                    t,
                    u,
                    k,
                    key,
                    old,
                    new,
                    gone,
                    more,
                    d,
                    depth,
                    Some(lba),
                );
            } else {
                assert(u == edit::up_dirty(n, j, k, d, s));
                lemma_aside(tract, grown, n.kids[e], t, u, k, key, old, new, more, d, depth);
            }
        }
    }
}

}
