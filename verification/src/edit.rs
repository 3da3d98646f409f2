//! What an edit along one key's path does to the paths of all keys.
use vstd::prelude::*;
use crate::doc;
use crate::doc::{Child, ChildView, DocView, Node, NodeView};
use crate::error::ErrorView;
use crate::key;
use crate::seal;
use crate::trie;
use crate::trie::Trace;

verus! {

/// A path one arena node further up.
pub open spec fn up_dirty(n: NodeView, j: int, k: Seq<u8>, d: int, s: Trace) -> Trace {
    Trace {
        nodes: s.nodes.insert(j),
        placed: s.placed && trie::stands(n, k, d),
        ..s
    }
}

/// A path one committed node further up.
pub open spec fn up_committed(n: NodeView, lba: u64, k: Seq<u8>, d: int, s: Trace) -> Trace {
    Trace {
        reads: s.reads.insert(lba),
        placed: s.placed && trie::stands(n, k, d),
        ..s
    }
}

/// Whether `now` is an arena grown from `was` in which at most the nodes `ns` were rewritten.
pub open spec fn arena_within(was: Seq<NodeView>, now: Seq<NodeView>, ns: Set<int>) -> bool {
    &&& now.len() >= was.len()
    &&& forall|i: int| 0 <= i < was.len() && !ns.contains(i) ==> #[trigger] now[i] == was[i]
}

/// Whether a slot's replacement leads to the same node or to new ones.
pub open spec fn slot_follows(was: Option<ChildView>, now: Option<ChildView>, len: int) -> bool {
    now matches Some(ChildView::Dirty(j)) ==> was == Some(ChildView::Dirty(j)) || j >= len
}

/// What an edit along `key` keeps in order: links, and every node off the path of `key`.
pub open spec fn reworked(
    tract: Seq<Seq<u8>>,
    was: Seq<NodeView>,
    slot: Option<ChildView>,
    now: Seq<NodeView>,
    fresh: Option<ChildView>,
    key: Seq<u8>,
    d: int,
) -> bool {
    &&& trie::arena_wf(now)
    &&& trie::slot_wf(fresh, now)
    &&& arena_within(was, now, trie::walk(tract, was, slot, key, d).nodes)
    &&& slot_follows(slot, fresh, was.len() as int)
}

/// One step of an edit: the node at `j` of `grown` gets `fresh` in the slot that `key` takes, after
/// the edit below it has made `mid` of `grown`. Keys of the other slots keep their paths; keys of
/// that slot go on as the edit below left them.
pub proof fn lemma_step(
    tract: Seq<Seq<u8>>,
    grown: Seq<NodeView>,
    mid: Seq<NodeView>,
    now: Seq<NodeView>,
    j: int,
    fresh: Option<ChildView>,
    key: Seq<u8>,
    d: int,
)
    requires
        0 <= d < 52,
        key.len() == 32,
        trie::arena_wf(grown),
        0 <= j < grown.len(),
        ({
            let c = key::chunk_of(key, d) as int;
            &&& reworked(tract, grown, grown[j].kids[c], mid, fresh, key, d + 1)
            &&& now == mid.update(
                j,
                NodeView { kids: grown[j].kids.update(c, fresh), ..grown[j] },
            )
        }),
    ensures
        mid[j] == grown[j],
        trie::arena_wf(now),
        arena_within(
            grown,
            now,
            trie::walk(tract, grown, Some(ChildView::Dirty(j)), key, d).nodes,
        ),
        forall|k: Seq<u8>|
            k.len() == 32 && key::agree(k, key, d + 1) ==> #[trigger] trie::walk(
                tract,
                now,
                Some(ChildView::Dirty(j)),
                k,
                d,
            ) == up_dirty(grown[j], j, k, d, trie::walk(tract, mid, fresh, k, d + 1)),
        forall|k: Seq<u8>|
            k.len() == 32 && key::agree(k, key, d) && !key::agree(k, key, d + 1) && trie::walk(
                tract,
                grown,
                grown[j].kids[key::chunk_of(k, d) as int],
                k,
                d + 1,
            ).placed && trie::walk(
                tract,
                grown,
                grown[j].kids[key::chunk_of(key, d) as int],
                key,
                d + 1,
            ).placed ==> #[trigger] trie::walk(tract, now, Some(ChildView::Dirty(j)), k, d)
                == up_dirty(
                grown[j],
                j,
                k,
                d,
                trie::walk(tract, grown, grown[j].kids[key::chunk_of(k, d) as int], k, d + 1),
            ),
{
    let c = key::chunk_of(key, d) as int;
    key::lemma_chunk_bound(key, d);
    let n = grown[j];
    assert(trie::node_wf(n, j, grown.len() as int));
    let sub = n.kids[c];
    let below = trie::walk(tract, grown, sub, key, d + 1);
    assert(trie::slot_wf(sub, grown));
    trie::lemma_nodes_above(tract, grown, sub, key, d + 1);
    assert(!below.nodes.contains(j)) by {
        if below.nodes.contains(j) {
            assert(trie::slot_floor(sub) <= j);
        }
    }
    assert(mid[j] == grown[j]);
    let nn = NodeView { kids: n.kids.update(c, fresh), ..n };
    if d == 51 {
        key::lemma_last_chunk(key);
    }
    assert forall|k: Seq<u8>| #[trigger] trie::stands(nn, k, d) == trie::stands(n, k, d) by {
        trie::lemma_stands_kid(n, k, d, c, fresh);
    }
    // links
    assert forall|i: int| 0 <= i < now.len() implies trie::node_wf(
        #[trigger] now[i],
        i,
        now.len() as int,
    ) by {
        assert(trie::node_wf(mid[i], i, mid.len() as int));
        if i == j {
            assert forall|x: int| 0 <= x < 32 implies ((#[trigger] nn.kids[x]) matches Some(y)
                ==> match y {
                ChildView::Dirty(q) => j < q < now.len(),
                ChildView::At { hash, lba } => hash.len() == 32,
            }) by {
                if x == c {
                } else {
                    assert(nn.kids[x] == n.kids[x]);
                }
            }
        }
    }
    let t = trie::walk(tract, grown, Some(ChildView::Dirty(j)), key, d);
    assert(t.nodes == below.nodes.insert(j));
    assert forall|i: int| 0 <= i < grown.len() && !t.nodes.contains(i) implies #[trigger] now[i]
        == grown[i] by {
        assert(!below.nodes.contains(i));
        assert(mid[i] == grown[i]);
    }
    assert forall|k: Seq<u8>| k.len() == 32 && key::agree(k, key, d + 1) implies #[trigger] trie::walk(
        tract,
        now,
        Some(ChildView::Dirty(j)),
        k,
        d,
    ) == up_dirty(n, j, k, d, trie::walk(tract, mid, fresh, k, d + 1)) by {
        assert(key::chunk_of(k, d) == key::chunk_of(key, d));
        trie::lemma_nodes_above(tract, mid, fresh, k, d + 1);
        let s = trie::walk(tract, mid, fresh, k, d + 1);
        assert(trie::same_nodes(mid, now, s.nodes)) by {
            assert forall|x: int| #[trigger] s.nodes.contains(x) && 0 <= x < mid.len() implies x
                < now.len() && mid[x] == now[x] by {
                assert(x != j);
            }
        }
        trie::law_path_depends_on_its_reads(tract, tract, mid, now, fresh, k, d + 1);
        assert(nn.kids[key::chunk_of(k, d) as int] == fresh);
    }
    assert forall|k: Seq<u8>|
        k.len() == 32 && key::agree(k, key, d) && !key::agree(k, key, d + 1) && trie::walk(
            tract,
            grown,
            grown[j].kids[key::chunk_of(k, d) as int],
            k,
            d + 1,
        ).placed && below.placed implies #[trigger] trie::walk(
        tract,
        now,
        Some(ChildView::Dirty(j)),
        k,
        d,
    ) == up_dirty(
        n,
        j,
        k,
        d,
        trie::walk(tract, grown, n.kids[key::chunk_of(k, d) as int], k, d + 1),
    ) by {
        let e = key::chunk_of(k, d) as int;
        key::lemma_chunk_bound(k, d);
        trie::lemma_agree_step(k, key, d);
        assert(e != c);
        let other = n.kids[e];
        let s = trie::walk(tract, grown, other, k, d + 1);
        assert(trie::slot_wf(other, grown));
        trie::lemma_nodes_above(tract, grown, other, k, d + 1);
        assert(trie::same_nodes(grown, now, s.nodes)) by {
            assert forall|x: int| #[trigger] s.nodes.contains(x) && 0 <= x < grown.len() implies x
                < now.len() && grown[x] == now[x] by {
                assert(x != j);
                trie::lemma_parted_nodes(tract, grown, other, sub, k, key, d + 1, x);
                assert(!t.nodes.contains(x));
            }
        }
        trie::law_path_depends_on_its_reads(tract, tract, grown, now, other, k, d + 1);
        assert(nn.kids[e] == other);
    }
}

/// Below a pointer to the medium the arena does not matter.
pub proof fn lemma_committed_walk(
    tract: Seq<Seq<u8>>,
    a: Seq<NodeView>,
    b: Seq<NodeView>,
    slot: Option<ChildView>,
    k: Seq<u8>,
    d: int,
)
    requires
        !(slot matches Some(ChildView::Dirty(_))),
    ensures
        trie::walk(tract, a, slot, k, d) == trie::walk(tract, b, slot, k, d),
        trie::walk(tract, a, slot, k, d).nodes == Set::<int>::empty(),
    decreases 52 - d,
{
    if let Some(ChildView::At { hash, lba }) = slot {
        if let Ok(Some(DocView::Node(n))) = trie::doc_at(tract, lba, hash) {
            if 0 <= d < 52 {
                let c = key::chunk_of(k, d) as int;
                key::lemma_chunk_bound(k, d);
                trie::lemma_doc_shape(tract[lba as int]);
                assert(n.kids[c] matches Some(x) ==> x is At);
                lemma_committed_walk(tract, a, b, n.kids[c], k, d + 1);
            }
        }
    }
}

/// A decoded node is a well formed arena node at the end of the arena.
pub proof fn lemma_node_joins(arena: Seq<NodeView>, b: Seq<u8>, n: NodeView)
    requires
        trie::arena_wf(arena),
        doc::doc_of(b) == Ok::<DocView, crate::error::ErrorView>(DocView::Node(n)),
    ensures
        trie::arena_wf(arena.push(n)),
{
    trie::lemma_doc_shape(b);
    let now = arena.push(n);
    assert forall|i: int| 0 <= i < now.len() implies trie::node_wf(
        #[trigger] now[i],
        i,
        now.len() as int,
    ) by {
        if i < arena.len() {
            assert(trie::node_wf(arena[i], i, arena.len() as int));
            assert forall|c: int| 0 <= c < 32 implies ((#[trigger] now[i].kids[c]) matches Some(x)
                ==> match x {
                ChildView::Dirty(j) => i < j < now.len(),
                ChildView::At { hash, lba } => hash.len() == 32,
            }) by {
                assert(arena[i].kids[c] == now[i].kids[c]);
            }
        } else {
            assert forall|c: int| 0 <= c < 32 implies ((#[trigger] n.kids[c]) matches Some(x)
                ==> match x {
                ChildView::Dirty(j) => i < j < now.len(),
                ChildView::At { hash, lba } => hash.len() == 32,
            }) by {
                assert(n.kids[c] matches Some(y) ==> y is At && y->hash.len() == 32);
            }
        }
    }
}

/// Puts a pointer in a slot of an arena node.
pub(crate) fn set_kid(arena: &mut Vec<Node>, idx: usize, c: usize, v: Option<Child>)
    requires
        idx < old(arena)@.len(),
        c < old(arena)@[idx as int].children@.len(),
    ensures
        final(arena)@.len() == old(arena)@.len(),
        forall|i: int|
            0 <= i < old(arena)@.len() && i != idx ==> #[trigger] final(arena)@[i]
                == old(arena)@[i],
        final(arena)@[idx as int].children@.len() == old(arena)@[idx as int].children@.len(),
        final(arena)@[idx as int]@ == (NodeView {
            kids: old(arena)@[idx as int]@.kids.update(c as int, doc::slot_view(v)),
            ..old(arena)@[idx as int]@
        }),
{
    let ghost was = arena@[idx as int]@.kids;
    arena[idx].children[c] = v;
    assert(arena@[idx as int]@.kids =~= was.update(c as int, doc::slot_view(v)));
}

// ---------------------------------------------------------------- planting a leaf

/// Whether a pointer leads to a leaf of `key`.
pub open spec fn leaf_stands(tract: Seq<Seq<u8>>, c: ChildView, key: Seq<u8>) -> bool {
    &&& c matches ChildView::At { hash, lba } && hash.len() == 32 && (trie::doc_at(
        tract,
        lba,
        hash,
    ) matches Ok(Some(d)) && trie::leaf_key(d) == Some(key))
}

/// The path of `k` that ends at a pointer on the medium.
pub open spec fn ending(tract: Seq<Seq<u8>>, c: ChildView, k: Seq<u8>, d: int) -> Trace {
    trie::walk(tract, Seq::<NodeView>::empty(), Some(c), k, d)
}

/// The positions of some marks.
pub open spec fn places(ms: Seq<(u64, Seq<u8>)>) -> Set<u64> {
    Set::new(|p: u64| exists|i: int| 0 <= i < ms.len() && (#[trigger] ms[i]).0 == p)
}

/// What a path keeps through an edit: placement, wholeness, and reads but for those that are gone
/// and those that are fresh.
pub open spec fn carried(t: Trace, u: Trace, gone: Set<u64>, fresh: Set<u64>) -> bool {
    &&& t.placed ==> u.placed
    &&& t.whole ==> u.whole
    &&& forall|p: u64| #[trigger]
        u.reads.contains(p) ==> fresh.contains(p) || (t.reads.contains(p) && (t.sound()
            ==> !gone.contains(p)))
}

/// Whether a path goes on reading what it read, but for what is gone. A path that stopped at the leaf
/// of another key may have been parted from that.
pub open spec fn retains(t: Trace, u: Trace, gone: Set<u64>) -> bool {
    forall|p: u64| #[trigger]
        t.reads.contains(p) ==> gone.contains(p) || u.reads.contains(p) || (t.leaf == Ok::<
            Option<(u64, Seq<u8>)>,
            ErrorView,
        >(None) && (t.stop matches Some(s) && s.1 == p))
}

/// What planting a leaf of `key` does to the path of `k`.
pub open spec fn planted(
    t: Trace,
    u: Trace,
    k: Seq<u8>,
    key: Seq<u8>,
    leaf: Trace,
    gone: Set<u64>,
) -> bool {
    &&& t.placed ==> u.placed
    &&& t.whole && leaf.whole ==> u.whole
    &&& forall|p: u64| #[trigger]
        u.reads.contains(p) ==> leaf.reads.contains(p) || (t.reads.contains(p) && (t.sound()
            ==> !gone.contains(p)))
    &&& k != key && t.sound() ==> u.found == t.found && u.leaf == t.leaf
    &&& t.sound() ==> retains(t, u, gone)
}

/// Whether every key of the branch at depth `d` of `key` finds its way.
pub open spec fn branch_placed(
    tract: Seq<Seq<u8>>,
    arena: Seq<NodeView>,
    slot: Option<ChildView>,
    key: Seq<u8>,
    d: int,
) -> bool {
    forall|k: Seq<u8>|
        k.len() == 32 && key::agree(k, key, d) ==> (#[trigger] trie::walk(
            tract,
            arena,
            slot,
            k,
            d,
        )).placed
}

/// What planting the leaf `c` of `key` at depth `d` does to the branch.
pub open spec fn plants(
    tract: Seq<Seq<u8>>,
    was: Seq<NodeView>,
    slot: Option<ChildView>,
    now: Seq<NodeView>,
    fresh: Option<ChildView>,
    key: Seq<u8>,
    c: ChildView,
    gone: Set<u64>,
    d: int,
) -> bool {
    &&& reworked(tract, was, slot, now, fresh, key, d)
    &&& trie::walk(tract, now, fresh, key, d).found == ending(tract, c, key, d).found
    &&& trie::walk(tract, now, fresh, key, d).leaf == ending(tract, c, key, d).leaf
    &&& ending(tract, c, key, d).reads.subset_of(trie::walk(tract, now, fresh, key, d).reads)
    &&& branch_placed(tract, was, slot, key, d) && trie::walk(tract, was, slot, key, d).sound()
        ==> {
        &&& forall|k: Seq<u8>|
            k.len() == 32 && key::agree(k, key, d) ==> planted(
                trie::walk(tract, was, slot, k, d),
                #[trigger] trie::walk(tract, now, fresh, k, d),
                k,
                key,
                ending(tract, c, key, d),
                gone,
            )
        &&& forall|p: u64| #[trigger]
            gone.contains(p) ==> p < tract.len() && trie::mine(tract[p as int], key, d)
                && trie::walk(tract, was, slot, key, d).reads.contains(p)
    }
}

/// The end of a leaf's path does not depend on the depth at which it hangs.
pub proof fn lemma_ending(tract: Seq<Seq<u8>>, c: ChildView, key: Seq<u8>, k: Seq<u8>, d: int, e: int)
    requires
        leaf_stands(tract, c, key),
    ensures
        ending(tract, c, key, d).found == ending(tract, c, key, e).found,
        ending(tract, c, key, d).leaf == ending(tract, c, key, e).leaf,
        ending(tract, c, key, d).reads == ending(tract, c, key, e).reads,
        ending(tract, c, key, d).whole == ending(tract, c, key, e).whole,
        ending(tract, c, key, d).placed,
        ending(tract, c, key, d).leaf == Ok::<Option<(u64, Seq<u8>)>, crate::error::ErrorView>(
            Some((c->lba, c->hash)),
        ),
        ending(tract, c, key, d).reads.contains(c->lba),
        k != key ==> ending(tract, c, k, d) == trie::absent(
            Set::<u64>::empty().insert(c->lba),
            key::agree(key, k, d),
            Some((c->hash, c->lba, d)),
        ),
{
}

/// A leaf in place of nothing, of a deleted leaf, or of an older leaf of its key.
pub proof fn lemma_plant_end(
    tract: Seq<Seq<u8>>,
    arena: Seq<NodeView>,
    slot: Option<ChildView>,
    key: Seq<u8>,
    c: ChildView,
    gone: Set<u64>,
    d: int,
)
    requires
        leaf_stands(tract, c, key),
        key.len() == 32,
        trie::arena_wf(arena),
        match slot {
            None => gone == Set::<u64>::empty(),
            Some(ChildView::At { hash, lba }) => match trie::doc_at(tract, lba, hash) {
                Ok(None) => gone == Set::<u64>::empty(),
                Ok(Some(old)) => trie::leaf_key(old) == Some(key) && (forall|p: u64| #[trigger]
                    gone.contains(p) <==> p == lba || (trie::furrow_set(old).contains(p)
                        && seal::hp_of(tract[p as int]) is Some)),
                Err(_) => false,
            },
            _ => false,
        },
    ensures
        plants(tract, arena, slot, arena, Some(c), key, c, gone, d),
{
    lemma_committed_walk(tract, arena, Seq::<NodeView>::empty(), Some(c), key, d);
    lemma_ending(tract, c, key, key, d, d);
    if branch_placed(tract, arena, slot, key, d) && trie::walk(tract, arena, slot, key, d).sound() {
        assert forall|k: Seq<u8>| k.len() == 32 && key::agree(k, key, d) implies planted(
            trie::walk(tract, arena, slot, k, d),
            #[trigger] trie::walk(tract, arena, Some(c), k, d),
            k,
            key,
            ending(tract, c, key, d),
            gone,
        ) by {
            lemma_committed_walk(tract, arena, Seq::<NodeView>::empty(), Some(c), k, d);
            lemma_ending(tract, c, key, k, d, d);
            trie::lemma_agree_swap(k, key, d);
            let t = trie::walk(tract, arena, slot, k, d);
            let u = trie::walk(tract, arena, Some(c), k, d);
            if t.sound() {
                assert(retains(t, u, gone)) by {
                    assert forall|p: u64| #[trigger] t.reads.contains(p) implies gone.contains(p)
                        || u.reads.contains(p) || (t.leaf == Ok::<
                        Option<(u64, Seq<u8>)>,
                        ErrorView,
                    >(None) && (t.stop matches Some(s) && s.1 == p)) by {
                        let lba = slot->0->lba;
                        if trie::doc_at(tract, lba, slot->0->hash) matches Ok(Some(_)) && k == key
                            && p != lba {
                            let old = trie::doc_at(tract, lba, slot->0->hash)->Ok_0->0;
                            trie::lemma_leaf_owns(tract, old, p);
                        }
                    }
                }
            }
        }
        assert forall|p: u64| #[trigger] gone.contains(p) implies p < tract.len() && trie::mine(
            tract[p as int],
            key,
            d,
        ) && trie::walk(tract, arena, slot, key, d).reads.contains(p) by {
            let lba = slot->0->lba;
            let old = trie::doc_at(tract, lba, slot->0->hash)->Ok_0->0;
            if p != lba {
                trie::lemma_leaf_owns(tract, old, p);
                seal::lemma_zero_unsealed();
            }
        }
    }
}

/// Planting one arena node further up.
pub proof fn lemma_plant_dirty(
    tract: Seq<Seq<u8>>,
    was: Seq<NodeView>,
    mid: Seq<NodeView>,
    now: Seq<NodeView>,
    j: int,
    fresh: Option<ChildView>,
    key: Seq<u8>,
    c: ChildView,
    gone: Set<u64>,
    d: int,
)
    requires
        0 <= d < 52,
        key.len() == 32,
        leaf_stands(tract, c, key),
        trie::arena_wf(was),
        0 <= j < was.len(),
        plants(
            tract,
            was,
            was[j].kids[key::chunk_of(key, d) as int],
            mid,
            fresh,
            key,
            c,
            gone,
            d + 1,
        ),
        now == mid.update(
            j,
            NodeView {
                kids: was[j].kids.update(key::chunk_of(key, d) as int, fresh),
                ..was[j]
            },
        ),
    ensures
        mid[j] == was[j],
        plants(
            tract,
            was,
            Some(ChildView::Dirty(j)),
            now,
            Some(ChildView::Dirty(j)),
            key,
            c,
            gone,
            d,
        ),
{
    let slot = Some(ChildView::Dirty(j));
    let x = key::chunk_of(key, d) as int;
    let sub = was[j].kids[x];
    lemma_step(tract, was, mid, now, j, fresh, key, d);
    lemma_ending(tract, c, key, key, d, d + 1);
    assert(key::agree(key, key, d + 1));
    assert(trie::walk(tract, now, slot, key, d) == up_dirty(
        was[j],
        j,
        key,
        d,
        trie::walk(tract, mid, fresh, key, d + 1),
    ));
    if branch_placed(tract, was, slot, key, d) && trie::walk(tract, was, slot, key, d).sound() {
        assert forall|k: Seq<u8>| k.len() == 32 && key::agree(k, key, d) implies trie::walk(
            tract,
            was,
            slot,
            k,
            d,
        ) == up_dirty(
            was[j],
            j,
            k,
            d,
            trie::walk(tract, was, was[j].kids[key::chunk_of(k, d) as int], k, d + 1),
        ) by {}
        assert(branch_placed(tract, was, sub, key, d + 1)) by {
            assert forall|k: Seq<u8>| k.len() == 32 && key::agree(k, key, d + 1) implies (
            #[trigger] trie::walk(tract, was, sub, k, d + 1)).placed by {
                assert(key::chunk_of(k, d) == key::chunk_of(key, d));
                assert(trie::walk(tract, was, slot, k, d).placed);
            }
        }
        assert forall|k: Seq<u8>| k.len() == 32 && key::agree(k, key, d) implies planted(
            trie::walk(tract, was, slot, k, d),
            #[trigger] trie::walk(tract, now, slot, k, d),
            k,
            key,
            ending(tract, c, key, d),
            gone,
        ) by {
            trie::lemma_agree_step(k, key, d);
            let t = trie::walk(tract, was, slot, k, d);
            let u = trie::walk(tract, now, slot, k, d);
            let s = trie::walk(tract, was, was[j].kids[key::chunk_of(k, d) as int], k, d + 1);
            assert(t.placed);
            if key::agree(k, key, d + 1) {
                let v = trie::walk(tract, mid, fresh, k, d + 1);
                assert(planted(s, v, k, key, ending(tract, c, key, d + 1), gone));
                assert(u == up_dirty(was[j], j, k, d, v));
            } else {
                assert(trie::walk(tract, was, slot, key, d).placed);
                assert(u == up_dirty(was[j], j, k, d, s));
                assert(u =~= t);
                assert(k != key);
                assert forall|p: u64| #[trigger] u.reads.contains(p) && t.sound() implies !gone.contains(
                    p,
                ) by {
                    if gone.contains(p) {
                        trie::lemma_parted_reads(
                            tract,
                            was,
                            was[j].kids[key::chunk_of(k, d) as int],
                            k,
                            key,
                            d + 1,
                            p,
                        );
                    }
                }
            }
        }
        assert forall|p: u64| #[trigger] gone.contains(p) implies p < tract.len() && trie::mine(
            tract[p as int],
            key,
            d,
        ) by {}
    }
}

/// Planting one committed node further up: the node is copied into the arena, and its place on the
/// medium is given up.
pub proof fn lemma_plant_committed(
    tract: Seq<Seq<u8>>,
    was: Seq<NodeView>,
    n: NodeView,
    mid: Seq<NodeView>,
    now: Seq<NodeView>,
    hash: Seq<u8>,
    lba: u64,
    fresh: Option<ChildView>,
    key: Seq<u8>,
    c: ChildView,
    gone: Set<u64>,
    d: int,
)
    requires
        0 <= d < 52,
        key.len() == 32,
        leaf_stands(tract, c, key),
        trie::arena_wf(was),
        trie::doc_at(tract, lba, hash) == Ok::<Option<DocView>, crate::error::ErrorView>(
            Some(DocView::Node(n)),
        ),
        plants(
            tract,
            was.push(n),
            n.kids[key::chunk_of(key, d) as int],
            mid,
            fresh,
            key,
            c,
            gone,
            d + 1,
        ),
        now == mid.update(
            was.len() as int,
            NodeView { kids: n.kids.update(key::chunk_of(key, d) as int, fresh), ..n },
        ),
    ensures
        trie::arena_wf(was.push(n)),
        mid[was.len() as int] == n,
        plants(
            tract,
            was,
            Some(ChildView::At { hash, lba }),
            now,
            Some(ChildView::Dirty(was.len() as int)),
            key,
            c,
            gone.insert(lba),
            d,
        ),
{
    let slot = Some(ChildView::At { hash, lba });
    let j = was.len() as int;
    let grown = was.push(n);
    let up = Some(ChildView::Dirty(j));
    lemma_node_joins(was, tract[lba as int], n);
    trie::lemma_doc_shape(tract[lba as int]);
    let x = key::chunk_of(key, d) as int;
    key::lemma_chunk_bound(key, d);
    let sub = n.kids[x];
    assert(grown[j] == n);
    lemma_step(tract, grown, mid, now, j, fresh, key, d);
    lemma_ending(tract, c, key, key, d, d + 1);
    assert(key::agree(key, key, d + 1));
    lemma_committed_walk(tract, was, was, slot, key, d);
    assert(sub matches Some(y) ==> y is At);
    lemma_committed_walk(tract, grown, grown, sub, key, d + 1);
    assert(arena_within(was, now, Set::<int>::empty())) by {
        assert forall|i: int| 0 <= i < was.len() implies #[trigger] now[i] == was[i] by {
            assert(grown[i] == was[i]);
            assert(mid[i] == grown[i]);
        }
    }
    assert(trie::walk(tract, now, up, key, d) == up_dirty(
        n,
        j,
        key,
        d,
        trie::walk(tract, mid, fresh, key, d + 1),
    ));
    let more = gone.insert(lba);
    if branch_placed(tract, was, slot, key, d) && trie::walk(tract, was, slot, key, d).sound() {
        assert forall|k: Seq<u8>| k.len() == 32 && key::agree(k, key, d) implies trie::walk(
            tract,
            was,
            slot,
            k,
            d,
        ) == up_committed(
            n,
            lba,
            k,
            d,
            trie::walk(tract, grown, n.kids[key::chunk_of(k, d) as int], k, d + 1),
        ) by {
            key::lemma_chunk_bound(k, d);
            let e = key::chunk_of(k, d) as int;
            assert(n.kids[e] matches Some(y) ==> y is At);
            lemma_committed_walk(tract, was, grown, n.kids[e], k, d + 1);
        }
        assert(branch_placed(tract, grown, sub, key, d + 1)) by {
            assert forall|k: Seq<u8>| k.len() == 32 && key::agree(k, key, d + 1) implies (
            #[trigger] trie::walk(tract, grown, sub, k, d + 1)).placed by {
                assert(key::chunk_of(k, d) == key::chunk_of(key, d));
                assert(trie::walk(tract, was, slot, k, d).placed);
            }
        }
        assert(trie::walk(tract, was, slot, key, d).placed);
        assert(trie::stands(n, key, d));
        assert forall|k: Seq<u8>| k.len() == 32 && key::agree(k, key, d) implies planted(
            trie::walk(tract, was, slot, k, d),
            #[trigger] trie::walk(tract, now, up, k, d),
            k,
            key,
            ending(tract, c, key, d),
            more,
        ) by {
            trie::lemma_agree_step(k, key, d);
            let t = trie::walk(tract, was, slot, k, d);
            let u = trie::walk(tract, now, up, k, d);
            let e = key::chunk_of(k, d) as int;
            let s = trie::walk(tract, grown, n.kids[e], k, d + 1);
            assert(t.placed);
            assert(t == up_committed(n, lba, k, d, s));
            if s.sound() {
                trie::lemma_sound_reads(tract, grown, n.kids[e], k, d + 1);
                assert(!s.reads.contains(lba));
            }
            if key::agree(k, key, d + 1) {
                let v = trie::walk(tract, mid, fresh, k, d + 1);
                assert(planted(s, v, k, key, ending(tract, c, key, d + 1), gone));
                assert(u == up_dirty(n, j, k, d, v));
            } else {
                assert(u == up_dirty(n, j, k, d, s));
                assert(k != key);
                assert forall|p: u64| #[trigger] u.reads.contains(p) && t.sound() implies !more.contains(
                    p,
                ) by {
                    if gone.contains(p) {
                        trie::lemma_parted_reads(tract, grown, n.kids[e], k, key, d + 1, p);
                    }
                }
            }
        }
        assert forall|p: u64| #[trigger] more.contains(p) implies p < tract.len() && trie::mine(
            tract[p as int],
            key,
            d,
        ) by {
            if p == lba {
            } else {
                assert(gone.contains(p));
            }
        }
    }
}

/// A node that parts two leaves.
pub open spec fn fork(d: u8, route: Seq<u8>, x: int, a: Option<ChildView>, y: int, b: Option<ChildView>) -> NodeView {
    NodeView { depth: d, route, kids: doc::no_kids().update(x, a).update(y, b) }
}

proof fn lemma_joins(arena: Seq<NodeView>, n: NodeView)
    requires
        trie::arena_wf(arena),
        trie::node_wf(n, arena.len() as int, arena.len() as int + 1),
    ensures
        trie::arena_wf(arena.push(n)),
{
    let now = arena.push(n);
    assert forall|i: int| 0 <= i < now.len() implies trie::node_wf(
        #[trigger] now[i],
        i,
        now.len() as int,
    ) by {
        if i < arena.len() {
            assert(trie::node_wf(arena[i], i, arena.len() as int));
            assert forall|c: int| 0 <= c < 32 implies ((#[trigger] now[i].kids[c]) matches Some(x)
                ==> match x {
                ChildView::Dirty(j) => i < j < now.len(),
                ChildView::At { hash, lba } => hash.len() == 32,
            }) by {
                assert(arena[i].kids[c] == now[i].kids[c]);
            }
        }
    }
}

/// A node without children joins the arena.
pub proof fn lemma_bare_joins(arena: Seq<NodeView>, d: u8, route: Seq<u8>)
    requires
        trie::arena_wf(arena),
        route.len() == 32,
    ensures
        trie::arena_wf(arena.push(NodeView { depth: d, route, kids: doc::no_kids() })),
{
    lemma_joins(arena, NodeView { depth: d, route, kids: doc::no_kids() });
}

/// Two leaves part at this depth.
pub proof fn lemma_fork_apart(
    tract: Seq<Seq<u8>>,
    was: Seq<NodeView>,
    now: Seq<NodeView>,
    d: u8,
    ka: Seq<u8>,
    a: ChildView,
    kb: Seq<u8>,
    b: ChildView,
)
    requires
        d < 52,
        ka.len() == 32,
        kb.len() == 32,
        ka != kb,
        leaf_stands(tract, a, ka),
        leaf_stands(tract, b, kb),
        trie::arena_wf(was),
        key::chunk_of(ka, d as int) != key::chunk_of(kb, d as int),
        now == was.push(
            fork(
                d,
                ka,
                key::chunk_of(ka, d as int) as int,
                Some(a),
                key::chunk_of(kb, d as int) as int,
                Some(b),
            ),
        ),
    ensures
        plants(
            tract,
            was,
            Some(a),
            now,
            Some(ChildView::Dirty(was.len() as int)),
            kb,
            b,
            Set::<u64>::empty(),
            d as int,
        ),
{
    let j = was.len() as int;
    let x = key::chunk_of(ka, d as int) as int;
    let y = key::chunk_of(kb, d as int) as int;
    key::lemma_chunk_bound(ka, d as int);
    key::lemma_chunk_bound(kb, d as int);
    let n = fork(d, ka, x, Some(a), y, Some(b));
    let up = Some(ChildView::Dirty(j));
    if d == 51 {
        key::lemma_last_chunk(ka);
        key::lemma_last_chunk(kb);
    }
    lemma_joins(was, n);
    lemma_committed_walk(tract, was, was, Some(a), kb, d as int);
    lemma_committed_walk(tract, now, Seq::<NodeView>::empty(), Some(b), kb, d + 1);
    lemma_ending(tract, b, kb, kb, d as int, d + 1);
    assert(n.kids[y] == Some(b));
    if branch_placed(tract, was, Some(a), kb, d as int) {
        assert forall|k: Seq<u8>| k.len() == 32 && key::agree(k, kb, d as int) implies planted(
            trie::walk(tract, was, Some(a), k, d as int),
            #[trigger] trie::walk(tract, now, up, k, d as int),
            k,
            kb,
            ending(tract, b, kb, d as int),
            Set::<u64>::empty(),
        ) by {
            key::lemma_chunk_bound(k, d as int);
            let z = key::chunk_of(k, d as int) as int;
            let t = trie::walk(tract, was, Some(a), k, d as int);
            assert(t.placed);
            lemma_committed_walk(tract, was, Seq::<NodeView>::empty(), Some(a), k, d as int);
            lemma_ending(tract, a, ka, k, d as int, d + 1);
            lemma_ending(tract, b, kb, k, d + 1, d + 1);
            lemma_ending(tract, a, ka, k, d + 1, d + 1);
            lemma_committed_walk(tract, now, Seq::<NodeView>::empty(), n.kids[z], k, d + 1);
            trie::lemma_agree_swap(k, kb, d as int);
            if k != kb {
                trie::lemma_agree_step(kb, k, d as int);
            }
            if k != ka {
                trie::lemma_agree_step(ka, k, d as int);
            }
            if z == x {
                assert(n.kids[z] == Some(a));
            } else if z == y {
                assert(n.kids[z] == Some(b));
            } else {
                assert(n.kids[z] is None);
            }
        }
    }
}

/// Two leaves part further down.
pub proof fn lemma_fork_shared(
    tract: Seq<Seq<u8>>,
    was: Seq<NodeView>,
    mid: Seq<NodeView>,
    now: Seq<NodeView>,
    d: u8,
    ka: Seq<u8>,
    a: ChildView,
    kb: Seq<u8>,
    b: ChildView,
    fresh: Option<ChildView>,
)
    requires
        d < 52,
        ka.len() == 32,
        kb.len() == 32,
        ka != kb,
        leaf_stands(tract, a, ka),
        leaf_stands(tract, b, kb),
        trie::arena_wf(was),
        key::chunk_of(ka, d as int) == key::chunk_of(kb, d as int),
        plants(
            tract,
            was.push(NodeView { depth: d, route: ka, kids: doc::no_kids() }),
            Some(a),
            mid,
            fresh,
            kb,
            b,
            Set::<u64>::empty(),
            d + 1,
        ),
        now == mid.update(
            was.len() as int,
            NodeView {
                depth: d,
                route: ka,
                kids: doc::no_kids().update(key::chunk_of(ka, d as int) as int, fresh),
            },
        ),
    ensures
        mid.len() > was.len(),
        mid[was.len() as int] == (NodeView { depth: d, route: ka, kids: doc::no_kids() }),
        plants(
            tract,
            was,
            Some(a),
            now,
            Some(ChildView::Dirty(was.len() as int)),
            kb,
            b,
            Set::<u64>::empty(),
            d as int,
        ),
{
    let j = was.len() as int;
    let x = key::chunk_of(ka, d as int) as int;
    key::lemma_chunk_bound(ka, d as int);
    let bare = NodeView { depth: d, route: ka, kids: doc::no_kids() };
    let grown = was.push(bare);
    let n = NodeView { depth: d, route: ka, kids: doc::no_kids().update(x, fresh) };
    let up = Some(ChildView::Dirty(j));
    if d == 51 {
        key::lemma_last_chunk(ka);
    }
    lemma_bare_joins(was, d, ka);
    lemma_committed_walk(tract, was, grown, Some(a), kb, d as int);
    lemma_committed_walk(tract, grown, grown, Some(a), kb, d + 1);
    assert(mid[j] == grown[j]);
    assert forall|i: int| 0 <= i < now.len() implies trie::node_wf(
        #[trigger] now[i],
        i,
        now.len() as int,
    ) by {
        assert(trie::node_wf(mid[i], i, mid.len() as int));
        if i == j {
            assert forall|z: int| 0 <= z < 32 implies ((#[trigger] n.kids[z]) matches Some(q)
                ==> match q {
                ChildView::Dirty(q) => j < q < now.len(),
                ChildView::At { hash, lba } => hash.len() == 32,
            }) by {
                if z == x {
                }
            }
        }
    }
    assert(arena_within(was, now, Set::<int>::empty())) by {
        assert forall|i: int| 0 <= i < was.len() implies #[trigger] now[i] == was[i] by {
            assert(grown[i] == was[i]);
            assert(mid[i] == grown[i]);
        }
    }
    lemma_ending(tract, b, kb, kb, d as int, d + 1);
    assert forall|k: Seq<u8>|
        k.len() == 32 && key::chunk_of(k, d as int) == x implies #[trigger] trie::walk(
        tract,
        now,
        up,
        k,
        d as int,
    ) == up_dirty(n, j, k, d as int, trie::walk(tract, mid, fresh, k, d + 1)) by {
        trie::lemma_nodes_above(tract, mid, fresh, k, d + 1);
        let s = trie::walk(tract, mid, fresh, k, d + 1);
        assert(trie::same_nodes(mid, now, s.nodes)) by {
            assert forall|q: int| #[trigger] s.nodes.contains(q) && 0 <= q < mid.len() implies q
                < now.len() && mid[q] == now[q] by {
                assert(q != j);
            }
        }
        trie::law_path_depends_on_its_reads(tract, tract, mid, now, fresh, k, d + 1);
        assert(n.kids[x] == fresh);
    }
    if branch_placed(tract, was, Some(a), kb, d as int) {
        lemma_ending(tract, a, ka, kb, d as int, d + 1);
        lemma_committed_walk(tract, was, Seq::<NodeView>::empty(), Some(a), kb, d as int);
        assert(trie::walk(tract, was, Some(a), kb, d as int).placed);
        assert(key::agree(ka, kb, d as int));
        assert(branch_placed(tract, grown, Some(a), kb, d + 1)) by {
            assert forall|k: Seq<u8>| k.len() == 32 && key::agree(k, kb, d + 1) implies (
            #[trigger] trie::walk(tract, grown, Some(a), k, d + 1)).placed by {
                lemma_committed_walk(tract, grown, Seq::<NodeView>::empty(), Some(a), k, d + 1);
                lemma_ending(tract, a, ka, k, d + 1, d + 1);
                trie::lemma_agree_swap(k, kb, d + 1);
                trie::lemma_agree_step(ka, kb, d as int);
                key::lemma_agree_through(ka, kb, k, d + 1);
            }
        }
        assert(trie::walk(tract, grown, Some(a), kb, d + 1).whole);
        assert forall|k: Seq<u8>| k.len() == 32 && key::agree(k, kb, d as int) implies planted(
            trie::walk(tract, was, Some(a), k, d as int),
            #[trigger] trie::walk(tract, now, up, k, d as int),
            k,
            kb,
            ending(tract, b, kb, d as int),
            Set::<u64>::empty(),
        ) by {
            key::lemma_chunk_bound(k, d as int);
            let z = key::chunk_of(k, d as int) as int;
            let t = trie::walk(tract, was, Some(a), k, d as int);
            let u = trie::walk(tract, now, up, k, d as int);
            assert(t.placed);
            lemma_committed_walk(tract, was, Seq::<NodeView>::empty(), Some(a), k, d as int);
            lemma_ending(tract, a, ka, k, d as int, d + 1);
            if z == x {
                trie::lemma_agree_step(k, kb, d as int);
                let s = trie::walk(tract, grown, Some(a), k, d + 1);
                lemma_committed_walk(tract, grown, Seq::<NodeView>::empty(), Some(a), k, d + 1);
                lemma_ending(tract, a, ka, k, d + 1, d + 1);
                let v = trie::walk(tract, mid, fresh, k, d + 1);
                assert(planted(s, v, k, kb, ending(tract, b, kb, d + 1), Set::<u64>::empty()));
                assert(u == up_dirty(n, j, k, d as int, v));
            } else {
                assert(n.kids[z] is None);
                assert(trie::walk(tract, now, None, k, d + 1) == trie::absent(
                    Set::<u64>::empty(),
                    true,
                    None,
                ));
                assert(k != kb && k != ka);
            }
        }
    }
}

/// Whether a slot is a dirty node.
pub open spec fn is_dirty(slot: Option<ChildView>) -> bool {
    slot matches Some(ChildView::Dirty(_))
}

/// How many slots among some are dirty nodes.
pub open spec fn dirty_kids(kids: Seq<Option<ChildView>>) -> nat
    decreases kids.len(),
{
    if kids.len() == 0 {
        0
    } else {
        dirty_kids(kids.drop_last()) + (if is_dirty(kids.last()) {
            1nat
        } else {
            0
        })
    }
}

/// How many slots of the nodes of an arena are dirty nodes.
pub open spec fn dirty_slots(arena: Seq<NodeView>) -> nat
    decreases arena.len(),
{
    if arena.len() == 0 {
        0
    } else {
        dirty_slots(arena.drop_last()) + dirty_kids(arena.last().kids)
    }
}

/// How many nodes there are to write, at most, before a slot of an arena is committed.
pub open spec fn dirt(arena: Seq<NodeView>, slot: Option<ChildView>) -> nat {
    dirty_slots(arena) + (if is_dirty(slot) {
        1nat
    } else {
        0
    })
}

/// What one slot adds to those that are dirty.
proof fn lemma_dirty_kid(kids: Seq<Option<ChildView>>, c: int, kid: Option<ChildView>)
    requires
        0 <= c < kids.len(),
    ensures
        dirty_kids(kids.update(c, kid)) + (if is_dirty(kids[c]) {
            1nat
        } else {
            0
        }) == dirty_kids(kids) + (if is_dirty(kid) {
            1nat
        } else {
            0
        }),
    decreases kids.len(),
{
    let now = kids.update(c, kid);
    if c == kids.len() - 1 {
        assert(now.drop_last() =~= kids.drop_last());
    } else {
        assert(now.drop_last() =~= kids.drop_last().update(c, kid));
        lemma_dirty_kid(kids.drop_last(), c, kid);
    }
}

/// No slot that leads to the tract is dirty.
proof fn lemma_no_dirty(kids: Seq<Option<ChildView>>)
    requires
        forall|x: int| 0 <= x < kids.len() ==> !is_dirty(#[trigger] kids[x]),
    ensures
        dirty_kids(kids) == 0,
    decreases kids.len(),
{
    if kids.len() > 0 {
        assert(!is_dirty(kids[kids.len() - 1]));
        lemma_no_dirty(kids.drop_last());
    }
}

/// A node that joins an arena with no dirty slot adds none.
pub proof fn lemma_dirt_joins(arena: Seq<NodeView>, n: NodeView)
    requires
        forall|x: int| 0 <= x < n.kids.len() ==> !is_dirty(#[trigger] n.kids[x]),
    ensures
        dirty_slots(arena.push(n)) == dirty_slots(arena),
{
    assert(arena.push(n).drop_last() =~= arena);
    lemma_no_dirty(n.kids);
}

/// What a new slot in a node adds to those that are dirty.
pub proof fn lemma_dirt_kid(
    was: Seq<NodeView>,
    now: Seq<NodeView>,
    j: int,
    c: int,
    kid: Option<ChildView>,
)
    requires
        0 <= j < was.len(),
        0 <= c < was[j].kids.len(),
        now.len() == was.len(),
        forall|i: int| 0 <= i < was.len() && i != j ==> #[trigger] now[i] == was[i],
        now[j].kids == was[j].kids.update(c, kid),
    ensures
        dirt(now, was[j].kids[c]) == dirt(was, kid),
    decreases was.len(),
{
    if j == was.len() - 1 {
        assert(now.drop_last() =~= was.drop_last());
        lemma_dirty_kid(was[j].kids, c, kid);
    } else {
        assert(now.last() == was.last());
        lemma_dirt_kid(was.drop_last(), now.drop_last(), j, c, kid);
    }
}

/// How many nodes it takes, from depth `d` down, to part two keys.
pub open spec fn parting(a: Seq<u8>, b: Seq<u8>, d: int) -> nat
    decreases 52 - d,
{
    if d < 0 || d >= 52 {
        0
    } else if key::chunk_of(a, d) == key::chunk_of(b, d) {
        1 + parting(a, b, d + 1)
    } else {
        1
    }
}

/// How many committed nodes the path of a key comes by.
pub open spec fn thawed(
    tract: Seq<Seq<u8>>,
    arena: Seq<NodeView>,
    slot: Option<ChildView>,
    k: Seq<u8>,
    d: int,
) -> nat
    decreases 52 - d,
{
    if d < 0 || d >= 52 {
        0
    } else {
        match slot {
            None => 0,
            Some(ChildView::Dirty(j)) => if j < 0 || j >= arena.len() {
                0
            } else {
                thawed(tract, arena, arena[j].kids[key::chunk_of(k, d) as int], k, d + 1)
            },
            Some(ChildView::At { hash, lba }) => match trie::doc_at(tract, lba, hash) {
                Ok(Some(DocView::Node(n))) => 1 + thawed(
                    tract,
                    arena,
                    n.kids[key::chunk_of(k, d) as int],
                    k,
                    d + 1,
                ),
                _ => 0,
            },
        }
    }
}

/// How many nodes are to be written anew once a leaf of a key is planted: the committed ones on its
/// path, and those that part it from the leaf of another key.
pub open spec fn soiled(
    tract: Seq<Seq<u8>>,
    arena: Seq<NodeView>,
    slot: Option<ChildView>,
    k: Seq<u8>,
    d: int,
) -> nat
    decreases 52 - d,
{
    if d < 0 || d > 52 {
        0
    } else {
        match slot {
            None => 0,
            Some(ChildView::Dirty(j)) => if d >= 52 || j < 0 || j >= arena.len() {
                0
            } else {
                soiled(tract, arena, arena[j].kids[key::chunk_of(k, d) as int], k, d + 1)
            },
            Some(ChildView::At { hash, lba }) => match trie::doc_at(tract, lba, hash) {
                Ok(Some(DocView::Node(n))) => if d >= 52 {
                    0
                } else {
                    1 + soiled(tract, arena, n.kids[key::chunk_of(k, d) as int], k, d + 1)
                },
                Ok(Some(leaf)) => match trie::leaf_key(leaf) {
                    Some(x) => if x == k {
                        0
                    } else {
                        parting(x, k, d)
                    },
                    None => 0,
                },
                _ => 0,
            },
        }
    }
}

proof fn lemma_parting(a: Seq<u8>, b: Seq<u8>, d: int)
    requires
        0 <= d <= 52,
    ensures
        parting(a, b, d) <= 52 - d,
    decreases 52 - d,
{
    if d < 52 {
        lemma_parting(a, b, d + 1);
    }
}

/// A path is no longer than its key, and the arena does not matter below a pointer to the medium.
pub proof fn lemma_soiled(
    tract: Seq<Seq<u8>>,
    a: Seq<NodeView>,
    b: Seq<NodeView>,
    slot: Option<ChildView>,
    k: Seq<u8>,
    d: int,
)
    requires
        0 <= d <= 52,
    ensures
        soiled(tract, a, slot, k, d) <= 53 - d,
        thawed(tract, a, slot, k, d) <= 52 - d,
        !(slot matches Some(ChildView::Dirty(_))) ==> soiled(tract, b, slot, k, d) == soiled(
            tract,
            a,
            slot,
            k,
            d,
        ) && thawed(tract, b, slot, k, d) == thawed(tract, a, slot, k, d),
    decreases 52 - d,
{
    match slot {
        None => {},
        Some(ChildView::Dirty(j)) => {
            if d < 52 && 0 <= j < a.len() {
                lemma_soiled(tract, a, b, a[j].kids[key::chunk_of(k, d) as int], k, d + 1);
            }
        },
        Some(ChildView::At { hash, lba }) => {
            if let Ok(Some(doc)) = trie::doc_at(tract, lba, hash) {
                if let DocView::Node(n) = doc {
                    if d < 52 {
                        let c = key::chunk_of(k, d) as int;
                        key::lemma_chunk_bound(k, d);
                        trie::lemma_doc_shape(tract[lba as int]);
                        assert(n.kids[c] matches Some(x) ==> x is At);
                        lemma_soiled(tract, a, b, n.kids[c], k, d + 1);
                    }
                } else if let Some(x) = trie::leaf_key(doc) {
                    lemma_parting(x, k, d);
                }
            }
        },
    }
}

/// What is to be written anew depends on the blocks of the path alone.
pub proof fn lemma_soiled_same(
    t0: Seq<Seq<u8>>,
    t1: Seq<Seq<u8>>,
    arena: Seq<NodeView>,
    slot: Option<ChildView>,
    k: Seq<u8>,
    d: int,
)
    requires
        0 <= d <= 52,
        t1.len() == t0.len(),
        forall|p: u64| #[trigger]
            trie::walk(t0, arena, slot, k, d).reads.contains(p) && p < t0.len() ==> t1[p as int]
                == t0[p as int],
    ensures
        soiled(t1, arena, slot, k, d) == soiled(t0, arena, slot, k, d),
        thawed(t1, arena, slot, k, d) == thawed(t0, arena, slot, k, d),
    decreases 52 - d,
{
    match slot {
        None => {},
        Some(ChildView::Dirty(j)) => {
            if d < 52 && 0 <= j < arena.len() {
                let sub = arena[j].kids[key::chunk_of(k, d) as int];
                assert(trie::walk(t0, arena, slot, k, d).reads == trie::walk(
                    t0,
                    arena,
                    sub,
                    k,
                    d + 1,
                ).reads);
                lemma_soiled_same(t0, t1, arena, sub, k, d + 1);
            }
        },
        Some(ChildView::At { hash, lba }) => {
            assert(trie::walk(t0, arena, slot, k, d).reads.contains(lba));
            assert(trie::doc_at(t1, lba, hash) == trie::doc_at(t0, lba, hash));
            if let Ok(Some(DocView::Node(n))) = trie::doc_at(t0, lba, hash) {
                if d < 52 {
                    let sub = n.kids[key::chunk_of(k, d) as int];
                    assert forall|p: u64| #[trigger]
                        trie::walk(t0, arena, sub, k, d + 1).reads.contains(p) && p
                            < t0.len() implies t1[p as int] == t0[p as int] by {
                        assert(trie::walk(t0, arena, slot, k, d).reads.contains(p));
                    }
                    lemma_soiled_same(t0, t1, arena, sub, k, d + 1);
                }
            }
        },
    }
}

}
