//! The keys of an index: every leaf that its own key leads to.
use vstd::prelude::*;
use crate::block;
use crate::block::BlockDev;
use crate::doc;
use crate::doc::{Child, ChildView, DocView, TractDoc};
use crate::error;
use crate::error::{corrupt_err, ErrorView, Result};
use crate::hamt;
use crate::hamt::read_doc;
use crate::key;
use crate::key::chunk;
use crate::mirror::Mirror;
use crate::swap;
use crate::tract::Tract;
use crate::trie;

verus! {

/// Whether a key takes these slots first.
pub open spec fn takes(k: Seq<u8>, slots: Seq<u8>) -> bool {
    forall|i: int| 0 <= i < slots.len() ==> key::chunk_of(k, i) == #[trigger] slots[i]
}

/// The keys of the leaves under a committed pointer that `slots` led to.
pub open spec fn keys_at(t: Seq<Seq<u8>>, hash: Seq<u8>, lba: u64, slots: Seq<u8>) -> core::result::Result<
    Seq<Seq<u8>>,
    ErrorView,
>
    decreases 52 - slots.len(), 33int,
{
    match trie::doc_at(t, lba, hash) {
        Err(e) => Err(e),
        Ok(None) => Ok(Seq::<Seq<u8>>::empty()),
        Ok(Some(DocView::Node(n))) => if slots.len() >= 52 {
            Err(trie::too_deep())
        } else {
            keys_in(t, n.kids, 32, slots)
        },
        Ok(Some(DocView::Furrow { .. })) => Err(error::corrupt("furrow in index position")),
        Ok(Some(leaf)) => if takes(trie::leaf_key(leaf)->0, slots) {
            Ok(seq![trie::leaf_key(leaf)->0])
        } else {
            Ok(Seq::<Seq<u8>>::empty())
        },
    }
}

/// The keys under the first `n` slots of a node.
pub open spec fn keys_in(
    t: Seq<Seq<u8>>,
    kids: Seq<Option<ChildView>>,
    n: nat,
    slots: Seq<u8>,
) -> core::result::Result<Seq<Seq<u8>>, ErrorView>
    decreases 52 - slots.len(), n,
{
    if n == 0 || n > 32 || slots.len() >= 52 {
        Ok(Seq::<Seq<u8>>::empty())
    } else {
        match keys_in(t, kids, (n - 1) as nat, slots) {
            Err(e) => Err(e),
            Ok(ks) => match kids[n - 1] {
                Some(ChildView::At { hash, lba }) => match keys_at(
                    t,
                    hash,
                    lba,
                    slots.push((n - 1) as u8),
                ) {
                    Err(e) => Err(e),
                    Ok(more) => Ok(ks + more),
                },
                _ => Ok(ks),
            },
        }
    }
}

/// The keys of a committed root.
pub open spec fn keys_of(t: Seq<Seq<u8>>, root: Option<ChildView>) -> core::result::Result<
    Seq<Seq<u8>>,
    ErrorView,
> {
    match root {
        Some(ChildView::At { hash, lba }) => keys_at(t, hash, lba, Seq::<u8>::empty()),
        _ => Ok(Seq::<Seq<u8>>::empty()),
    }
}

proof fn lemma_keys_fail(
    t: Seq<Seq<u8>>,
    kids: Seq<Option<ChildView>>,
    n: nat,
    m: nat,
    slots: Seq<u8>,
)
    requires
        slots.len() < 52,
        n <= m <= 32,
        keys_in(t, kids, n, slots) is Err,
    ensures
        keys_in(t, kids, m, slots) == keys_in(t, kids, n, slots),
    decreases m,
{
    if n < m {
        lemma_keys_fail(t, kids, n, (m - 1) as nat, slots);
    }
}

/// A key under one slot of a node is a key under the node, and the other way round.
proof fn lemma_keys_in(
    t: Seq<Seq<u8>>,
    kids: Seq<Option<ChildView>>,
    n: nat,
    slots: Seq<u8>,
    k: Seq<u8>,
)
    requires
        slots.len() < 52,
        n <= 32,
        keys_in(t, kids, n, slots) is Ok,
    ensures
        keys_in(t, kids, n, slots)->Ok_0.contains(k) <==> exists|c: int|
            0 <= c < n && ((#[trigger] kids[c]) matches Some(x) && x is At && (keys_at(
                t,
                x->hash,
                x->lba,
                slots.push(c as u8),
            ) matches Ok(ks) && ks.contains(k))),
        forall|c: int|
            0 <= c < n && ((#[trigger] kids[c]) matches Some(x) && x is At) ==> keys_at(
                t,
                kids[c]->0->hash,
                kids[c]->0->lba,
                slots.push(c as u8),
            ) is Ok,
    decreases n,
{
    if n > 0 {
        lemma_keys_in(t, kids, (n - 1) as nat, slots, k);
        let was = keys_in(t, kids, (n - 1) as nat, slots)->Ok_0;
        let now = keys_in(t, kids, n, slots)->Ok_0;
        if let Some(ChildView::At { hash, lba }) = kids[n - 1] {
            let more = keys_at(t, hash, lba, slots.push((n - 1) as u8))->Ok_0;
            if was.contains(k) {
                let i = choose|i: int| 0 <= i < was.len() && was[i] == k;
                assert(now[i] == k);
            }
            if more.contains(k) {
                let i = choose|i: int| 0 <= i < more.len() && more[i] == k;
                assert(now[was.len() + i] == k);
                assert(kids[n - 1] matches Some(x) && x is At);
            }
            if now.contains(k) {
                let i = choose|i: int| 0 <= i < now.len() && now[i] == k;
                if i < was.len() {
                    assert(was[i] == k);
                } else {
                    assert(more[i - was.len()] == k);
                    assert(kids[n - 1] matches Some(x) && x is At);
                }
            }
        }
    }
}

/// The keys under a pointer are those whose path leads to a leaf of their own.
proof fn lemma_keys_at(t: Seq<Seq<u8>>, hash: Seq<u8>, lba: u64, slots: Seq<u8>, k: Seq<u8>)
    requires
        slots.len() <= 52,
        k.len() == 32,
        keys_at(t, hash, lba, slots) is Ok,
    ensures
        keys_at(t, hash, lba, slots)->Ok_0.contains(k) <==> takes(k, slots) && (swap::tail(
            t,
            Some(ChildView::At { hash, lba }),
            k,
            slots.len() as int,
        ).leaf matches Ok(Some(_))),
    decreases 52 - slots.len(),
{
    let d = slots.len() as int;
    let ks = keys_at(t, hash, lba, slots)->Ok_0;
    match trie::doc_at(t, lba, hash) {
        Ok(Some(DocView::Node(n))) => {
            trie::lemma_doc_shape(t[lba as int]);
            lemma_keys_in(t, n.kids, 32, slots, k);
            let c = key::chunk_of(k, d) as int;
            key::lemma_chunk_bound(k, d);
            assert forall|x: int|
                0 <= x < 32 && ((#[trigger] n.kids[x]) matches Some(y) && y is At) implies (keys_at(
                t,
                n.kids[x]->0->hash,
                n.kids[x]->0->lba,
                slots.push(x as u8),
            )->Ok_0.contains(k) <==> takes(k, slots.push(x as u8)) && (swap::tail(
                t,
                n.kids[x],
                k,
                d + 1,
            ).leaf matches Ok(Some(_)))) by {
                lemma_keys_at(
                    t,
                    n.kids[x]->0->hash,
                    n.kids[x]->0->lba,
                    slots.push(x as u8),
                    k,
                );
            }
            assert forall|x: int| 0 <= x < 32 implies (#[trigger] takes(k, slots.push(x as u8))
                <==> takes(k, slots) && x == c) by {
                let more = slots.push(x as u8);
                if takes(k, more) {
                    assert(more[d] == x as u8);
                    assert forall|i: int| 0 <= i < d implies key::chunk_of(k, i)
                        == #[trigger] slots[i] by {
                        assert(more[i] == slots[i]);
                    }
                }
                if takes(k, slots) && x == c {
                    assert forall|i: int| 0 <= i < more.len() implies key::chunk_of(k, i)
                        == #[trigger] more[i] by {
                        if i < d {
                            assert(more[i] == slots[i]);
                        }
                    }
                }
            }
            assert(n.kids[c] matches Some(y) ==> y is At);
            assert(takes(k, slots.push(c as u8)) <==> takes(k, slots));
            assert(swap::tail(t, None, k, d + 1).leaf == Ok::<
                Option<(u64, Seq<u8>)>,
                ErrorView,
            >(None));
        },
        Ok(Some(DocView::Furrow { .. })) => {},
        Ok(Some(leaf)) => {
            let own = trie::leaf_key(leaf)->0;
            if takes(own, slots) {
                assert(ks[0] == own);
                assert(ks.contains(own));
            }
        },
        _ => {},
    }
}

/// The keys under a pointer can be listed where every path through it is sound; `route` is one.
proof fn lemma_sound_keys_at(
    t: Seq<Seq<u8>>,
    hash: Seq<u8>,
    lba: u64,
    slots: Seq<u8>,
    route: Seq<u8>,
)
    requires
        slots.len() <= 52,
        route.len() == 32,
        takes(route, slots),
        forall|k: Seq<u8>|
            k.len() == 32 && takes(k, slots) ==> (#[trigger] swap::tail(
                t,
                Some(ChildView::At { hash, lba }),
                k,
                slots.len() as int,
            )).sound(),
    ensures
        keys_at(t, hash, lba, slots) is Ok,
    decreases 52 - slots.len(), 33int,
{
    let d = slots.len() as int;
    let at = Some(ChildView::At { hash, lba });
    assert(swap::tail(t, at, route, d).sound());
    if let Ok(Some(DocView::Node(n))) = trie::doc_at(t, lba, hash) {
        trie::lemma_doc_shape(t[lba as int]);
        assert(d < 52);
        assert(trie::stands(n, route, d));
        assert forall|x: int, k: Seq<u8>|
            0 <= x < 32 && n.kids[x] is Some && k.len() == 32 && takes(
                k,
                slots.push(x as u8),
            ) implies (#[trigger] swap::tail(t, n.kids[x], k, d + 1)).sound() by {
            let way = slots.push(x as u8);
            assert(key::chunk_of(k, d) == way[d]);
            assert(takes(k, slots)) by {
                assert forall|i: int| 0 <= i < slots.len() implies key::chunk_of(k, i)
                    == #[trigger] slots[i] by {
                    assert(key::chunk_of(k, i) == way[i]);
                }
            }
            assert(swap::tail(t, at, k, d).sound());
        }
        lemma_sound_keys_in(t, n.kids, 32, slots, route);
    }
}

proof fn lemma_sound_keys_in(
    t: Seq<Seq<u8>>,
    kids: Seq<Option<ChildView>>,
    n: nat,
    slots: Seq<u8>,
    route: Seq<u8>,
)
    requires
        slots.len() < 52,
        n <= 32,
        kids.len() == 32,
        route.len() == 32,
        takes(route, slots),
        slots.len() == 51 ==> forall|x: int|
            0 <= x < kids.len() && x % 16 != 0 ==> (#[trigger] kids[x]) is None,
        forall|x: int, k: Seq<u8>|
            0 <= x < 32 && kids[x] is Some && k.len() == 32 && takes(k, slots.push(x as u8)) ==> (
            #[trigger] swap::tail(t, kids[x], k, slots.len() as int + 1)).sound(),
    ensures
        keys_in(t, kids, n, slots) is Ok,
    decreases 52 - slots.len(), n,
{
    if n > 0 {
        lemma_sound_keys_in(t, kids, (n - 1) as nat, slots, route);
        if let Some(ChildView::At { hash, lba }) = kids[n - 1] {
            let d = slots.len() as int;
            let c = (n - 1) as u8;
            let way = slots.push(c);
            let r = key::routed(route, d, c);
            key::lemma_routed(route, d, c);
            assert(takes(r, way)) by {
                assert forall|i: int| 0 <= i < way.len() implies key::chunk_of(r, i)
                    == #[trigger] way[i] by {
                    if i < d {
                        assert(key::chunk_of(r, i) == key::chunk_of(route, i));
                        assert(way[i] == slots[i]);
                    }
                }
            }
            assert forall|k: Seq<u8>| k.len() == 32 && takes(k, way) implies (
            #[trigger] swap::tail(t, Some(ChildView::At { hash, lba }), k, d + 1)).sound() by {
                assert(swap::tail(t, kids[n - 1], k, d + 1).sound());
            }
            lemma_sound_keys_at(t, hash, lba, way, r);
        }
    }
}

/// Law: the keys of a committed index can be listed where every path is sound.
pub proof fn law_sound_index_lists_its_keys(t: Seq<Seq<u8>>, hash: Seq<u8>, lba: u64)
    requires
        forall|k: Seq<u8>|
            k.len() == 32 ==> (#[trigger] hamt::committed_index(hash, lba).path(t, k)).sound(),
    ensures
        keys_of(t, hamt::root_slot(hash, lba)) is Ok,
{
    if hash != block::zeros32() {
        let none = Seq::<u8>::empty();
        assert forall|k: Seq<u8>| k.len() == 32 && takes(k, none) implies (#[trigger] swap::tail(
            t,
            Some(ChildView::At { hash, lba }),
            k,
            0,
        )).sound() by {
            assert(hamt::committed_index(hash, lba).path(t, k).sound());
        }
        lemma_sound_keys_at(t, hash, lba, none, block::zeros32());
    }
}

/// Law: the keys of a committed index are exactly those that are found in it, where every path is
/// sound.
pub proof fn law_keys_are_those_found(t: Seq<Seq<u8>>, hash: Seq<u8>, lba: u64, k: Seq<u8>)
    requires
        k.len() == 32,
        keys_of(t, hamt::root_slot(hash, lba)) is Ok,
        hamt::committed_index(hash, lba).path(t, k).sound(),
    ensures
        keys_of(t, hamt::root_slot(hash, lba))->Ok_0.contains(k) <==> (hamt::committed_index(
            hash,
            lba,
        ).path(t, k).found matches Ok(Some(_))),
{
    let ix = hamt::committed_index(hash, lba);
    hamt::lemma_found_leaf(t, ix.arena, ix.root, k, 0);
    if hash != block::zeros32() {
        lemma_keys_at(t, hash, lba, Seq::<u8>::empty(), k);
    }
}

/// Whether a key takes these slots first.
fn takes_slots(k: &[u8; 32], slots: &Vec<u8>) -> (r: bool)
    requires
        slots@.len() <= 52,
    ensures
        r == takes(k@, slots@),
{
    let mut i: usize = 0;
    while i < slots.len()
        invariant
            i <= slots@.len() <= 52,
            forall|j: int| 0 <= j < i ==> key::chunk_of(k@, j) == #[trigger] slots@[j],
        decreases slots@.len() - i,
    {
        if chunk(k, i as u8) != slots[i] {
            return false;
        }
        i = i + 1;
    }
    true
}

/// The view of some keys.
pub open spec fn keys_view(ks: Seq<[u8; 32]>) -> Seq<Seq<u8>> {
    Seq::new(ks.len(), |i: int| ks[i]@)
}

/// Collects the keys under a committed pointer.
#[verifier::rlimit(40)]
pub(crate) fn walk_keys_at<A: BlockDev, B: BlockDev>(
    mirror: &mut Mirror<A, B>,
    tract: &Tract,
    lba: u64,
    hash: &[u8; 32],
    slots: &mut Vec<u8>,
    out: &mut Vec<[u8; 32]>,
) -> (r: Result<()>)
    requires
        tract.base + tract.len <= u64::MAX,
        old(slots)@.len() <= 52,
    ensures
        hamt::untouched(final(mirror), old(mirror)),
        match r {
            Ok(()) => {
                &&& final(slots)@ == old(slots)@
                &&& keys_at(tract.on(old(mirror).disk()), hash@, lba, old(slots)@) matches Ok(ks)
                    && keys_view(final(out)@) == keys_view(old(out)@) + ks
            },
            Err(e) => keys_at(tract.on(old(mirror).disk()), hash@, lba, old(slots)@) == Err::<
                Seq<Seq<u8>>,
                ErrorView,
            >(e@) || block::device_error(e@) && !hamt::sure_of(old(mirror), tract),
        },
    decreases 52 - old(slots)@.len(),
{
    let ghost t = tract.on(mirror.disk());
    let ghost was = keys_view(out@);
    let ghost way = slots@;
    let ghost none = Seq::<Seq<u8>>::empty();
    assert(was + none =~= was);
    let doc = match read_doc(mirror, tract, lba, hash) {
        Err(e) => {
            proof {
                trie::lemma_read_errors(t, lba, hash@);
            }
            return Err(e);
        },
        Ok(None) => return Ok(()),
        Ok(Some(d)) => d,
    };
    match doc {
        TractDoc::Node(node) => {
            if slots.len() >= 52 {
                return Err(corrupt_err("index deeper than its keys"));
            }
            proof {
                trie::lemma_doc_shape(t[lba as int]);
            }
            let ghost kids = node@.kids;
            let mut c: usize = 0;
            while c < 32
                invariant
                    c <= 32,
                    way.len() < 52,
                    way == old(slots)@,
                    slots@ == way,
                    tract.base + tract.len <= u64::MAX,
                    hamt::untouched(mirror, old(mirror)),
                    t == tract.on(old(mirror).disk()),
                    node.children@.len() == 32,
                    kids == node@.kids,
                    doc::all_at(kids),
                    trie::doc_at(t, lba, hash@) == Ok::<Option<DocView>, ErrorView>(
                        Some(DocView::Node(node@)),
                    ),
                    was == keys_view(old(out)@),
                    keys_in(t, kids, c as nat, way) matches Ok(ks) && keys_view(out@) == was + ks,
                decreases 32 - c,
            {
                let ghost sofar = keys_in(t, kids, c as nat, way)->Ok_0;
                assert(doc::slot_view(node.children@[c as int]) == kids[c as int]);
                if let Some(Child::Committed { hash: h, lba: l }) = node.children[c] {
                    slots.push(c as u8);
                    match walk_keys_at(mirror, tract, l, &h, slots, out) {
                        Err(e) => {
                            proof {
                                if keys_in(t, kids, (c + 1) as nat, way) is Err {
                                    lemma_keys_fail(t, kids, (c + 1) as nat, 32, way);
                                }
                            }
                            return Err(e);
                        },
                        Ok(()) => {},
                    }
                    slots.pop();
                    assert(slots@ =~= way);
                    proof {
                        let more = keys_at(t, h@, l, way.push(c as u8))->Ok_0;
                        assert(was + sofar + more =~= was + (sofar + more));
                    }
                } else {
                    assert(!(kids[c as int] matches Some(ChildView::At { .. })));
                }
                c = c + 1;
            }
            Ok(())
        },
        TractDoc::Lone { key: k, .. }
        | TractDoc::Direct { key: k, .. }
        | TractDoc::Extent { key: k, .. } => {
            if takes_slots(&k, slots) {
                out.push(k);
                assert(keys_view(out@) =~= was + seq![k@]);
            }
            Ok(())
        },
        TractDoc::Furrow { .. } => Err(corrupt_err("furrow in index position")),
    }
}

/// Whether the first key parts from the second by a lower chunk.
pub open spec fn precedes(a: Seq<u8>, b: Seq<u8>) -> bool {
    exists|d: int|
        0 <= d < 52 && key::agree(a, b, d) && #[trigger] key::chunk_of(a, d) < key::chunk_of(b, d)
}

/// Whether each of some keys precedes the next ones.
pub open spec fn in_order(ks: Seq<Seq<u8>>) -> bool {
    forall|i: int, j: int|
        0 <= i < j < ks.len() ==> precedes(#[trigger] ks[i], #[trigger] ks[j])
}

proof fn lemma_ordered_at(t: Seq<Seq<u8>>, hash: Seq<u8>, lba: u64, slots: Seq<u8>)
    requires
        slots.len() <= 52,
    ensures
        keys_at(t, hash, lba, slots) matches Ok(ks) ==> in_order(ks) && forall|i: int|
            0 <= i < ks.len() ==> takes(#[trigger] ks[i], slots),
    decreases 52 - slots.len(), 33int,
{
    if let Ok(Some(DocView::Node(n))) = trie::doc_at(t, lba, hash) {
        if slots.len() < 52 {
            lemma_ordered_in(t, n.kids, 32, slots);
        }
    }
}

proof fn lemma_ordered_in(t: Seq<Seq<u8>>, kids: Seq<Option<ChildView>>, n: nat, slots: Seq<u8>)
    requires
        slots.len() < 52,
        n <= 32,
    ensures
        keys_in(t, kids, n, slots) matches Ok(ks) ==> in_order(ks) && forall|i: int|
            0 <= i < ks.len() ==> takes(#[trigger] ks[i], slots) && key::chunk_of(
                ks[i],
                slots.len() as int,
            ) < n,
    decreases 52 - slots.len(), n,
{
    if n > 0 {
        lemma_ordered_in(t, kids, (n - 1) as nat, slots);
        if let Ok(ks) = keys_in(t, kids, n, slots) {
            if let Some(ChildView::At { hash, lba }) = kids[n - 1] {
                let below = slots.push((n - 1) as u8);
                lemma_ordered_at(t, hash, lba, below);
                let few = keys_in(t, kids, (n - 1) as nat, slots)->Ok_0;
                let more = keys_at(t, hash, lba, below)->Ok_0;
                assert(ks == few + more);
                assert forall|i: int| 0 <= i < more.len() implies takes(#[trigger] more[i], slots)
                    && key::chunk_of(more[i], slots.len() as int) == n - 1 by {
                    assert(takes(more[i], below));
                    assert forall|j: int| 0 <= j < slots.len() implies key::chunk_of(more[i], j)
                        == #[trigger] slots[j] by {
                        assert(below[j] == slots[j]);
                    }
                    assert(below[slots.len() as int] == (n - 1) as u8);
                }
                assert forall|i: int, j: int| 0 <= i < j < ks.len() implies precedes(
                    #[trigger] ks[i],
                    #[trigger] ks[j],
                ) by {
                    if j < few.len() {
                        assert(ks[i] == few[i] && ks[j] == few[j]);
                    } else if i >= few.len() {
                        assert(ks[i] == more[i - few.len()] && ks[j] == more[j - few.len()]);
                    } else {
                        assert(ks[i] == few[i] && ks[j] == more[j - few.len()]);
                        let d = slots.len() as int;
                        assert forall|c: int| 0 <= c < d implies #[trigger] key::chunk_of(ks[i], c)
                            == key::chunk_of(ks[j], c) by {
                            assert(key::chunk_of(few[i], c) == slots[c]);
                        }
                        assert(key::chunk_of(ks[i], d) < key::chunk_of(ks[j], d));
                    }
                }
                assert forall|i: int| 0 <= i < ks.len() implies takes(#[trigger] ks[i], slots)
                    && key::chunk_of(ks[i], slots.len() as int) < n by {
                    if i < few.len() {
                        assert(ks[i] == few[i]);
                    } else {
                        assert(ks[i] == more[i - few.len()]);
                    }
                }
            }
        }
    }
}

/// Law: keys are listed once each, in the order of their bits.
pub proof fn law_keys_are_listed_in_order(t: Seq<Seq<u8>>, root: Option<ChildView>, ks: Seq<Seq<u8>>)
    requires
        keys_of(t, root) == Ok::<Seq<Seq<u8>>, ErrorView>(ks),
    ensures
        in_order(ks),
        ks.no_duplicates(),
{
    if let Some(ChildView::At { hash, lba }) = root {
        lemma_ordered_at(t, hash, lba, Seq::<u8>::empty());
    }
    assert forall|i: int, j: int| 0 <= i < ks.len() && 0 <= j < ks.len() && i != j implies ks[i]
        != ks[j] by {
        if i < j {
            assert(precedes(ks[i], ks[j]));
        } else {
            assert(precedes(ks[j], ks[i]));
        }
    }
}

}
