//! Lists of furrows to move: put in order, checked against the leaf, and patched into it.
use vstd::prelude::*;
use crate::extent;
use crate::block::{zero_block, Block, BlockDev};
use crate::error::Result;
use crate::hamt;
use crate::mirror::Mirror;
use crate::tract::Tract;

verus! {

/// Where in a list that is ordered by index the next item goes.
fn place_for(out: &Vec<(u64, u64)>, index: u64) -> (at: usize)
    ensures
        at <= out@.len(),
        forall|j: int| at <= j < out@.len() ==> (#[trigger] out@[j]).1 > index,
        at > 0 ==> out@[at - 1].1 <= index,
{
    let mut at: usize = out.len();
    while at > 0
        invariant
            at <= out@.len(),
            forall|j: int| at <= j < out@.len() ==> (#[trigger] out@[j]).1 > index,
        ensures
            at <= out@.len(),
            forall|j: int| at <= j < out@.len() ==> (#[trigger] out@[j]).1 > index,
            at > 0 ==> out@[at - 1].1 <= index,
        decreases at,
    {
        if out[at - 1].1 <= index {
            break;
        }
        at = at - 1;
    }
    at
}

/// Whether a list is ordered by index.
pub open spec fn in_order(s: Seq<(u64, u64)>) -> bool {
    forall|i: int, j: int| 0 <= i < j < s.len() ==> (#[trigger] s[i]).1 <= (#[trigger] s[j]).1
}

/// The items in order of their index.
pub(crate) fn by_index(group: &Vec<(u64, u64)>) -> (out: Vec<(u64, u64)>)
    ensures
        in_order(out@),
        out@.to_multiset() == group@.to_multiset(),
        out@.len() == group@.len(),
        forall|x: (u64, u64)| #[trigger] out@.contains(x) == group@.contains(x),
{
    let mut out: Vec<(u64, u64)> = Vec::new();
    let mut i: usize = 0;
    proof {
        assert(group@.take(0) =~= Seq::<(u64, u64)>::empty());
        assert(out@ =~= group@.take(0));
    }
    while i < group.len()
        invariant
            out@.len() == i,
            i <= group@.len(),
            in_order(out@),
            out@.to_multiset() == group@.take(i as int).to_multiset(),
        decreases group@.len() - i,
    {
        let x: (u64, u64) = group[i];
        let at: usize = place_for(&out, x.1);
        let ghost was = out@;
        out.insert(at, x);
        proof {
            assert(out@ =~= was.insert(at as int, x));
            out@.to_multiset_ensures();
            assert(out@.remove(at as int) =~= was);
            assert(out@.to_multiset().count(x) > 0) by {
                assert(out@[at as int] == x);
                assert(out@.contains(x));
            }
            assert(out@.to_multiset() =~= was.to_multiset().insert(x));
            let next = group@.take(i + 1);
            assert(next =~= group@.take(i as int).push(x));
            group@.take(i as int).to_multiset_ensures();
            assert forall|a: int, b: int| 0 <= a < b < out@.len() implies (#[trigger] out@[a]).1 <= (
            #[trigger] out@[b]).1 by {
                let pa = if a < at {
                    a
                } else {
                    a - 1
                };
                let pb = if b < at {
                    b
                } else {
                    b - 1
                };
                if a != at && b != at {
                    assert(out@[a] == was[pa] && out@[b] == was[pb]);
                } else if a == at {
                    assert(out@[b] == was[b - 1]);
                } else {
                    assert(out@[a] == was[a]);
                    if a < at - 1 {
                        assert(was[a].1 <= was[at - 1].1);
                    }
                }
            }
        }
        i = i + 1;
    }
    proof {
        assert(group@.take(i as int) =~= group@);
        assert forall|x: (u64, u64)| #[trigger] out@.contains(x) == group@.contains(x) by {
            out@.to_multiset_ensures();
            group@.to_multiset_ensures();
            assert(out@.contains(x) <==> out@.to_multiset().count(x) > 0);
            assert(group@.contains(x) <==> group@.to_multiset().count(x) > 0);
        }
    }
    out
}

/// Whether an item is where the list of positions says.
pub open spec fn is_listed(x: (u64, u64), positions: Seq<u64>) -> bool {
    x.1 < positions.len() && positions[x.1 as int] == x.0
}

/// The items that are where the list of positions says.
pub(crate) fn still_listed(group: &Vec<(u64, u64)>, positions: &Vec<u64>) -> (out: Vec<(u64, u64)>)
    ensures
        out@.len() <= group@.len(),
        forall|x: (u64, u64)| #[trigger]
            out@.contains(x) == (group@.contains(x) && is_listed(x, positions@)),
{
    let mut out: Vec<(u64, u64)> = Vec::new();
    let mut i: usize = 0;
    while i < group.len()
        invariant
            out@.len() <= i,
            i <= group@.len(),
            forall|x: (u64, u64)| #[trigger]
                out@.contains(x) == (group@.take(i as int).contains(x) && is_listed(
                    x,
                    positions@,
                )),
        decreases group@.len() - i,
    {
        let x: (u64, u64) = group[i];
        let ghost was = out@;
        let ghost sofar = group@.take(i as int);
        let ghost next = group@.take(i + 1);
        if x.1 < positions.len() as u64 && positions[x.1 as usize] == x.0 {
            out.push(x);
        }
        proof {
            assert(next =~= sofar.push(x));
            assert forall|y: (u64, u64)| #[trigger] out@.contains(y) == (next.contains(y)
                && is_listed(y, positions@)) by {
                if was.contains(y) {
                    let j = choose|j: int| 0 <= j < was.len() && was[j] == y;
                    assert(out@[j] == y);
                }
                if out@.contains(y) && y != x {
                    let j = choose|j: int| 0 <= j < out@.len() && out@[j] == y;
                    assert(was[j] == y);
                }
                if sofar.contains(y) {
                    let j = choose|j: int| 0 <= j < sofar.len() && sofar[j] == y;
                    assert(next[j] == y);
                }
                if next.contains(y) && y != x {
                    let j = choose|j: int| 0 <= j < next.len() && next[j] == y;
                    assert(sofar[j] == y);
                }
                if y == x {
                    assert(next[i as int] == x);
                    if is_listed(x, positions@) {
                        assert(out@[out@.len() - 1] == x);
                    }
                }
            }
        }
        i = i + 1;
    }
    assert(group@.take(i as int) =~= group@);
    out
}

/// What patching gives one index: its new position, or the one it had.
pub open spec fn patched_at(
    was: Seq<u64>,
    now: Seq<u64>,
    moves: Seq<(u64, u64)>,
    placed: Seq<u64>,
    n: int,
    i: int,
) -> bool {
    ||| now[i] == was[i] && (forall|x: int| 0 <= x < n ==> (#[trigger] moves[x]).1 != i)
    ||| exists|x: int| 0 <= x < n && (#[trigger] moves[x]).1 == i && now[i] == placed[x]
}

/// Puts the new positions of moved furrows in the list of positions.
pub(crate) fn patch(positions: &mut Vec<u64>, moves: &Vec<(u64, u64)>, placed: &Vec<u64>)
    requires
        moves@.len() == placed@.len(),
        forall|x: int|
            0 <= x < moves@.len() ==> is_listed(#[trigger] moves@[x], old(positions)@),
    ensures
        final(positions)@.len() == old(positions)@.len(),
        extent::packed(final(positions)@).len() <= extent::packed(old(positions)@).len() + 2
            * moves@.len(),
        forall|i: int|
            0 <= i < old(positions)@.len() ==> #[trigger] patched_at(
                old(positions)@,
                final(positions)@,
                moves@,
                placed@,
                moves@.len() as int,
                i,
            ),
{
    let ghost was = positions@;
    let mut x: usize = 0;
    while x < moves.len()
        invariant
            x <= moves@.len(),
            moves@.len() == placed@.len(),
            was == old(positions)@,
            positions@.len() == was.len(),
            extent::packed(positions@).len() <= extent::packed(was).len() + 2 * x,
            forall|y: int| 0 <= y < moves@.len() ==> is_listed(#[trigger] moves@[y], was),
            forall|i: int|
                0 <= i < was.len() ==> #[trigger] patched_at(
                    was,
                    positions@,
                    moves@,
                    placed@,
                    x as int,
                    i,
                ),
        decreases moves@.len() - x,
    {
        let ghost before = positions@;
        assert(is_listed(moves@[x as int], was));
        let n: usize = positions.len();
        assert(moves@[x as int].1 < n);
        let at: usize = moves[x].1 as usize;
        assert(at == moves@[x as int].1);
        positions.set(at, placed[x]);
        proof {
            extent::lemma_packed_update(before, at as int, placed@[x as int]);
            assert forall|i: int| 0 <= i < was.len() implies #[trigger] patched_at(
                was,
                positions@,
                moves@,
                placed@,
                x + 1,
                i,
            ) by {
                assert(patched_at(was, before, moves@, placed@, x as int, i));
                if i == at {
                    assert(moves@[x as int].1 == i);
                } else if before[i] == was[i] && (forall|y: int|
                    0 <= y < x ==> (#[trigger] moves@[y]).1 != i) {
                    assert forall|y: int| 0 <= y < x + 1 implies (#[trigger] moves@[y]).1 != i by {}
                } else {
                    let y = choose|y: int|
                        0 <= y < x && (#[trigger] moves@[y]).1 == i && before[i] == placed@[y];
                    assert(moves@[y].1 == i);
                }
            }
        }
        x = x + 1;
    }
}

/// Reads the blocks of some furrows.
pub(crate) fn read_blocks<A: BlockDev, B: BlockDev>(
    mirror: &mut Mirror<A, B>,
    tract: &Tract,
    moves: &Vec<(u64, u64)>,
) -> (r: Result<Vec<Block>>)
    requires
        tract.base + tract.len <= u64::MAX,
    ensures
        hamt::untouched(final(mirror), old(mirror)),
        r matches Ok(bs) ==> bs@.len() == moves@.len() && (forall|i: int|
            0 <= i < moves@.len() ==> (#[trigger] moves@[i]).0 < tract.len && bs@[i]@ == tract.on(
                old(mirror).disk(),
            )[moves@[i].0 as int]),
        r matches Err(e) ==> crate::block::device_error(e@),
        hamt::sure_of(old(mirror), tract) && (forall|i: int|
            0 <= i < moves@.len() ==> (#[trigger] moves@[i]).0 < tract.len) ==> r is Ok,
{
    let mut out: Vec<Block> = Vec::new();
    let mut i: usize = 0;
    while i < moves.len()
        invariant
            i <= moves@.len(),
            tract.base + tract.len <= u64::MAX,
            hamt::untouched(mirror, old(mirror)),
            out@.len() == i,
            forall|j: int|
                0 <= j < i ==> (#[trigger] moves@[j]).0 < tract.len && out@[j]@ == tract.on(
                    old(mirror).disk(),
                )[moves@[j].0 as int],
        decreases moves@.len() - i,
    {
        let mut b = zero_block();
        tract.read(mirror, moves[i].0, &mut b)?;
        out.push(b);
        i = i + 1;
    }
    Ok(out)
}

}
