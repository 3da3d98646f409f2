//! Laying a value down on the tract: one leaf, or furrows and the leaf that lists them.
use vstd::prelude::*;
use vstd::arithmetic::div_mod::*;
use crate::block;
use crate::block::{Block, BlockDev};
use crate::doc;
use crate::doc::{encode_direct, encode_extent, encode_lone, lone_capacity, Child, ChildView, DocView};
use crate::edit;
use crate::error::{corrupt_err, ErrorView, Result};
use crate::extent;
use crate::extent::{compress_runs, cut_value};
use crate::hamt;
use crate::mirror::Mirror;
use crate::seal;
use crate::tract;
use crate::tract::{sealed_hp, Tract};
use crate::trie;

verus! {

/// Whether a leaf of `key` with this value stands on the tract, all of it within the totals `from`
/// up to `mid`, and the marks name its blocks.
pub open spec fn stored(
    t: Seq<Seq<u8>>,
    c: ChildView,
    key: Seq<u8>,
    value: Seq<u8>,
    from: int,
    mid: int,
    marks: Seq<(u64, Seq<u8>)>,
) -> bool {
    let end = edit::ending(t, c, key, 0);
    &&& edit::leaf_stands(t, c, key)
    &&& end.found == Ok::<Option<Seq<u8>>, ErrorView>(Some(value))
    &&& end.whole
    &&& forall|p: u64| #[trigger] end.reads.contains(p) <==> edit::places(marks).contains(p)
    &&& forall|i: int|
        0 <= i < marks.len() ==> {
            let e = #[trigger] marks[i];
            &&& e.0 < t.len()
            &&& tract::in_strip(e.0 as int, from, mid, t.len() as int)
            &&& seal::hp_of(t[e.0 as int]) == Some(e.1)
        }
}

/// The blocks that a value of `n` bytes takes before its leaf.
pub open spec fn body_blocks(n: nat) -> nat {
    if n <= 3927 {
        0
    } else {
        extent::furrow_count(n)
    }
}

/// Whether a tract refuses a value of `n` bytes, and how: its furrows first, then its leaf.
pub open spec fn value_refusal(t: &Tract, n: nat) -> Option<ErrorView> {
    if body_blocks(n) == 0 {
        t.refusal(1)
    } else {
        listed_refusal(t, body_blocks(n))
    }
}

/// Whether a tract refuses `n` furrows and the leaf that lists them, and how.
pub open spec fn listed_refusal(t: &Tract, n: nat) -> Option<ErrorView> {
    match t.refusal(n) {
        Some(e) => Some(e),
        None => Tract { plow: (t.plow + n) as u64, ..*t }.refusal(1),
    }
}

/// Positions one after the other on a ring make at most two runs.
proof fn lemma_two_runs(ps: Seq<u64>, from: int, len: int)
    requires
        0 <= from,
        0 < len <= u64::MAX,
        ps.len() <= len,
        forall|i: int| 0 <= i < ps.len() ==> #[trigger] ps[i] == (from + i) % len,
    ensures
        extent::packed(ps).len() <= 2,
        ps.len() > 0 ==> ({
            let r = extent::packed(ps);
            let s = from % len;
            &&& s + ps.len() <= len ==> r =~= seq![(s as u64, ps.len() as u64)]
            &&& s + ps.len() > len ==> r =~= seq![
                (s as u64, (len - s) as u64),
                (0u64, (s + ps.len() - len) as u64),
            ]
        }),
    decreases ps.len(),
{
    if ps.len() > 0 {
        let front = ps.drop_last();
        assert forall|i: int| 0 <= i < front.len() implies #[trigger] front[i] == (from + i)
            % len by {
            assert(front[i] == ps[i]);
        }
        lemma_two_runs(front, from, len);
        let n = front.len() as int;
        let s = from % len;
        lemma_mod_bound(from, len);
        assert(ps.last() == (from + n) % len);
        assert((from + n) % len == if s + n < len {
            s + n
        } else {
            s + n - len
        }) by {
            lemma_fundamental_div_mod(from, len);
            let q = from / len;
            if s + n < len {
                assert(from + n == q * len + (s + n)) by (nonlinear_arith)
                    requires
                        from == len * q + s,
                ;
                lemma_fundamental_div_mod_converse(from + n, len, q, s + n);
            } else {
                assert(from + n == (q + 1) * len + (s + n - len)) by (nonlinear_arith)
                    requires
                        from == len * q + s,
                ;
                lemma_fundamental_div_mod_converse(from + n, len, q + 1, s + n - len);
            }
        }
        if n == 0 {
            assert(front =~= Seq::<u64>::empty());
            assert(extent::packed(front) =~= Seq::<(u64, u64)>::empty());
        }
    }
}

/// Furrows that carry the pieces of a value put it together again.
proof fn lemma_pieces_join(t: Seq<Seq<u8>>, key: Seq<u8>, value: Seq<u8>, ps: Seq<u64>, n: nat)
    requires
        n <= ps.len() == extent::furrow_count(value.len()),
        value.len() <= u64::MAX,
        forall|i: int|
            0 <= i < ps.len() ==> (#[trigger] ps[i]) < t.len() && t[ps[i] as int]
                == doc::doc_block(extent::furrow_of(key, value, i)) && doc::doc_fits(
                extent::furrow_of(key, value, i),
            ),
    ensures
        trie::gathered(t, key, ps, n) == Ok::<Seq<u8>, ErrorView>(
            value.take(
                if n * 3927 <= value.len() {
                    (n * 3927) as int
                } else {
                    value.len() as int
                },
            ),
        ),
    decreases n,
{
    if n == 0 {
        assert(value.take(0) =~= Seq::<u8>::empty());
    } else {
        lemma_pieces_join(t, key, value, ps, (n - 1) as nat);
        let i = n - 1;
        assert(ps[i] < t.len());
        doc::law_doc_reads_back(extent::furrow_of(key, value, i));
        let upto = if n * 3927 <= value.len() {
            (n * 3927) as int
        } else {
            value.len() as int
        };
        assert(i * 3927 <= value.len());
        assert(value.take(i * 3927) + extent::piece(value, i) =~= value.take(upto));
        assert(i <= u64::MAX);
    }
}

/// A leaf whose furrows carry the pieces of a value has that value.
proof fn lemma_leaf_reads_back(
    t: Seq<Seq<u8>>,
    key: Seq<u8>,
    value: Seq<u8>,
    ps: Seq<u64>,
    d: DocView,
)
    requires
        ps.len() == extent::furrow_count(value.len()),
        value.len() <= u64::MAX,
        d == (DocView::Extent { key, size: value.len() as u64, runs: extent::packed(ps) }) || d == (
        DocView::Direct { key, size: value.len() as u64, furrows: ps }),
        forall|i: int|
            0 <= i < ps.len() ==> (#[trigger] ps[i]) < t.len() && t[ps[i] as int]
                == doc::doc_block(extent::furrow_of(key, value, i)) && doc::doc_fits(
                extent::furrow_of(key, value, i),
            ),
    ensures
        trie::leaf_value(t, d) == Ok::<Seq<u8>, ErrorView>(value),
        trie::furrow_set(d) == ps.to_set(),
{
    lemma_pieces_join(t, key, value, ps, ps.len());
    extent::law_packed_positions_expand_back(ps, value.len() as u64);
    assert(value.take(value.len() as int) =~= value);
    assert(ps.len() * 3927 >= value.len());
}

/// Marks for blocks that were laid down, with the hashes they are sealed with.
pub(crate) fn mark_blocks(placed: &Vec<u64>, blocks: &Vec<Block>) -> (r: Vec<(u64, [u8; 32])>)
    requires
        placed@.len() == blocks@.len(),
        forall|i: int| 0 <= i < blocks@.len() ==> seal::hp_of((#[trigger] blocks@[i])@) is Some,
    ensures
        r@.len() == placed@.len(),
        forall|i: int|
            0 <= i < r@.len() ==> (#[trigger] r@[i]).0 == placed@[i] && Some(r@[i].1@)
                == seal::hp_of(blocks@[i]@),
{
    let mut r: Vec<(u64, [u8; 32])> = Vec::new();
    let mut i: usize = 0;
    while i < placed.len()
        invariant
            i <= placed@.len(),
            placed@.len() == blocks@.len(),
            forall|j: int|
                0 <= j < blocks@.len() ==> seal::hp_of((#[trigger] blocks@[j])@) is Some,
            r@.len() == i,
            forall|j: int|
                0 <= j < i ==> (#[trigger] r@[j]).0 == placed@[j] && Some(r@[j].1@)
                    == seal::hp_of(blocks@[j]@),
        decreases placed@.len() - i,
    {
        assert(seal::hp_of(blocks@[i as int]@) is Some);
        if let Some(h) = sealed_hp(&blocks[i]) {
            r.push((placed[i], h));
        }
        i = i + 1;
    }
    r
}

/// Appends one block that is sealed. Returns where it stands, and its hash.
pub(crate) fn append_one<A: BlockDev, B: BlockDev>(
    mirror: &mut Mirror<A, B>,
    tract: &mut Tract,
    b: &Block,
) -> (r: Result<(u64, [u8; 32])>)
    requires
        old(tract).wf(),
        old(mirror).has_device(),
        seal::hp_of(b@) is Some,
    ensures
        final(tract).plowed(old(tract)),
        final(mirror).carries_on(old(mirror)),
        tract::kept_around(
            old(mirror).disk(),
            final(mirror).disk(),
            old(tract).base as int,
            old(tract).len as int,
        ),
        tract::kept_outside(
            old(tract).on(old(mirror).disk()),
            old(tract).on(final(mirror).disk()),
            old(tract).plow as int,
            old(tract).reach(),
        ),
        match old(tract).refusal(1) {
            Some(e) => r matches Err(x) && x@ == e && *final(tract) == *old(tract)
                && *final(mirror) == *old(mirror),
            None => match r {
                Ok((lba, h)) => {
                    let t = old(tract).on(final(mirror).disk());
                    &&& final(tract).plow == old(tract).plow + 1
                    &&& lba == old(tract).plow % old(tract).len
                    &&& seal::hp_of(b@) == Some(h@)
                    &&& t[lba as int] == b@
                    &&& tract::in_strip(
                        lba as int,
                        old(tract).plow as int,
                        old(tract).plow + 1,
                        old(tract).len as int,
                    )
                    &&& tract::kept_outside(
                        old(tract).on(old(mirror).disk()),
                        t,
                        old(tract).plow as int,
                        old(tract).plow + 1,
                    )
                },
                Err(e) => block::device_error(e@) && !hamt::sure_of(old(mirror), old(tract))
                    && *final(tract) == *old(tract),
            },
        },
{
    let blocks: [Block; 1] = [*b];
    let ghost bs = tract::blocks_view(blocks@);
    let placed = match tract.append(mirror, blocks.as_slice()) {
        Ok(p) => p,
        Err(e) => return Err(e),
    };
    proof {
        let len = old(tract).len as int;
        let plow = old(tract).plow as int;
        lemma_mod_bound(plow, len);
        tract::lemma_strip_offset(plow, 0, len);
        let p = plow % len;
        let t = old(tract).on(mirror.disk());
        assert(placed@[0] == (plow + 0) % len);
        assert(bs.len() == 1 && bs[0] == b@);
        assert(t[p] == b@);
        assert forall|q: int|
            0 <= q < len && !tract::in_strip(q, plow, plow + 1, len) implies #[trigger] t[q]
            == old(tract).on(old(mirror).disk())[q] by {}
    }
    match sealed_hp(b) {
        Some(h) => Ok((placed[0], h)),
        None => Err(corrupt_err("block was not sealed")),
    }
}

/// Whether a leaf that lists the furrows at `ps` is written in the older layout.
pub open spec fn listing(key: Seq<u8>, size: u64, ps: Seq<u64>, direct: bool) -> DocView {
    if direct {
        DocView::Direct { key, size, furrows: ps }
    } else {
        DocView::Extent { key, size, runs: extent::packed(ps) }
    }
}

/// Lays furrows down, then the leaf that lists them: the leaf references their positions, so they
/// must land first.
#[verifier::rlimit(40)]
pub(crate) fn place_furrows<A: BlockDev, B: BlockDev>(
    mirror: &mut Mirror<A, B>,
    tract: &mut Tract,
    key: &[u8; 32],
    value: &[u8],
    direct: bool,
) -> (r: Result<(Child, Vec<(u64, [u8; 32])>)>)
    requires
        old(tract).wf(),
        old(mirror).has_device(),
        direct ==> value@.len() <= 250 * 3927,
    ensures
        final(tract).plowed(old(tract)),
        final(mirror).carries_on(old(mirror)),
        tract::kept_around(
            old(mirror).disk(),
            final(mirror).disk(),
            old(tract).base as int,
            old(tract).len as int,
        ),
        tract::kept_outside(
            old(tract).on(old(mirror).disk()),
            old(tract).on(final(mirror).disk()),
            old(tract).plow as int,
            old(tract).reach(),
        ),
        match r {
            Ok((c, marks)) => {
                &&& final(tract).plow == old(tract).plow + extent::furrow_count(value@.len()) + 1
                &&& stored(
                    old(tract).on(final(mirror).disk()),
                    c@,
                    key@,
                    value@,
                    old(tract).plow as int,
                    final(tract).plow as int,
                    hamt::marks_view(marks@),
                )
                &&& tract::kept_outside(
                    old(tract).on(old(mirror).disk()),
                    old(tract).on(final(mirror).disk()),
                    old(tract).plow as int,
                    final(tract).plow as int,
                )
            },
            Err(e) => match listed_refusal(old(tract), extent::furrow_count(value@.len())) {
                Some(x) => e@ == x && *final(tract) == *old(tract) && *final(mirror) == *old(mirror),
                None => block::device_error(e@) && !hamt::sure_of(old(mirror), old(tract)),
            },
        },
        listed_refusal(old(tract), extent::furrow_count(value@.len())) is Some ==> r is Err,
{
    let ghost d0 = mirror.disk();
    let ghost t0 = tract.on(d0);
    let ghost plow = tract.plow as int;
    let ghost len = tract.len as int;
    let ghost before = *tract;
    let ghost before_mirror = *mirror;
    let payload = cut_value(key, value);
    let ghost nf = payload@.len() as int;
    proof {
        assert forall|i: int| 0 <= i < payload@.len() implies seal::hp_of(
            (#[trigger] payload@[i])@,
        ) is Some by {
            doc::law_doc_reads_back(extent::furrow_of(key@, value@, i));
        }
    }
    // Room for the leaf too, before a block is written.
    let n: u64 = payload.len() as u64;
    if let Some(e) = tract.refuse(n) {
        return Err(e);
    }
    let ahead = Tract { plow: tract.plow + n, ..*tract };
    if let Some(e) = ahead.refuse(1) {
        return Err(e);
    }
    let placed = match tract.append(mirror, payload.as_slice()) {
        Ok(p) => p,
        Err(e) => return Err(e),
    };
    let mut marks = mark_blocks(&placed, &payload);
    let ghost t1 = before.on(mirror.disk());
    proof {
        lemma_two_runs(placed@, plow, len);
    }
    let ghost d = listing(key@, value@.len() as u64, placed@, direct);
    let leaf: Block = if direct {
        encode_direct(key, value.len() as u64, &placed)
    } else {
        let runs = compress_runs(&placed);
        match encode_extent(key, value.len() as u64, &runs) {
            Ok(b) => b,
            Err(e) => return Err(e),
        }
    };
    proof {
        doc::law_doc_reads_back(d);
    }
    assert(leaf@ == doc::doc_block(d));
    let ghost mid = *tract;
    let (lba, h) = match append_one(mirror, tract, &leaf) {
        Ok(x) => x,
        Err(e) => {
            proof {
                let t2 = before.on(mirror.disk());
                assert forall|q: int|
                    0 <= q < len && !tract::in_strip(q, plow, before.reach(), len) implies #[trigger] t2[q]
                    == t0[q] by {
                    if tract::in_strip(q, mid.plow as int, mid.reach(), len) {
                        tract::lemma_strip_tail(q, plow, mid.plow as int, mid.reach(), len);
                    }
                    assert(t1[q] == t0[q]);
                }
            }
            return Err(e);
        },
    };
    let ghost fm = hamt::marks_view(marks@);
    marks.push((lba, h));
    let c = Child::Committed { hash: h, lba };
    proof {
        let t2 = before.on(mirror.disk());
        let ms = hamt::marks_view(marks@);
        let end = tract.plow as int;
        assert(ms =~= fm.push((lba, h@)));
        assert forall|q: int|
            0 <= q < len && !tract::in_strip(q, plow, end, len) implies #[trigger] t2[q] == t0[q] by {
            if tract::in_strip(q, plow + nf, end, len) {
                tract::lemma_strip_tail(q, plow, plow + nf, end, len);
            }
            if tract::in_strip(q, plow, plow + nf, len) {
            }
            assert(t1[q] == t0[q]);
        }
        assert forall|i: int| 0 <= i < nf implies (#[trigger] placed@[i]) < t2.len() && t2[placed@[i] as int]
            == payload@[i]@ && tract::in_strip(placed@[i] as int, plow, end, len) by {
            tract::lemma_strip_offset(plow, i, len);
            let p = placed@[i] as int;
            assert(tract::in_strip(p, plow, plow + nf, len));
            tract::lemma_strip_apart(p, plow, plow + nf, end, len);
            assert(t1[p] == tract::blocks_view(payload@)[i]);
            assert(t2[p] == t1[p]);
        }
        tract::lemma_strip_tail(lba as int, plow, plow + nf, end, len);
        lemma_leaf_reads_back(t2, key@, value@, placed@, d);
        assert(trie::doc_at(t2, lba, h@) == Ok::<Option<DocView>, ErrorView>(Some(d)));
        let e = edit::ending(t2, c@, key@, 0);
        assert forall|p: u64| #[trigger] e.reads.contains(p) implies edit::places(ms).contains(p) by {
            if p == lba {
                assert(ms[nf].0 == p);
            } else {
                let i = choose|i: int| 0 <= i < placed@.len() && placed@[i] == p;
                assert(ms[i].0 == p);
            }
        }
        assert forall|i: int| 0 <= i < ms.len() implies ({
            let x = #[trigger] ms[i];
            &&& x.0 < t2.len()
            &&& tract::in_strip(x.0 as int, plow, end, len)
            &&& seal::hp_of(t2[x.0 as int]) == Some(x.1)
        }) by {
            if i < nf {
                assert(placed@[i] < t2.len());
                assert(marks@[i].0 == placed@[i]);
            }
        }
    }
    Ok((c, marks))
}

/// Lays a value down: one leaf where it fits, furrows and a leaf where it does not.
pub(crate) fn place_value<A: BlockDev, B: BlockDev>(
    mirror: &mut Mirror<A, B>,
    tract: &mut Tract,
    key: &[u8; 32],
    value: &[u8],
) -> (r: Result<(Child, Vec<(u64, [u8; 32])>)>)
    requires
        old(tract).wf(),
        old(mirror).has_device(),
    ensures
        final(tract).plowed(old(tract)),
        final(mirror).carries_on(old(mirror)),
        tract::kept_around(
            old(mirror).disk(),
            final(mirror).disk(),
            old(tract).base as int,
            old(tract).len as int,
        ),
        tract::kept_outside(
            old(tract).on(old(mirror).disk()),
            old(tract).on(final(mirror).disk()),
            old(tract).plow as int,
            old(tract).reach(),
        ),
        match r {
            Ok((c, marks)) => {
                &&& final(tract).plow == old(tract).plow + body_blocks(value@.len()) + 1
                &&& stored(
                    old(tract).on(final(mirror).disk()),
                    c@,
                    key@,
                    value@,
                    old(tract).plow as int,
                    final(tract).plow as int,
                    hamt::marks_view(marks@),
                )
                &&& tract::kept_outside(
                    old(tract).on(old(mirror).disk()),
                    old(tract).on(final(mirror).disk()),
                    old(tract).plow as int,
                    final(tract).plow as int,
                )
            },
            Err(e) => {
                ||| value_refusal(old(tract), value@.len()) == Some(e@)
                ||| block::device_error(e@) && !hamt::sure_of(old(mirror), old(tract))
            },
        },
        value_refusal(old(tract), value@.len()) matches Some(x) ==> (r matches Err(e) && e@ == x)
            && *final(tract) == *old(tract) && *final(mirror) == *old(mirror),
{
    if value.len() > lone_capacity() {
        return place_furrows(mirror, tract, key, value, false);
    }
    let leaf = encode_lone(key, value);
    let ghost d = DocView::Lone { key: key@, value: value@ };
    proof {
        doc::law_doc_reads_back(d);
    }
    let (lba, h) = match append_one(mirror, tract, &leaf) {
        Ok(x) => x,
        Err(e) => return Err(e),
    };
    let mut marks: Vec<(u64, [u8; 32])> = Vec::new();
    marks.push((lba, h));
    let c = Child::Committed { hash: h, lba };
    proof {
        let t = old(tract).on(mirror.disk());
        let ms = hamt::marks_view(marks@);
        assert(trie::doc_at(t, lba, h@) == Ok::<Option<DocView>, ErrorView>(Some(d)));
        let e = edit::ending(t, c@, key@, 0);
        assert forall|p: u64| #[trigger] e.reads.contains(p) implies edit::places(ms).contains(p) by {
            assert(Seq::<u64>::empty().to_set() =~= Set::<u64>::empty());
            assert(p == lba);
            assert(ms[0].0 == p);
        }
    }
    Ok((c, marks))
}

/// Law: a value takes furrows exactly where it is longer than one block holds, and then as few as hold it.
pub proof fn law_long_values_take_furrows(n: nat)
    ensures
        n <= 3927 ==> body_blocks(n) == 0,
        n > 3927 ==> body_blocks(n) * 3927 >= n && (body_blocks(n) - 1) * 3927 < n,
{
    extent::law_furrows_are_as_few_as_hold_the_value(n);
}

/// Law: a value is refused exactly where a tract has no room for its furrows and its leaf, before the fence
/// if there is one.
pub proof fn law_value_is_refused_only_for_want_of_room(t: Tract, n: nat)
    requires
        t.wf(),
        t.plow + body_blocks(n) + 1 <= u64::MAX,
    ensures
        value_refusal(&t, n) is None <==> t.plow + body_blocks(n) + 1 <= t.reap + t.len && (
        t.fence_limit matches Some(f) ==> t.plow + body_blocks(n) + 1 <= f),
        value_refusal(&t, n) matches Some(e) ==> e is TractFull || e is Fenced,
{
}

}
