//! Runs of furrows: how positions become (start, count) runs and back, and how a value is cut.
use vstd::prelude::*;
use vstd::string::*;
use crate::block::{sliced, Block};
use crate::doc;
use crate::doc::{encode_furrow, DocView};
use crate::error;
use crate::error::{corrupt_err, Error, ErrorView, Result};
use crate::text;
use crate::text::{push_dec, push_dec_wide};

verus! {

/// The number of furrows a value of `size` bytes takes.
pub open spec fn furrow_count(size: nat) -> nat {
    (size + 3926) / 3927
}

/// The number of positions in some runs.
pub open spec fn run_total(runs: Seq<(u64, u64)>) -> nat
    decreases runs.len(),
{
    if runs.len() == 0 {
        0
    } else {
        run_total(runs.drop_last()) + runs.last().1 as nat
    }
}

/// The positions that some runs spell out, in order.
pub open spec fn spelled(runs: Seq<(u64, u64)>) -> Seq<int>
    decreases runs.len(),
{
    if runs.len() == 0 {
        Seq::<int>::empty()
    } else {
        spelled(runs.drop_last()) + Seq::new(
            runs.last().1 as nat,
            |j: int| runs.last().0 + j,
        )
    }
}

/// Whether every run ends at an address.
pub open spec fn addressable(runs: Seq<(u64, u64)>) -> bool {
    forall|i: int|
        0 <= i < runs.len() ==> (#[trigger] runs[i]).1 == 0 || runs[i].0 + runs[i].1 - 1
            <= u64::MAX
}

/// The furrow positions of a value of `size` bytes in some runs.
pub open spec fn expanded(runs: Seq<(u64, u64)>, size: u64) -> core::result::Result<
    Seq<u64>,
    ErrorView,
> {
    if run_total(runs) != furrow_count(size as nat) {
        Err(
            ErrorView::Corrupt(
                "extent run total "@ + text::dec(run_total(runs)) + " != furrow count "@
                    + text::dec(furrow_count(size as nat)),
            ),
        )
    } else if !addressable(runs) {
        Err(error::corrupt("extent run beyond the address space"))
    } else {
        Ok(Seq::new(spelled(runs).len(), |i: int| spelled(runs)[i] as u64))
    }
}

/// Positions as runs: a position that follows the one before it joins its run.
pub open spec fn packed(ps: Seq<u64>) -> Seq<(u64, u64)>
    decreases ps.len(),
{
    if ps.len() == 0 {
        Seq::<(u64, u64)>::empty()
    } else {
        let r = packed(ps.drop_last());
        if r.len() > 0 && r.last().0 + r.last().1 == ps.last() {
            r.drop_last().push((r.last().0, (r.last().1 + 1) as u64))
        } else {
            r.push((ps.last(), 1))
        }
    }
}

/// The positions as integers.
pub open spec fn widened(ps: Seq<u64>) -> Seq<int> {
    Seq::new(ps.len(), |i: int| ps[i] as int)
}

proof fn lemma_spelled_len(runs: Seq<(u64, u64)>)
    ensures
        spelled(runs).len() == run_total(runs),
    decreases runs.len(),
{
    if runs.len() > 0 {
        lemma_spelled_len(runs.drop_last());
    }
}

/// Positions spelled out by addressable runs are addresses.
proof fn lemma_spelled_range(runs: Seq<(u64, u64)>)
    requires
        addressable(runs),
    ensures
        forall|i: int| 0 <= i < spelled(runs).len() ==> 0 <= #[trigger] spelled(runs)[i] <= u64::MAX,
    decreases runs.len(),
{
    if runs.len() > 0 {
        let init = runs.drop_last();
        assert(addressable(init)) by {
            assert forall|i: int| 0 <= i < init.len() implies (#[trigger] init[i]).1 == 0
                || init[i].0 + init[i].1 - 1 <= u64::MAX by {
                assert(init[i] == runs[i]);
            }
        }
        lemma_spelled_range(init);
        assert(runs.last() == runs[runs.len() - 1]);
        assert forall|i: int| 0 <= i < spelled(runs).len() implies 0 <= #[trigger] spelled(runs)[i]
            <= u64::MAX by {
            if i < spelled(init).len() {
                assert(spelled(runs)[i] == spelled(init)[i]);
            }
        }
    }
}

proof fn lemma_packed(ps: Seq<u64>)
    requires
        ps.len() <= u64::MAX,
    ensures
        spelled(packed(ps)) =~= widened(ps),
        run_total(packed(ps)) == ps.len(),
        addressable(packed(ps)),
        packed(ps).len() <= ps.len(),
        ps.len() > 0 ==> packed(ps).len() > 0 && packed(ps).last().1 > 0 && packed(ps).last().0
            + packed(ps).last().1 - 1 == ps.last(),
        forall|i: int| 0 <= i < packed(ps).len() ==> (#[trigger] packed(ps)[i]).1 <= ps.len(),
    decreases ps.len(),
{
    if ps.len() > 0 {
        let init = ps.drop_last();
        lemma_packed(init);
        let r = packed(init);
        let q = packed(ps);
        lemma_spelled_len(r);
        if r.len() > 0 && r.last().0 + r.last().1 == ps.last() {
            assert(r.last() == r[r.len() - 1]);
            assert(q.drop_last() =~= r.drop_last());
            assert(spelled(q) =~= spelled(r).push(ps.last() as int));
            assert(widened(ps) =~= widened(init).push(ps.last() as int));
            assert forall|i: int| 0 <= i < q.len() implies (#[trigger] q[i]).1 == 0 || q[i].0
                + q[i].1 - 1 <= u64::MAX by {
                if i < r.len() - 1 {
                    assert(q[i] == r[i]);
                }
            }
            assert forall|i: int| 0 <= i < q.len() implies (#[trigger] q[i]).1 <= ps.len() by {
                if i < r.len() - 1 {
                    assert(q[i] == r[i]);
                }
            }
        } else {
            assert(q.drop_last() =~= r);
            assert(spelled(q) =~= spelled(r).push(ps.last() as int));
            assert(widened(ps) =~= widened(init).push(ps.last() as int));
            assert forall|i: int| 0 <= i < q.len() implies (#[trigger] q[i]).1 == 0 || q[i].0
                + q[i].1 - 1 <= u64::MAX by {
                if i < r.len() {
                    assert(q[i] == r[i]);
                }
            }
            assert forall|i: int| 0 <= i < q.len() implies (#[trigger] q[i]).1 <= ps.len() by {
                if i < r.len() {
                    assert(q[i] == r[i]);
                }
            }
        }
    }
}

/// Law: positions packed into runs are spelled out again as they were.
pub proof fn law_packed_positions_expand_back(ps: Seq<u64>, size: u64)
    requires
        ps.len() == furrow_count(size as nat),
    ensures
        expanded(packed(ps), size) == Ok::<Seq<u64>, ErrorView>(ps),
{
    lemma_packed(ps);
    lemma_spelled_len(packed(ps));
    let s = spelled(packed(ps));
    assert(Seq::new(s.len(), |i: int| s[i] as u64) =~= ps) by {
        assert forall|i: int| 0 <= i < ps.len() implies s[i] as u64 == ps[i] by {
            assert(s[i] == widened(ps)[i]);
        }
    }
}

/// The positions of a value are as many as its furrows.
pub proof fn lemma_expanded_len(runs: Seq<(u64, u64)>, size: u64)
    ensures
        expanded(runs, size) matches Ok(ps) ==> ps.len() == furrow_count(size as nat),
{
    lemma_spelled_len(runs);
}

/// The furrow position of every index of a value, in order.
pub fn expand_runs(runs: &Vec<(u64, u64)>, size: u64) -> (r: Result<Vec<u64>>)
    ensures
        match r {
            Ok(v) => expanded(runs@, size) == Ok::<Seq<u64>, ErrorView>(v@),
            Err(e) => expanded(runs@, size) == Err::<Seq<u64>, ErrorView>(e@),
        },
{
    let expect: u64 = if size == 0 {
        0
    } else {
        (size - 1) / 3927 + 1
    };
    assert(expect == furrow_count(size as nat));
    let mut total: u128 = 0;
    let mut i: usize = 0;
    assert(runs@.take(0) =~= Seq::<(u64, u64)>::empty());
    while i < runs.len()
        invariant
            i <= runs@.len(),
            total == run_total(runs@.take(i as int)),
            total <= i * 0xffff_ffff_ffff_ffff,
        decreases runs@.len() - i,
    {
        assert(runs@.take(i + 1).drop_last() =~= runs@.take(i as int));
        total = total + runs[i].1 as u128;
        i = i + 1;
    }
    assert(runs@.take(i as int) =~= runs@);
    if total != expect as u128 {
        let mut s = "extent run total ".to_owned();
        push_dec_wide(&mut s, total);
        s.append(" != furrow count ");
        push_dec(&mut s, expect);
        return Err(Error::Corrupt(s));
    }
    let mut k: usize = 0;
    while k < runs.len()
        invariant
            k <= runs@.len(),
            expanded(runs@, size) is Ok || !addressable(runs@),
            run_total(runs@) == furrow_count(size as nat),
            forall|j: int|
                0 <= j < k ==> (#[trigger] runs@[j]).1 == 0 || runs@[j].0 + runs@[j].1 - 1
                    <= u64::MAX,
        decreases runs@.len() - k,
    {
        let run: (u64, u64) = runs[k];
        if run.1 > 0 && run.0 > u64::MAX - (run.1 - 1) {
            assert(!addressable(runs@));
            return Err(corrupt_err("extent run beyond the address space"));
        }
        k = k + 1;
    }
    let mut out: Vec<u64> = Vec::new();
    let mut a: usize = 0;
    proof {
        assert(addressable(runs@));
        lemma_spelled_range(runs@);
    }
    while a < runs.len()
        invariant
            a <= runs@.len(),
            addressable(runs@),
            widened(out@) == spelled(runs@.take(a as int)),
        decreases runs@.len() - a,
    {
        let run: (u64, u64) = runs[a];
        let ghost before = out@;
        assert(runs@.take(a + 1).drop_last() =~= runs@.take(a as int));
        assert(runs@[a as int] == run);
        let mut j: u64 = 0;
        while j < run.1
            invariant
                j <= run.1,
                run.1 == 0 || run.0 + run.1 - 1 <= u64::MAX,
                widened(out@) == widened(before) + Seq::new(j as nat, |x: int| run.0 + x),
            decreases run.1 - j,
        {
            let ghost was = widened(out@);
            out.push(run.0 + j);
            j = j + 1;
            assert(widened(out@) =~= was.push(run.0 + (j - 1)));
            assert(widened(out@) =~= widened(before) + Seq::new(j as nat, |x: int| run.0 + x));
        }
        a = a + 1;
        assert(widened(out@) =~= spelled(runs@.take(a as int)));
    }
    assert(runs@.take(a as int) =~= runs@);
    proof {
        let s = spelled(runs@);
        assert(Seq::new(s.len(), |i: int| s[i] as u64) =~= out@) by {
            assert forall|i: int| 0 <= i < out@.len() implies s[i] as u64 == out@[i] by {
                assert(s[i] == widened(out@)[i]);
            }
        }
    }
    Ok(out)
}

/// How many positions of a list do not follow the one before.
spec fn breaks(s: Seq<u64>) -> nat
    decreases s.len(),
{
    if s.len() == 0 {
        0
    } else {
        breaks(s.drop_last()) + (if s.len() >= 2 && s[s.len() - 2] + 1 == s[s.len() - 1] {
            0nat
        } else {
            1nat
        })
    }
}

proof fn lemma_packed_breaks(s: Seq<u64>)
    requires
        s.len() <= u64::MAX,
    ensures
        packed(s).len() == breaks(s),
        s.len() > 0 ==> packed(s).len() > 0 && packed(s).last().0 + packed(s).last().1 == s.last()
            + 1 && packed(s).last().1 <= s.len(),
    decreases s.len(),
{
    if s.len() > 0 {
        lemma_packed_breaks(s.drop_last());
    }
}

proof fn lemma_breaks_update(s: Seq<u64>, i: int, v: u64)
    requires
        0 <= i < s.len(),
    ensures
        breaks(s.update(i, v)) <= breaks(s) + (if i == s.len() - 1 {
            1int
        } else {
            2
        }),
    decreases s.len(),
{
    let u = s.update(i, v);
    if i == s.len() - 1 {
        assert(u.drop_last() =~= s.drop_last());
    } else {
        assert(u.drop_last() =~= s.drop_last().update(i, v));
        lemma_breaks_update(s.drop_last(), i, v);
    }
}

/// A list of positions in which one is another has at most two runs more.
pub proof fn lemma_packed_update(s: Seq<u64>, i: int, v: u64)
    requires
        0 <= i < s.len() <= u64::MAX,
    ensures
        packed(s.update(i, v)).len() <= packed(s).len() + 2,
{
    lemma_breaks_update(s, i, v);
    lemma_packed_breaks(s);
    lemma_packed_breaks(s.update(i, v));
}

/// Compresses a list of positions to (start, count) runs.
pub fn compress_runs(positions: &Vec<u64>) -> (runs: Vec<(u64, u64)>)
    ensures
        runs@ == packed(positions@),
{
    let mut runs: Vec<(u64, u64)> = Vec::new();
    let mut i: usize = 0;
    assert(positions@.take(0) =~= Seq::<u64>::empty());
    while i < positions.len()
        invariant
            i <= positions@.len(),
            runs@ == packed(positions@.take(i as int)),
        decreases positions@.len() - i,
    {
        let ghost sofar = positions@.take(i as int);
        let ghost next = positions@.take(i + 1);
        assert(next.drop_last() =~= sofar);
        proof {
            lemma_packed(sofar);
        }
        let p: u64 = positions[i];
        let n: usize = runs.len();
        if n > 0 {
            let last: (u64, u64) = runs[n - 1];
            assert(runs@.last() == last);
            assert(last.1 <= sofar.len()) by {
                assert(packed(sofar)[n - 1] == last);
            }
            if p > 0 && last.0 + (last.1 - 1) == p - 1 {
                runs.set(n - 1, (last.0, last.1 + 1));
                assert(runs@ =~= packed(next));
            } else {
                runs.push((p, 1));
                assert(runs@ =~= packed(next));
            }
        } else {
            runs.push((p, 1));
        }
        i = i + 1;
    }
    assert(positions@.take(i as int) =~= positions@);
    runs
}

/// The `i`-th piece of a value cut for furrows.
pub open spec fn piece(value: Seq<u8>, i: int) -> Seq<u8> {
    value.subrange(
        i * 3927,
        if (i + 1) * 3927 <= value.len() {
            (i + 1) * 3927
        } else {
            value.len() as int
        },
    )
}

/// The furrow that carries the `i`-th piece of a key's value.
pub open spec fn furrow_of(key: Seq<u8>, value: Seq<u8>, i: int) -> DocView {
    DocView::Furrow { key, index: i as u64, payload: piece(value, i) }
}

/// The furrow blocks of a key's value.
pub(crate) fn cut_value(key: &[u8; 32], value: &[u8]) -> (r: Vec<Block>)
    ensures
        r@.len() == furrow_count(value@.len()),
        forall|i: int|
            0 <= i < r@.len() ==> (#[trigger] r@[i])@ == doc::doc_block(
                furrow_of(key@, value@, i),
            ) && doc::doc_fits(furrow_of(key@, value@, i)),
{
    let mut r: Vec<Block> = Vec::new();
    let mut at: usize = 0;
    let mut i: u64 = 0;
    while at < value.len()
        invariant
            at <= value@.len(),
            at < value@.len() ==> at == i * 3927,
            at == value@.len() ==> i == furrow_count(value@.len()),
            i <= at,
            r@.len() == i,
            forall|j: int|
                0 <= j < i ==> (#[trigger] r@[j])@ == doc::doc_block(furrow_of(key@, value@, j))
                    && doc::doc_fits(furrow_of(key@, value@, j)),
        decreases value@.len() - at,
    {
        let end: usize = if value.len() - at > 3927 {
            at + 3927
        } else {
            value.len()
        };
        let part = sliced(value, at, end);
        assert(part@ =~= piece(value@, i as int));
        r.push(encode_furrow(key, i, part.as_slice()));
        at = end;
        i = i + 1;
    }
    r
}

/// Law: a value takes as few furrows as hold it.
pub proof fn law_furrows_are_as_few_as_hold_the_value(n: nat)
    ensures
        furrow_count(n) * 3927 >= n,
        n > 0 ==> (furrow_count(n) - 1) * 3927 < n,
        n == 0 ==> furrow_count(n) == 0,
{
}

/// Law: the pieces of a value are full but for the last, and hold its bytes in order.
pub proof fn law_pieces_make_up_the_value(value: Seq<u8>, i: int)
    requires
        0 <= i < furrow_count(value.len()),
    ensures
        i + 1 < furrow_count(value.len()) ==> piece(value, i).len() == 3927,
        i + 1 == furrow_count(value.len()) ==> piece(value, i).len() == value.len() - i * 3927,
        forall|j: int|
            0 <= j < piece(value, i).len() ==> #[trigger] piece(value, i)[j] == value[i * 3927 + j],
{
}

/// Law: runs are as long as they can be. None is empty, and none goes on where the one before it ends.
pub proof fn law_runs_do_not_touch(ps: Seq<u64>)
    requires
        ps.len() <= u64::MAX,
    ensures
        forall|i: int| 0 <= i < packed(ps).len() ==> 0 < (#[trigger] packed(ps)[i]).1 <= ps.len(),
        forall|i: int|
            0 < i < packed(ps).len() ==> packed(ps)[i - 1].0 + packed(ps)[i - 1].1
                != (#[trigger] packed(ps)[i]).0,
        ps.len() > 0 ==> packed(ps).len() > 0 && packed(ps).last().0 + packed(ps).last().1
            == ps.last() + 1,
    decreases ps.len(),
{
    if ps.len() > 0 {
        let r = packed(ps.drop_last());
        law_runs_do_not_touch(ps.drop_last());
        let q = packed(ps);
        assert forall|i: int| 0 < i < q.len() implies q[i - 1].0 + q[i - 1].1
            != (#[trigger] q[i]).0 by {
            if i < r.len() {
                assert(q[i - 1] == r[i - 1]);
                assert(q[i].0 == r[i].0);
            }
        }
        assert forall|i: int| 0 <= i < q.len() implies 0 < (#[trigger] q[i]).1 <= ps.len() by {
            if i < r.len() - 1 {
                assert(q[i] == r[i]);
            } else if i < r.len() {
                assert(r[i] == r.last());
            }
        }
    }
}

/// Law: runs are spelled out exactly where they have as many positions as the value has furrows, all of them
/// addresses; and then run after run, position after position.
pub proof fn law_runs_are_spelled_out_in_order(runs: Seq<(u64, u64)>, size: u64)
    ensures
        expanded(runs, size) is Ok <==> run_total(runs) == furrow_count(size as nat) && forall|i: int|
            0 <= i < runs.len() ==> (#[trigger] runs[i]).1 == 0 || runs[i].0 + runs[i].1 - 1
                <= u64::MAX,
        expanded(runs, size) matches Ok(ps) ==> {
            &&& ps.len() == furrow_count(size as nat)
            &&& forall|i: int, j: int|
                0 <= i < runs.len() && 0 <= j < runs[i].1 ==> ps[#[trigger] (run_total(runs.take(i))
                    + j)] == runs[i].0 + j
        },
{
    lemma_spelled_len(runs);
    if let Ok(ps) = expanded(runs, size) {
        lemma_spelled_range(runs);
        assert forall|i: int, j: int| 0 <= i < runs.len() && 0 <= j < runs[i].1 implies ps[
            #[trigger] (run_total(runs.take(i)) + j)] == runs[i].0 + j by {
            lemma_spelled_at(runs, i, j);
        }
    }
}

proof fn lemma_spelled_at(runs: Seq<(u64, u64)>, i: int, j: int)
    requires
        0 <= i < runs.len(),
        0 <= j < runs[i].1,
    ensures
        run_total(runs.take(i)) + j < spelled(runs).len(),
        spelled(runs)[run_total(runs.take(i)) + j] == runs[i].0 + j,
    decreases runs.len(),
{
    let less = runs.drop_last();
    lemma_spelled_len(less);
    if i < less.len() {
        lemma_spelled_at(less, i, j);
        assert(less.take(i) =~= runs.take(i));
    } else {
        assert(runs.take(i) =~= less);
    }
}

}
