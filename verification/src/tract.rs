//! The tract: a two-cursor log ring.
//!
//! Two cursors in one monotone domain: the plow (append head) and the reap (cleaning head), with
//! `reap <= plow <= reap + len`. Occupied space `[reap, plow)` mixes live and dead blocks; clean
//! space `[plow, reap + len)` holds no live block. Appends therefore write blindly, and every
//! multi-block value lands as one contiguous run, split at most once by the ring wrap.
//!
//! Cursors are totals since genesis; the wrapped position is `cursor % len`, and the rollback fence
//! is a plain integer comparison. The tract interprets nothing of a block but its seal; what is live
//! is the caller's knowledge.
use vstd::prelude::*;
use vstd::arithmetic::div_mod::*;
use crate::block;
use crate::block::{zero_block, Block, BlockDev};
use crate::error::{Error, ErrorView, Result};
use crate::mirror;
use crate::mirror::{Mirror, Reading};

pub use crate::seal::sealed_hp;

verus! {

/// The caller's knowledge of what is referenced: live exactly where the index maps this address to
/// this hash.
pub trait Liveness {
    /// Whether a block is live. A ghost: an oracle written in plain Rust leaves it as it is here.
    closed spec fn holds(&self, lba: u64, hp: Seq<u8>) -> bool {
        false
    }

    fn is_live(&self, lba: u64, hp: &[u8; 32]) -> (r: bool)
        ensures
            r == self.holds(lba, hp@),
    ;
}

/// A live block that moved during a reap window: the caller must update its index.
#[derive(Debug, Clone, Copy, PartialEq)]
pub struct Reloc {
    pub hp: [u8; 32],
    pub from: u64,
    pub to: u64,
}

/// Two-cursor state for one tract. Pure state: the mirror is borrowed per operation so that the
/// spine ring and the tract can interleave.
pub struct Tract {
    /// Device address where the tract begins.
    pub base: u64,
    /// Tract length in blocks; any number.
    pub len: u64,
    /// Append head: total blocks appended since genesis.
    pub plow: u64,
    /// Cleaning head: total blocks retired since genesis.
    pub reap: u64,
    /// Absolute append budget. None is unfenced.
    pub fence_limit: Option<u64>,
}

/// The blocks of the region `[base, base + len)` of a disk; beyond its end there are none.
pub open spec fn ground(disk: Seq<Seq<u8>>, base: int, len: nat) -> Seq<Seq<u8>> {
    Seq::new(
        len,
        |i: int|
            if base + i < disk.len() {
                disk[base + i]
            } else {
                Seq::<u8>::empty()
            },
    )
}

/// Whether position `p` is that of one of the totals `from` up to `to`, on a ring of `len`.
pub open spec fn in_strip(p: int, from: int, to: int, len: int) -> bool {
    (p - from) % len < to - from
}

/// Whether `now` is `was` with `blocks` laid out one after the other from total `from` on.
pub open spec fn laid(
    was: Seq<Seq<u8>>,
    now: Seq<Seq<u8>>,
    from: int,
    blocks: Seq<Seq<u8>>,
) -> bool {
    &&& now.len() == was.len()
    &&& forall|p: int|
        0 <= p < was.len() ==> #[trigger] now[p] == (if in_strip(
            p,
            from,
            from + blocks.len(),
            was.len() as int,
        ) {
            blocks[(p - from) % (was.len() as int)]
        } else {
            was[p]
        })
}

/// Whether `now` is `was` but for the positions of the totals `from` up to `to`.
pub open spec fn kept_outside(was: Seq<Seq<u8>>, now: Seq<Seq<u8>>, from: int, to: int) -> bool {
    &&& now.len() == was.len()
    &&& forall|p: int|
        0 <= p < was.len() && !in_strip(p, from, to, was.len() as int) ==> #[trigger] now[p]
            == was[p]
}

/// Whether two disks differ at most within `[base, base + len)`.
pub open spec fn kept_around(was: Seq<Seq<u8>>, now: Seq<Seq<u8>>, base: int, len: int) -> bool {
    &&& now.len() == was.len()
    &&& forall|i: int|
        0 <= i < was.len() && !(base <= i < base + len) ==> #[trigger] now[i] == was[i]
}

/// The bytes of some blocks.
pub open spec fn blocks_view(bs: Seq<Block>) -> Seq<Seq<u8>> {
    Seq::new(bs.len(), |i: int| bs[i]@)
}

pub proof fn lemma_strip_offset(from: int, i: int, len: int)
    requires
        0 <= i < len,
    ensures
        ((from + i) % len - from) % len == i,
        0 <= (from + i) % len < len,
{
    lemma_fundamental_div_mod(from + i, len);
    let q = (from + i) / len;
    let m = (from + i) % len;
    assert(m - from == len * (-q) + i) by (nonlinear_arith)
        requires
            from + i == len * q + m,
    ;
    lemma_fundamental_div_mod_converse(m - from, len, -q, i);
    lemma_mod_bound(from + i, len);
}

pub proof fn lemma_strip_position(p: int, from: int, len: int)
    requires
        0 <= p < len,
    ensures
        0 <= (p - from) % len < len,
        (from + (p - from) % len) % len == p,
{
    lemma_mod_bound(p - from, len);
    lemma_fundamental_div_mod(p - from, len);
    let q = (p - from) / len;
    let d = (p - from) % len;
    assert(from + d == len * (-q) + p) by (nonlinear_arith)
        requires
            p - from == len * q + d,
    ;
    lemma_fundamental_div_mod_converse(from + d, len, -q, p);
}

/// A later part of a strip lies within it.
pub proof fn lemma_strip_tail(p: int, from: int, mid: int, to: int, len: int)
    requires
        0 <= p < len,
        from <= mid <= to,
        to - from <= len,
        in_strip(p, mid, to, len),
    ensures
        in_strip(p, from, to, len),
{
    lemma_mod_bound(p - mid, len);
    lemma_fundamental_div_mod(p - mid, len);
    let q = (p - mid) / len;
    let d = (p - mid) % len;
    assert(p - from == q * len + (d + (mid - from))) by (nonlinear_arith)
        requires
            p - mid == len * q + d,
    ;
    lemma_fundamental_div_mod_converse(p - from, len, q, d + (mid - from));
}

/// A strip is the part before a cut or the part after it.
pub proof fn lemma_strip_split(p: int, from: int, mid: int, to: int, len: int)
    requires
        0 <= p < len,
        from <= mid <= to,
        to - from <= len,
        in_strip(p, from, to, len),
    ensures
        in_strip(p, from, mid, len) || in_strip(p, mid, to, len),
{
    lemma_mod_bound(p - from, len);
    let d = (p - from) % len;
    if d >= mid - from {
        lemma_fundamental_div_mod(p - from, len);
        let q = (p - from) / len;
        assert(p - mid == q * len + (d - (mid - from))) by (nonlinear_arith)
            requires
                p - from == len * q + d,
        ;
        lemma_fundamental_div_mod_converse(p - mid, len, q, d - (mid - from));
    }
}

/// One lap later, a strip covers the same positions.
pub proof fn lemma_strip_lap(p: int, from: int, to: int, len: int)
    requires
        0 <= p < len,
    ensures
        in_strip(p, from, to, len) == in_strip(p, from + len, to + len, len),
{
    lemma_mod_bound(p - from, len);
    lemma_fundamental_div_mod(p - from, len);
    let q = (p - from) / len;
    let d = (p - from) % len;
    assert(p - (from + len) == (q - 1) * len + d) by (nonlinear_arith)
        requires
            p - from == len * q + d,
    ;
    lemma_fundamental_div_mod_converse(p - (from + len), len, q - 1, d);
}

/// The positions before a cut are not among those after it, within one lap.
pub proof fn lemma_strip_apart(p: int, from: int, mid: int, to: int, len: int)
    requires
        0 <= p < len,
        from <= mid <= to,
        to - from <= len,
        in_strip(p, from, mid, len),
    ensures
        !in_strip(p, mid, to, len),
{
    if in_strip(p, mid, to, len) {
        lemma_mod_bound(p - mid, len);
        lemma_fundamental_div_mod(p - mid, len);
        let q = (p - mid) / len;
        let d = (p - mid) % len;
        assert(p - from == q * len + (d + (mid - from))) by (nonlinear_arith)
            requires
                p - mid == len * q + d,
        ;
        lemma_fundamental_div_mod_converse(p - from, len, q, d + (mid - from));
    }
}

/// Whether a batch is made of `n` blocks that follow one another in a tract from the plow on.
spec fn follows(tr: &Tract, bs: Seq<(u64, Seq<u8>)>, n: int) -> bool {
    &&& bs.len() == n
    &&& n <= tr.len
    &&& 0 < tr.len
    &&& forall|k: int|
        0 <= k < n ==> (#[trigger] bs[k]).0 == tr.base + (tr.plow + k) % (tr.len as int) && 0 <= (
        tr.plow + k) % (tr.len as int) < tr.len
}

/// A batch that follows the plow changes nothing else.
proof fn lemma_batch_kept(
    tr: &Tract,
    d0: Seq<Seq<u8>>,
    d1: Seq<Seq<u8>>,
    bs: Seq<(u64, Seq<u8>)>,
    n: int,
)
    requires
        follows(tr, bs, n),
        mirror::batch_frame(d0, d1, bs),
    ensures
        kept_outside(tr.on(d0), tr.on(d1), tr.plow as int, tr.plow + n),
        kept_around(d0, d1, tr.base as int, tr.len as int),
{
    let plow = tr.plow as int;
    let len = tr.len as int;
    let base = tr.base as int;
    let t0 = tr.on(d0);
    let t1 = tr.on(d1);
    assert forall|p: int| 0 <= p < len && !in_strip(p, plow, plow + n, len) implies #[trigger] t1[p]
        == t0[p] by {
        if mirror::batch_touches(bs, base + p) {
            let k = choose|k: int| 0 <= k < bs.len() && (#[trigger] bs[k]).0 == base + p;
            lemma_strip_offset(plow, k, len);
        }
        if base + p < d0.len() {
            assert(d1[base + p] == d0[base + p]);
        }
    }
    assert forall|q: int| 0 <= q < d0.len() && !(base <= q < base + len) implies #[trigger] d1[q]
        == d0[q] by {
        if mirror::batch_touches(bs, q) {
            let k = choose|k: int| 0 <= k < bs.len() && (#[trigger] bs[k]).0 == q;
            lemma_strip_offset(plow, k, len);
        }
    }
}

/// A batch that follows the plow and landed is laid out there.
#[verifier::rlimit(60)]
proof fn lemma_batch_laid(
    tr: &Tract,
    d0: Seq<Seq<u8>>,
    d1: Seq<Seq<u8>>,
    bs: Seq<(u64, Seq<u8>)>,
    blocks: Seq<Seq<u8>>,
)
    requires
        follows(tr, bs, blocks.len() as int),
        forall|k: int| 0 <= k < bs.len() ==> (#[trigger] bs[k]).1 == blocks[k],
        mirror::batch_frame(d0, d1, bs),
        mirror::batch_landed(d1, bs, bs.len() as int),
    ensures
        laid(tr.on(d0), tr.on(d1), tr.plow as int, blocks),
{
    let n = blocks.len() as int;
    let plow = tr.plow as int;
    let len = tr.len as int;
    let base = tr.base as int;
    let t0 = tr.on(d0);
    let t1 = tr.on(d1);
    lemma_batch_kept(tr, d0, d1, bs, n);
    assert forall|p: int| 0 <= p < len implies #[trigger] t1[p] == (if in_strip(
        p,
        plow,
        plow + n,
        len,
    ) {
        blocks[(p - plow) % len]
    } else {
        t0[p]
    }) by {
        if in_strip(p, plow, plow + n, len) {
            let k = (p - plow) % len;
            lemma_strip_position(p, plow, len);
            lemma_strip_offset(plow, k, len);
            assert(bs[k].0 == base + p);
            assert forall|j: int| k < j < n implies (#[trigger] bs[j]).0 != bs[k].0 by {
                lemma_strip_offset(plow, j, len);
                assert(bs[j].0 == base + (plow + j) % len);
            }
            assert(d1[bs[k].0 as int] == bs[k].1);
        }
    }
}

impl Tract {
    /// The cursors' invariant, and a region that has addresses.
    pub open spec fn wf(&self) -> bool {
        &&& self.len > 0
        &&& self.base + self.len <= u64::MAX
        &&& self.reap <= self.plow
        &&& self.plow - self.reap <= self.len
    }

    /// The blocks of this tract on a disk.
    pub open spec fn on(&self, disk: Seq<Seq<u8>>) -> Seq<Seq<u8>> {
        ground(disk, self.base as int, self.len as nat)
    }

    /// Where appends must stop: the end of clean space, or the fence before it.
    pub open spec fn limit(&self) -> int {
        match self.fence_limit {
            Some(l) => if l < self.reap + self.len {
                l as int
            } else {
                self.reap + self.len
            },
            None => self.reap + self.len,
        }
    }

    /// How far appends may get from where the plow is.
    pub open spec fn reach(&self) -> int {
        if self.limit() > self.plow {
            self.limit()
        } else {
            self.plow as int
        }
    }

    /// Whether `self` is `before` but for a plow that may have moved on, within reach.
    pub open spec fn plowed(&self, before: &Self) -> bool {
        &&& self.wf()
        &&& self.base == before.base
        &&& self.len == before.len
        &&& self.reap == before.reap
        &&& self.fence_limit == before.fence_limit
        &&& before.plow <= self.plow <= before.reach()
    }

    /// Whether an append of `n` blocks is refused, and how. A cursor that would pass the largest
    /// number is a full tract.
    pub open spec fn refusal(&self, n: nat) -> Option<ErrorView> {
        if n > self.len - (self.plow - self.reap) || self.plow + n > u64::MAX {
            Some(ErrorView::TractFull)
        } else {
            match self.fence_limit {
                Some(l) => if self.plow + n > l {
                    Some(ErrorView::Fenced(self.plow))
                } else {
                    None
                },
                None => None,
            }
        }
    }

    /// Whether an append of `n` blocks is refused, and how.
    pub(crate) fn refuse(&self, n: u64) -> (r: Option<Error>)
        requires
            self.wf(),
        ensures
            match r {
                Some(e) => self.refusal(n as nat) == Some(e@),
                None => self.refusal(n as nat) is None,
            },
    {
        if n > self.clean_blocks() || n > u64::MAX - self.plow {
            return Some(Error::TractFull);
        }
        if let Some(limit) = self.fence_limit {
            if self.plow + n > limit {
                return Some(Error::Fenced(self.plow));
            }
        }
        None
    }

    pub fn position(&self) -> (p: u64)
        requires
            self.len > 0,
        ensures
            p == self.plow % self.len,
    {
        self.plow % self.len
    }

    pub fn lap(&self) -> (n: u64)
        requires
            self.len > 0,
        ensures
            n == self.plow / self.len,
    {
        self.plow / self.len
    }

    /// Blocks of clean space, appendable up to the fence.
    pub fn clean_blocks(&self) -> (n: u64)
        requires
            self.reap <= self.plow,
            self.plow - self.reap <= self.len,
        ensures
            n == self.len - (self.plow - self.reap),
    {
        self.len - (self.plow - self.reap)
    }

    /// Appends `blocks` one after the other at the plow. Returns their positions, in order, wrapping
    /// at most once. Space and fence are checked before a byte is written: a refused append has no
    /// side effects.
    #[verifier::rlimit(60)]
    pub fn append<A: BlockDev, B: BlockDev>(
        &mut self,
        mirror: &mut Mirror<A, B>,
        blocks: &[Block],
    ) -> (r: Result<Vec<u64>>)
        requires
            old(self).wf(),
        ensures
            final(self).wf(),
            final(self).base == old(self).base,
            final(self).len == old(self).len,
            final(self).reap == old(self).reap,
            final(self).fence_limit == old(self).fence_limit,
            final(mirror).carries_on(old(mirror)),
            kept_around(
                old(mirror).disk(),
                final(mirror).disk(),
                old(self).base as int,
                old(self).len as int,
            ),
            match old(self).refusal(blocks@.len()) {
                Some(e) => {
                    &&& r matches Err(x) && x@ == e
                    &&& *final(self) == *old(self)
                    &&& *final(mirror) == *old(mirror)
                },
                None => match r {
                    Ok(placed) => {
                        &&& final(self).plow == old(self).plow + blocks@.len()
                        &&& placed@.len() == blocks@.len()
                        &&& forall|i: int|
                            0 <= i < placed@.len() ==> #[trigger] placed@[i] == (old(self).plow + i)
                                % (old(self).len as int)
                        &&& old(mirror).has_device() ==> laid(
                            old(self).on(old(mirror).disk()),
                            old(self).on(final(mirror).disk()),
                            old(self).plow as int,
                            blocks_view(blocks@),
                        )
                        &&& final(mirror).second() is Some ==> laid(
                            old(self).on(old(mirror).second()->0),
                            old(self).on(final(mirror).second()->0),
                            old(self).plow as int,
                            blocks_view(blocks@),
                        ) && kept_around(
                            old(mirror).second()->0,
                            final(mirror).second()->0,
                            old(self).base as int,
                            old(self).len as int,
                        )
                    },
                    Err(e) => {
                        &&& *final(self) == *old(self)
                        &&& block::device_error(e@)
                        &&& !(old(mirror).reliable() && old(self).base + old(self).len
                            <= old(mirror).disk().len())
                        &&& kept_outside(
                            old(self).on(old(mirror).disk()),
                            old(self).on(final(mirror).disk()),
                            old(self).plow as int,
                            old(self).plow + blocks@.len(),
                        )
                    },
                },
            },
    {
        let n: u64 = blocks.len() as u64;
        if let Some(e) = self.refuse(n) {
            return Err(e);
        }
        let ghost plow = self.plow as int;
        let ghost len = self.len as int;
        let ghost base = self.base as int;
        let ghost d0 = mirror.disk();
        let mut batch: Vec<(u64, &Block)> = Vec::new();
        let mut placed: Vec<u64> = Vec::new();
        let mut i: usize = 0;
        while i < blocks.len()
            invariant
                i <= blocks@.len(),
                blocks@.len() == n,
                *self == *old(self),
                self.wf(),
                n <= self.len,
                self.plow + n <= u64::MAX,
                plow == self.plow,
                len == self.len,
                base == self.base,
                batch@.len() == i,
                placed@.len() == i,
                forall|k: int| 0 <= k < i ==> #[trigger] placed@[k] == (plow + k) % len,
                forall|k: int|
                    0 <= k < i ==> (#[trigger] batch@[k]).0 == base + (plow + k) % len
                        && *batch@[k].1 == blocks@[k],
            decreases blocks@.len() - i,
        {
            proof {
                lemma_mod_bound(plow + i, len);
            }
            let pos: u64 = (self.plow + i as u64) % self.len;
            batch.push((self.base + pos, &blocks[i]));
            placed.push(pos);
            i = i + 1;
        }
        let ghost bs = mirror::batch_view(batch@);
        proof {
            assert forall|k: int| 0 <= k < n implies (#[trigger] bs[k]).0 == base + (plow + k) % len
                && bs[k].1 == blocks@[k]@ && 0 <= (plow + k) % len < len by {
                assert(batch@[k].0 == base + (plow + k) % len);
                lemma_mod_bound(plow + k, len);
            }
        }
        let ghost second0 = mirror.second();
        let done = mirror.write_verified_batch(batch.as_slice());
        proof {
            lemma_batch_kept(self, d0, mirror.disk(), bs, n as int);
            if done is Ok && old(mirror).has_device() {
                lemma_batch_laid(self, d0, mirror.disk(), bs, blocks_view(blocks@));
            }
            if done is Ok && mirror.second() is Some {
                lemma_batch_kept(self, second0->0, mirror.second()->0, bs, n as int);
                lemma_batch_laid(self, second0->0, mirror.second()->0, bs, blocks_view(blocks@));
            }
        }
        match done {
            Ok(()) => {
                self.plow = self.plow + n;
                Ok(placed)
            },
            Err(e) => Err(e),
        }
    }

    /// Deletes in constant time: zeroes the block on both mirrors. Zero is the deleted state.
    pub fn zero_delete<A: BlockDev, B: BlockDev>(
        &mut self,
        mirror: &mut Mirror<A, B>,
        lba: u64,
    ) -> (r: Result<()>)
        requires
            old(self).base + old(self).len <= u64::MAX,
        ensures
            *final(self) == *old(self),
            final(mirror).carries_on(old(mirror)),
            lba >= old(self).len ==> (r matches Err(e) && e@ == ErrorView::Bounds(lba))
                && *final(mirror) == *old(mirror),
            lba < old(self).len ==> block::only_changed(
                old(mirror).disk(),
                final(mirror).disk(),
                old(self).base + lba,
            ),
            r is Ok ==> lba < old(self).len && old(self).base + lba < old(mirror).disk().len()
                && final(mirror).disk() == old(mirror).disk().update(
                old(self).base + lba,
                block::zeros(),
            ),
            r is Ok && final(mirror).second() is Some ==> old(self).base + lba < old(
                mirror,
            ).second()->0.len() && final(mirror).second() == Some(
                old(mirror).second()->0.update(old(self).base + lba, block::zeros()),
            ),
            r matches Err(e) ==> block::device_error(e@),
            old(mirror).reliable() && lba < old(self).len && old(self).base + lba < old(mirror).disk().len() ==> r is Ok,
    {
        if lba >= self.len {
            return Err(Error::Bounds(lba));
        }
        let z = zero_block();
        mirror.write_verified(self.base + lba, &z)
    }

    /// Plain read of a tract block; callers verify content at their own layer.
    pub fn read<A: BlockDev, B: BlockDev>(
        &self,
        mirror: &mut Mirror<A, B>,
        lba: u64,
        buf: &mut Block,
    ) -> (r: Result<()>)
        requires
            self.base + self.len <= u64::MAX,
        ensures
            final(mirror).carries_on(old(mirror)),
            final(mirror).first() == old(mirror).first(),
            final(mirror).second() == old(mirror).second(),
            lba >= self.len ==> (r matches Err(e) && e@ == ErrorView::Bounds(lba)),
            r is Ok ==> lba < self.len && self.base + lba < old(mirror).disk().len() && final(buf)@
                == self.on(old(mirror).disk())[lba as int],
            r matches Err(e) ==> block::device_error(e@),
            old(mirror).reliable() && lba < self.len && self.base + lba < old(mirror).disk().len()
                ==> r is Ok,
    {
        if lba >= self.len {
            return Err(Error::Bounds(lba));
        }
        mirror.read(self.base + lba, buf)
    }

    /// Reads one of the copies of a block of the tract.
    pub(crate) fn read_as<A: BlockDev, B: BlockDev>(
        &self,
        mirror: &mut Mirror<A, B>,
        lba: u64,
        buf: &mut Block,
        how: Reading,
    ) -> (r: Result<()>)
        requires
            self.base + self.len <= u64::MAX,
        ensures
            final(mirror).carries_on(old(mirror)),
            final(mirror).first() == old(mirror).first(),
            final(mirror).second() == old(mirror).second(),
            lba >= self.len ==> (r matches Err(e) && e@ == ErrorView::Bounds(lba)),
            r is Ok ==> lba < self.len && self.base + lba < old(mirror).seen(how).len() && final(buf)@
                == self.on(old(mirror).seen(how))[lba as int],
            r matches Err(e) ==> block::device_error(e@),
            old(mirror).clear(how) && lba < self.len && self.base + lba < old(mirror).seen(
                how,
            ).len() ==> r is Ok,
    {
        if lba >= self.len {
            return Err(Error::Bounds(lba));
        }
        mirror.read_as(self.base + lba, buf, how)
    }
}

/// Law: an append is refused because clean space ends before it does, or else because the fence does, and for
/// nothing else; and where there is room for more there is room for less.
pub proof fn law_refused_only_for_want_of_room(t: Tract, n: nat)
    requires
        t.wf(),
        t.plow + n <= u64::MAX,
    ensures
        t.refusal(n) == Some(ErrorView::TractFull) <==> t.plow + n > t.reap + t.len,
        t.refusal(n) == Some(ErrorView::Fenced(t.plow)) <==> t.plow + n <= t.reap + t.len && (
        t.fence_limit matches Some(f) && t.plow + n > f),
        t.refusal(n) is None <==> t.plow + n <= t.reap + t.len && (t.fence_limit matches Some(f)
            ==> t.plow + n <= f),
        forall|m: nat| m <= n && t.refusal(n) is None ==> (#[trigger] t.refusal(m)) is None,
{
}

/// Law: blocks that were laid out stand one after the other from the plow on, around the ring, and every
/// other position is what it was.
pub proof fn law_appended_blocks_stand_in_order(
    was: Seq<Seq<u8>>,
    now: Seq<Seq<u8>>,
    from: int,
    blocks: Seq<Seq<u8>>,
)
    requires
        laid(was, now, from, blocks),
        blocks.len() <= was.len(),
        was.len() > 0,
    ensures
        now.len() == was.len(),
        forall|i: int|
            0 <= i < blocks.len() ==> now[(from + i) % (was.len() as int)] == #[trigger] blocks[i],
        forall|p: int|
            0 <= p < was.len() && (forall|i: int|
                0 <= i < blocks.len() ==> #[trigger] (from + i) % (was.len() as int) != p)
                ==> #[trigger] now[p] == was[p],
{
    let len = was.len() as int;
    assert forall|i: int| 0 <= i < blocks.len() implies now[(from + i) % len]
        == #[trigger] blocks[i] by {
        lemma_strip_offset(from, i, len);
    }
    assert forall|p: int|
        0 <= p < was.len() && (forall|i: int|
            0 <= i < blocks.len() ==> #[trigger] (from + i) % (was.len() as int) != p) implies
        #[trigger] now[p] == was[p] by {
        if in_strip(p, from, from + blocks.len(), len) {
            lemma_strip_position(p, from, len);
            let i = (p - from) % len;
            assert((from + i) % (was.len() as int) == p);
        }
    }
}

/// Law: a position lies in a strip exactly where one of the strip's totals comes to it.
pub proof fn law_strip_is_the_positions_of_its_totals(p: int, from: int, to: int, len: int)
    requires
        0 <= p < len,
        from <= to <= from + len,
    ensures
        in_strip(p, from, to, len) <==> exists|x: int| from <= x < to && #[trigger] (x % len) == p,
{
    lemma_strip_position(p, from, len);
    let y = from + (p - from) % len;
    if in_strip(p, from, to, len) {
        assert(y % len == p);
    }
    if exists|x: int| from <= x < to && #[trigger] (x % len) == p {
        let x = choose|x: int| from <= x < to && #[trigger] (x % len) == p;
        lemma_strip_offset(from, x - from, len);
    }
}

}
