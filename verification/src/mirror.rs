//! Write, verify, and only then mirror.
//!
//! The second device is never written until the first is verified. A block is written only after it
//! has been read back and compared: an unverified byte is not a written byte. A generation is
//! committed when at least one device holds a verified copy.
//!
//! When the primary's write or verification fails, it is retried once and is then an error, with
//! the secondary untouched. When the secondary fails it is dropped for the session, the mirror is
//! degraded, and the operation succeeds: the primary has it.
use vstd::prelude::*;
use crate::block;
use crate::block::{is_zero, same_block, zero_block, Block, BlockDev};
use crate::error;
use crate::error::{corrupt_err, Error, Result};
use crate::events::{EventSink, NullSink, StorageEvent};
use crate::seal;
use crate::seal::sealed_hp;

verus! {

/// Blocks to write: where, and what.
pub open spec fn batch_view(bs: Seq<(u64, &Block)>) -> Seq<(u64, Seq<u8>)> {
    Seq::new(bs.len(), |i: int| (bs[i].0, bs[i].1@))
}

/// Whether some block of the batch goes to `lba`.
pub open spec fn batch_touches(bs: Seq<(u64, Seq<u8>)>, lba: int) -> bool {
    exists|i: int| 0 <= i < bs.len() && (#[trigger] bs[i]).0 == lba
}

/// Whether only blocks of the batch differ between two states of a device.
pub open spec fn batch_frame(was: Seq<Seq<u8>>, now: Seq<Seq<u8>>, bs: Seq<(u64, Seq<u8>)>) -> bool {
    &&& now.len() == was.len()
    &&& forall|i: int|
        0 <= i < was.len() && !batch_touches(bs, i) ==> #[trigger] now[i] == was[i]
}

/// Whether the last block of the batch for each address among the first `n` is what the device
/// holds there.
pub open spec fn batch_landed(now: Seq<Seq<u8>>, bs: Seq<(u64, Seq<u8>)>, n: int) -> bool {
    forall|i: int|
        0 <= i < n && (forall|j: int| i < j < n ==> (#[trigger] bs[j]).0 != bs[i].0)
            ==> (#[trigger] bs[i]).0 < now.len() && now[bs[i].0 as int] == bs[i].1
}

/// Whether every address of the batch is within `len` blocks.
pub open spec fn batch_within(bs: Seq<(u64, Seq<u8>)>, len: nat) -> bool {
    forall|i: int| 0 <= i < bs.len() ==> (#[trigger] bs[i]).0 < len
}

/// Write, flush, read back, compare: whether what was read is what was written. The flush before the
/// read-back makes the verification meaningful.
fn write_once<D: BlockDev>(dev: &mut D, lba: u64, buf: &Block, scratch: &mut Block) -> (r: Result<
    bool,
>)
    ensures
        (*final(dev)).reliable() == (*old(dev)).reliable(),
        (*final(dev)).limit() == (*old(dev)).limit(),
        block::only_changed((*old(dev)).disk(), (*final(dev)).disk(), lba as int),
        r matches Ok(true) ==> lba < (*old(dev)).disk().len() && (*final(dev)).disk() == (*old(dev)).disk().update(lba as int, buf@),
        r matches Err(e) ==> block::device_error(e@),
        (*old(dev)).reliable() && lba < (*old(dev)).disk().len() ==> (r matches Ok(true)),
        (*old(dev)).slips() is Some && lba < (*old(dev)).disk().len() ==> match r {
            Ok(x) => x && (*final(dev)).slips() == (*old(dev)).slips(),
            Err(_) => (*final(dev)).slips() is Some && (*old(dev)).slips()->0
                == (*final(dev)).slips()->0 + 1,
        },
{
    let ghost start = (*dev).disk();
    dev.write(lba, buf)?;
    dev.flush()?;
    dev.read(lba, scratch)?;
    let same = same_block(scratch, buf);
    proof {
        if same {
            assert((*dev).disk() =~= start.update(lba as int, buf@));
        }
    }
    Ok(same)
}

/// Whether a device fails in at most one write more, and in nothing else.
pub open spec fn steady<D: BlockDev>(dev: &D) -> bool {
    dev.slips() matches Some(n) && n <= 1
}

/// Writes a block and verifies it. A write that fails, or does not read back as written, is tried
/// once more; then it is an error.
pub(crate) fn write_one<D: BlockDev>(dev: &mut D, lba: u64, buf: &Block, scratch: &mut Block) -> (r:
    Result<()>)
    ensures
        (*final(dev)).reliable() == (*old(dev)).reliable(),
        (*final(dev)).limit() == (*old(dev)).limit(),
        block::only_changed((*old(dev)).disk(), (*final(dev)).disk(), lba as int),
        r is Ok ==> lba < (*old(dev)).disk().len() && (*final(dev)).disk()[lba as int] == buf@,
        r is Ok ==> (*final(dev)).disk() == (*old(dev)).disk().update(lba as int, buf@),
        lba >= (*old(dev)).disk().len() ==> (*final(dev)).disk() == (*old(dev)).disk(),
        r matches Err(e) ==> block::device_error(e@),
        (*old(dev)).reliable() && lba < (*old(dev)).disk().len() ==> r is Ok,
        steady(&*old(dev)) && lba < (*old(dev)).disk().len() ==> r is Ok && steady(&*final(dev)),
{
    let ghost start = (*dev).disk();
    if let Ok(true) = write_once(dev, lba, buf, scratch) {
        return Ok(());
    }
    match write_once(dev, lba, buf, scratch) {
        Ok(true) => {
            assert((*dev).disk() =~= start.update(lba as int, buf@));
            Ok(())
        },
        Ok(false) => {
            assert(lba >= start.len() ==> (*dev).disk() =~= start);
            Err(Error::Verify(lba))
        },
        Err(e) => {
            assert(lba >= start.len() ==> (*dev).disk() =~= start);
            Err(e)
        },
    }
}

/// Writes a batch to one device with one flush, then reads every block back. A block whose write
/// failed, or that does not compare, is written again by itself. A batch that does not lie within the
/// device is refused as a whole.
fn write_each<D: BlockDev>(dev: &mut D, blocks: &[(u64, &Block)]) -> (r: Result<()>)
    ensures
        (*final(dev)).reliable() == (*old(dev)).reliable(),
        (*final(dev)).limit() == (*old(dev)).limit(),
        batch_frame((*old(dev)).disk(), (*final(dev)).disk(), batch_view(blocks@)),
        !batch_within(batch_view(blocks@), (*old(dev)).disk().len()) ==> r is Err && (*final(dev)).disk() == (*old(dev)).disk(),
        r is Ok ==> batch_within(batch_view(blocks@), (*old(dev)).disk().len()),
        r is Ok ==> batch_landed(
            (*final(dev)).disk(),
            batch_view(blocks@),
            blocks@.len() as int,
        ),
        r matches Err(e) ==> block::device_error(e@),
        (*old(dev)).reliable() && batch_within(batch_view(blocks@), (*old(dev)).disk().len()) ==> r is Ok,
        steady(&*old(dev)) && batch_within(batch_view(blocks@), (*old(dev)).disk().len()) ==> r is Ok,
{
    let ghost start = (*dev).disk();
    let ghost rel = (*dev).reliable();
    let ghost bs = batch_view(blocks@);
    let ghost top = (*dev).limit();
    let mut scratch = zero_block();
    let count: u64 = dev.block_count();
    let mut n: usize = 0;
    while n < blocks.len()
        invariant
            n <= blocks@.len(),
            bs == batch_view(blocks@),
            start == (*dev).disk(),
            start == (*old(dev)).disk(),
            (*dev).reliable() == (*old(dev)).reliable(),
            (*dev).limit() == (*old(dev)).limit(),
            steady(&*old(dev)) ==> steady(&*dev),
            count == start.len(),
            forall|j: int| 0 <= j < n ==> (#[trigger] bs[j]).0 < start.len(),
        decreases blocks@.len() - n,
    {
        let lba: u64 = blocks[n].0;
        assert(bs[n as int].0 == lba);
        if lba >= count {
            return Err(Error::Bounds(lba));
        }
        n = n + 1;
    }
    let mut clean = true;
    let mut i: usize = 0;
    while i < blocks.len()
        invariant
            i <= blocks@.len(),
            bs == batch_view(blocks@),
            (*dev).reliable() == rel,
            rel == (*old(dev)).reliable(),
            (*dev).limit() == top,
            top == (*old(dev)).limit(),
            steady(&*old(dev)) ==> steady(&*dev),
            start == (*old(dev)).disk(),
            batch_frame(start, (*dev).disk(), bs),
            batch_within(bs, start.len()),
        decreases blocks@.len() - i,
    {
        let e: (u64, &Block) = blocks[i];
        assert(bs[i as int] == (e.0, e.1@));
        if dev.write(e.0, e.1).is_err() {
            clean = false;
        }
        i = i + 1;
    }
    if dev.flush().is_err() {
        clean = false;
    }
    let mut k: usize = 0;
    while k < blocks.len()
        invariant
            k <= blocks@.len(),
            bs == batch_view(blocks@),
            (*dev).reliable() == rel,
            rel == (*old(dev)).reliable(),
            (*dev).limit() == top,
            top == (*old(dev)).limit(),
            steady(&*old(dev)) ==> steady(&*dev),
            batch_within(bs, start.len()),
            start == (*old(dev)).disk(),
            batch_frame(start, (*dev).disk(), bs),
            batch_landed((*dev).disk(), bs, k as int),
            forall|j: int| 0 <= j < k ==> (#[trigger] bs[j]).0 < start.len(),
        decreases blocks@.len() - k,
    {
        let e: (u64, &Block) = blocks[k];
        assert(bs[k as int] == (e.0, e.1@));
        let ghost before = (*dev).disk();
        let stands = match dev.read(e.0, &mut scratch) {
            Ok(()) => clean && same_block(&scratch, e.1),
            Err(_) => false,
        };
        if !stands {
            write_one(dev, e.0, e.1, &mut scratch)?;
        }
        proof {
            let now = (*dev).disk();
            assert(now[e.0 as int] == e.1@);
            assert(forall|q: int| 0 <= q < now.len() && q != e.0 ==> now[q] == before[q]);
            assert forall|p: int|
                0 <= p < k + 1 && (forall|j: int| p < j < k + 1 ==> (#[trigger] bs[j]).0
                    != bs[p].0) implies (#[trigger] bs[p]).0 < now.len() && now[bs[p].0 as int]
                == bs[p].1 by {
                if p < k {
                    assert(bs[k as int].0 != bs[p].0);
                    assert(before[bs[p].0 as int] == bs[p].1);
                }
            }
        }
        k = k + 1;
    }
    Ok(())
}

/// A block, or the other copy of it where its own seal fails and the other's does not.
pub open spec fn mended_block(a: Seq<u8>, b: Seq<u8>) -> Seq<u8> {
    if a != block::zeros() && seal::hp_of(a) is None && seal::hp_of(b) is Some {
        b
    } else {
        a
    }
}

/// What a device holds, with the other's copy of every block whose seal fails.
pub open spec fn mended(a: Seq<Seq<u8>>, b: Seq<Seq<u8>>) -> Seq<Seq<u8>> {
    Seq::new(
        a.len(),
        |i: int|
            if i < b.len() {
                mended_block(a[i], b[i])
            } else {
                a[i]
            },
    )
}

/// Which copy of a block is read: that of the first device present, that of the first device and
/// where its seal fails that of the second, or that of the second and where its seal fails that of
/// the first.
#[derive(Clone, Copy)]
pub enum Reading {
    First,
    Mended,
    Swapped,
}

/// Reads a block of one device, or where its seal fails that of the other.
fn read_pair<D: BlockDev, E: BlockDev>(
    dev: &mut D,
    other: &mut E,
    lba: u64,
    buf: &mut Block,
    scratch: &mut Block,
) -> (r: Result<()>)
    ensures
        (*final(dev)).disk() == (*old(dev)).disk(),
        (*final(dev)).reliable() == (*old(dev)).reliable(),
        (*final(dev)).limit() == (*old(dev)).limit(),
        (*final(other)).disk() == (*old(other)).disk(),
        (*final(other)).reliable() == (*old(other)).reliable(),
        (*final(other)).limit() == (*old(other)).limit(),
        r is Ok ==> lba < (*old(dev)).disk().len() && final(buf)@ == mended(
            (*old(dev)).disk(),
            (*old(other)).disk(),
        )[lba as int],
        r matches Err(e) ==> block::device_error(e@),
        (*old(dev)).reliable() && (*old(other)).reliable() && lba < (*old(dev)).disk().len()
            ==> r is Ok,
{
    dev.read(lba, buf)?;
    if is_zero(buf) || sealed_hp(buf).is_some() || lba >= other.block_count() {
        return Ok(());
    }
    other.read(lba, scratch)?;
    if sealed_hp(scratch).is_some() {
        *buf = *scratch;
    }
    Ok(())
}

/// Extends a device that is shorter than `new_blocks`.
fn extend<D: BlockDev>(dev: &mut D, new_blocks: u64) -> (r: Result<()>)
    ensures
        (*final(dev)).reliable() == (*old(dev)).reliable(),
        (*final(dev)).limit() == (*old(dev)).limit(),
        r is Ok ==> (*final(dev)).disk() == block::longer((*old(dev)).disk(), new_blocks as nat),
        r is Err ==> (*final(dev)).disk() == (*old(dev)).disk(),
        r matches Err(e) ==> block::device_error(e@),
        new_blocks <= (*old(dev)).disk().len() ==> r is Ok,
        (*old(dev)).reliable() && new_blocks <= (*old(dev)).limit() ==> r is Ok,
{
    if dev.block_count() >= new_blocks {
        assert((*dev).disk() =~= block::longer((*dev).disk(), new_blocks as nat));
        return Ok(());
    }
    dev.grow(new_blocks)
}

/// Two states of devices that began alike and took up the same batch are alike.
proof fn lemma_batch_alike(
    was: Seq<Seq<u8>>,
    a: Seq<Seq<u8>>,
    b: Seq<Seq<u8>>,
    bs: Seq<(u64, Seq<u8>)>,
)
    requires
        batch_frame(was, a, bs),
        batch_frame(was, b, bs),
        batch_landed(a, bs, bs.len() as int),
        batch_landed(b, bs, bs.len() as int),
    ensures
        a == b,
{
    assert forall|i: int| 0 <= i < was.len() implies a[i] == b[i] by {
        if batch_touches(bs, i) {
            let k = choose|k: int| 0 <= k < bs.len() && (#[trigger] bs[k]).0 == i;
            let m = last_touch(bs, i, bs.len() as int);
            lemma_last_touch(bs, i, bs.len() as int, k);
            assert(bs[m].0 == i);
        }
    }
    assert(a =~= b);
}

/// The last place before `n` at which a batch touches an address.
spec fn last_touch(bs: Seq<(u64, Seq<u8>)>, lba: int, n: int) -> int
    decreases n,
{
    if n <= 0 {
        -1
    } else if bs[n - 1].0 == lba {
        n - 1
    } else {
        last_touch(bs, lba, n - 1)
    }
}

proof fn lemma_last_touch(bs: Seq<(u64, Seq<u8>)>, lba: int, n: int, k: int)
    requires
        0 <= k < n <= bs.len(),
        bs[k].0 == lba,
    ensures
        k <= last_touch(bs, lba, n) < n,
        bs[last_touch(bs, lba, n)].0 == lba,
        forall|j: int| last_touch(bs, lba, n) < j < n ==> (#[trigger] bs[j]).0 != lba,
    decreases n,
{
    if bs[n - 1].0 != lba {
        lemma_last_touch(bs, lba, n - 1, k);
    }
}

/// One or two devices that hold the same blocks. The first is authoritative; reads come from it, or
/// from the second where the first is missing.
pub struct Mirror<A: BlockDev, B: BlockDev> {
    a: Option<A>,
    b: Option<B>,
    degraded: bool,
    scratch: Block,
    events: Box<dyn EventSink>,
}

impl<A: BlockDev, B: BlockDev> Mirror<A, B> {
    /// What the first device holds.
    pub closed spec fn first(&self) -> Option<Seq<Seq<u8>>> {
        match self.a {
            Some(d) => Some(d.disk()),
            None => None,
        }
    }

    /// What the second device holds.
    pub closed spec fn second(&self) -> Option<Seq<Seq<u8>>> {
        match self.b {
            Some(d) => Some(d.disk()),
            None => None,
        }
    }

    pub closed spec fn first_reliable(&self) -> bool {
        self.a matches Some(d) && d.reliable()
    }

    pub closed spec fn second_reliable(&self) -> bool {
        self.b matches Some(d) && d.reliable()
    }

    /// Whether the first device fails in at most one write.
    pub closed spec fn first_steady(&self) -> bool {
        self.a matches Some(d) && steady(&d)
    }

    /// Whether the second device fails in at most one write.
    pub closed spec fn second_steady(&self) -> bool {
        self.b matches Some(d) && steady(&d)
    }

    /// Whether all that the present devices hold would survive power loss.
    pub closed spec fn synced(&self) -> bool {
        &&& self.a matches Some(d) ==> d.synced()
        &&& self.b matches Some(d) ==> d.synced()
    }

    pub closed spec fn is_degraded(&self) -> bool {
        self.degraded
    }

    /// Whether the present devices hold the same blocks.
    pub open spec fn alike(&self) -> bool {
        self.first() is Some && self.second() is Some ==> self.first() == self.second()
    }

    /// How far the first device can be extended.
    pub closed spec fn first_limit(&self) -> nat {
        match self.a {
            Some(d) => d.limit(),
            None => 0,
        }
    }

    /// How far the second device can be extended.
    pub closed spec fn second_limit(&self) -> nat {
        match self.b {
            Some(d) => d.limit(),
            None => 0,
        }
    }

    /// How far the device that decides an operation can be extended.
    pub open spec fn limit(&self) -> nat {
        if self.first() is Some {
            self.first_limit()
        } else {
            self.second_limit()
        }
    }

    /// Whether the sink was told that the mirror is degraded, once, if the second device was dropped,
    /// and of nothing else.
    pub open spec fn heard(&self, before: &Self) -> bool {
        &&& self.deaf() == before.deaf()
        &&& !before.deaf() ==> self.told() == (if before.second() is Some && self.second() is None {
            before.told().push(StorageEvent::MirrorDegraded)
        } else {
            before.told()
        })
    }

    /// What the sink was told.
    pub closed spec fn told(&self) -> Seq<StorageEvent> {
        (*self.events).told()
    }

    /// Whether the sink keeps nothing of what it is told.
    pub closed spec fn deaf(&self) -> bool {
        (*self.events).deaf()
    }

    /// What reads show: the first device, or the second where the first is missing.
    pub open spec fn disk(&self) -> Seq<Seq<u8>> {
        match self.first() {
            Some(d) => d,
            None => match self.second() {
                Some(d) => d,
                None => Seq::<Seq<u8>>::empty(),
            },
        }
    }

    /// Whether the device that decides an operation is reliable.
    pub open spec fn reliable(&self) -> bool {
        if self.first() is Some {
            self.first_reliable()
        } else {
            self.second_reliable()
        }
    }

    pub open spec fn has_device(&self) -> bool {
        self.first() is Some || self.second() is Some
    }

    /// What every operation keeps: which devices decide, that a dropped secondary is reported, and
    /// that two devices that hold the same go on to, as long as the first does not fail.
    pub open spec fn carries_on(&self, before: &Self) -> bool {
        &&& self.first() is Some == before.first() is Some
        &&& self.first_reliable() == before.first_reliable()
        &&& self.second() is Some ==> before.second() is Some
        &&& self.second() is Some == before.second() is Some ==> self.second_reliable()
            == before.second_reliable()
        &&& before.second() is Some && self.second() is None ==> before.first() is Some
            && self.is_degraded()
        &&& self.second() is Some == before.second() is Some ==> self.is_degraded()
            == before.is_degraded()
        &&& before.is_degraded() ==> self.is_degraded()
        &&& before.alike() && before.first_reliable() ==> self.alike()
        &&& self.first_limit() == before.first_limit()
        &&& self.second() is Some == before.second() is Some ==> self.second_limit()
            == before.second_limit()
    }

    pub fn new(a: A, b: B) -> (m: Self)
        ensures
            m.first() == Some(a.disk()),
            m.second() == Some(b.disk()),
            m.first_reliable() == a.reliable(),
            m.second_reliable() == b.reliable(),
            m.first_limit() == a.limit(),
            m.second_limit() == b.limit(),
            !m.is_degraded(),
    {
        Self {
            a: Some(a),
            b: Some(b),
            degraded: false,
            scratch: zero_block(),
            events: Box::new(NullSink),
        }
    }

    /// Attaches an event sink.
    pub fn with_events(self, sink: Box<dyn EventSink>) -> (m: Self)
        ensures
            m.first() == self.first(),
            m.second() == self.second(),
            m.first_reliable() == self.first_reliable(),
            m.second_reliable() == self.second_reliable(),
            m.first_limit() == self.first_limit(),
            m.second_limit() == self.second_limit(),
            m.is_degraded() == self.is_degraded(),
            m.told() == (*sink).told(),
            m.deaf() == (*sink).deaf(),
    {
        let mut m = self;
        let mut sink = sink;
        std::mem::swap(&mut m.events, &mut sink);
        m
    }

    /// Assembles from whatever survived open: a missing device starts the session degraded. An
    /// error if neither device is present.
    pub fn from_parts(a: Option<A>, b: Option<B>) -> (r: Result<Self>)
        ensures
            match r {
                Ok(m) => {
                    &&& a is Some || b is Some
                    &&& m.first() == (match a {
                        Some(d) => Some(d.disk()),
                        None => None,
                    })
                    &&& m.second() == (match b {
                        Some(d) => Some(d.disk()),
                        None => None,
                    })
                    &&& m.first_reliable() == (a matches Some(d) && d.reliable())
                    &&& m.second_reliable() == (b matches Some(d) && d.reliable())
                    &&& m.is_degraded() == (a is None || b is None)
                },
                Err(e) => a is None && b is None && e@ == error::corrupt(
                    "mirror requires at least one device",
                ),
            },
    {
        if a.is_none() && b.is_none() {
            return Err(corrupt_err("mirror requires at least one device"));
        }
        let degraded = a.is_none() || b.is_none();
        Ok(Self { a, b, degraded, scratch: zero_block(), events: Box::new(NullSink) })
    }

    /// Drops the secondary for the session.
    fn drop_second(&mut self)
        requires
            old(self).first() is Some,
        ensures
            final(self).first() == old(self).first(),
            final(self).first_reliable() == old(self).first_reliable(),
            final(self).first_limit() == old(self).first_limit(),
            final(self).second() is None,
            final(self).is_degraded(),
            final(self).deaf() == old(self).deaf(),
            !old(self).deaf() ==> final(self).told() == old(self).told().push(
                StorageEvent::MirrorDegraded,
            ),
    {
        self.b = None;
        self.degraded = true;
        self.events.emit(StorageEvent::MirrorDegraded);
    }

    /// Writes `buf` at `lba` on every present device, verifying each by read-back before touching
    /// the next. A write that fails is tried once more, so that one slip of a device costs nothing.
    pub fn write_verified(&mut self, lba: u64, buf: &Block) -> (r: Result<()>)
        ensures
            final(self).carries_on(old(self)),
            block::only_changed(old(self).disk(), final(self).disk(), lba as int),
            r is Ok ==> lba < old(self).disk().len() && final(self).disk() == old(self).disk().update(lba as int, buf@),
            r is Ok && final(self).second() is Some ==> lba < old(self).second()->0.len()
                && final(self).second() == Some(
                old(self).second()->0.update(lba as int, buf@),
            ),
            r is Err && old(self).first() is Some ==> final(self).second() == old(self).second(),
            final(self).heard(old(self)),
            !old(self).has_device() ==> (r matches Err(e) && e@ == error::corrupt(
                "mirror has no devices",
            )),
            r matches Err(e) ==> block::device_error(e@),
            old(self).reliable() && lba < old(self).disk().len() ==> r is Ok,
            old(self).second_reliable() && lba < old(self).second()->0.len() ==> final(self).second() is Some,
            (if old(self).first() is Some {
                old(self).first_steady()
            } else {
                old(self).second_steady()
            }) && lba < old(self).disk().len() ==> r is Ok,
            old(self).second_steady() && lba < old(self).second()->0.len() ==> final(self).second() is Some,
    {
        if let Some(a) = self.a.as_mut() {
            write_one(a, lba, buf, &mut self.scratch)?;
        }
        if self.a.is_some() {
            let mut failed = false;
            if let Some(b) = self.b.as_mut() {
                if write_one(b, lba, buf, &mut self.scratch).is_err() {
                    failed = true;
                }
            }
            if failed {
                self.drop_second();
            }
            return Ok(());
        }
        if let Some(b) = self.b.as_mut() {
            return write_one(b, lba, buf, &mut self.scratch);
        }
        Err(corrupt_err("mirror has no devices"))
    }

    /// Writes a batch on every present device, each with one flush and a read-back of every block.
    pub fn write_verified_batch(&mut self, blocks: &[(u64, &Block)]) -> (r: Result<()>)
        ensures
            final(self).carries_on(old(self)),
            batch_frame(old(self).disk(), final(self).disk(), batch_view(blocks@)),
            r is Ok ==> batch_within(batch_view(blocks@), old(self).disk().len()),
            r is Ok && old(self).has_device() ==> batch_landed(
                final(self).disk(),
                batch_view(blocks@),
                blocks@.len() as int,
            ),
            r is Ok && final(self).second() is Some ==> batch_frame(
                old(self).second()->0,
                final(self).second()->0,
                batch_view(blocks@),
            ) && batch_landed(
                final(self).second()->0,
                batch_view(blocks@),
                blocks@.len() as int,
            ),
            r is Err && old(self).first() is Some ==> final(self).second() == old(self).second(),
            final(self).heard(old(self)),
            !old(self).has_device() ==> (r matches Err(e) && e@ == error::corrupt(
                "mirror has no devices",
            )),
            r matches Err(e) ==> block::device_error(e@),
            old(self).reliable() && batch_within(batch_view(blocks@), old(self).disk().len())
                ==> r is Ok,
            (if old(self).first() is Some {
                old(self).first_steady()
            } else {
                old(self).second_steady()
            }) && batch_within(batch_view(blocks@), old(self).disk().len()) ==> r is Ok,
    {
        if let Some(a) = self.a.as_mut() {
            write_each(a, blocks)?;
        }
        if self.a.is_some() {
            let mut failed = false;
            if let Some(b) = self.b.as_mut() {
                if write_each(b, blocks).is_err() {
                    failed = true;
                }
            }
            if failed {
                self.drop_second();
            }
            proof {
                if old(self).alike() && self.second() is Some {
                    lemma_batch_alike(
                        old(self).disk(),
                        self.first()->0,
                        self.second()->0,
                        batch_view(blocks@),
                    );
                }
            }
            return Ok(());
        }
        if let Some(b) = self.b.as_mut() {
            return write_each(b, blocks);
        }
        Err(corrupt_err("mirror has no devices"))
    }

    /// Extends every present device that is shorter to `new_blocks`: the primary must grow or the
    /// operation fails; a secondary that refuses is dropped for the session.
    pub fn grow(&mut self, new_blocks: u64) -> (r: Result<()>)
        ensures
            final(self).carries_on(old(self)),
            r is Ok ==> final(self).disk() == block::longer(old(self).disk(), new_blocks as nat),
            r is Ok && final(self).second() is Some ==> final(self).second() == Some(
                block::longer(old(self).second()->0, new_blocks as nat),
            ),
            r is Err ==> final(self).first() == old(self).first() && final(self).second() == old(
                self,
            ).second() && final(self).is_degraded() == old(self).is_degraded(),
            final(self).heard(old(self)),
            r matches Err(e) ==> block::device_error(e@),
            old(self).has_device() && new_blocks <= old(self).disk().len() ==> r is Ok,
            old(self).reliable() && new_blocks <= old(self).limit() ==> r is Ok,
            !old(self).has_device() ==> (r matches Err(e) && e@ == error::corrupt(
                "mirror has no devices",
            )),
    {
        if let Some(a) = self.a.as_mut() {
            extend(a, new_blocks)?;
        }
        if self.a.is_some() {
            let mut failed = false;
            if let Some(b) = self.b.as_mut() {
                if extend(b, new_blocks).is_err() {
                    failed = true;
                }
            }
            if failed {
                self.drop_second();
            }
            return Ok(());
        }
        if let Some(b) = self.b.as_mut() {
            return extend(b, new_blocks);
        }
        Err(corrupt_err("mirror has no devices"))
    }

    /// What a way of reading shows.
    pub open spec fn seen(&self, how: Reading) -> Seq<Seq<u8>> {
        match (how, self.first(), self.second()) {
            (Reading::Mended, Some(a), Some(b)) => mended(a, b),
            (Reading::Swapped, Some(a), Some(b)) => mended(b, a),
            _ => self.disk(),
        }
    }

    /// Whether a way of reading cannot fail within what it shows.
    pub open spec fn clear(&self, how: Reading) -> bool {
        &&& self.reliable()
        &&& !(how is First) && self.second() is Some ==> self.second_reliable()
    }

    /// Reads one of the copies of a block: where a seal fails, the mirror's may stand.
    pub(crate) fn read_as(&mut self, lba: u64, buf: &mut Block, how: Reading) -> (r: Result<()>)
        ensures
            final(self).carries_on(old(self)),
            final(self).first() == old(self).first(),
            final(self).second() == old(self).second(),
            final(self).heard(old(self)),
            r is Ok ==> lba < old(self).seen(how).len() && final(buf)@ == old(self).seen(
                how,
            )[lba as int],
            r matches Err(e) ==> block::device_error(e@),
            old(self).clear(how) && lba < old(self).seen(how).len() ==> r is Ok,
    {
        match how {
            Reading::First => {},
            Reading::Mended => {
                if let Some(a) = self.a.as_mut() {
                    if let Some(b) = self.b.as_mut() {
                        return read_pair(a, b, lba, buf, &mut self.scratch);
                    }
                }
            },
            Reading::Swapped => {
                if let Some(a) = self.a.as_mut() {
                    if let Some(b) = self.b.as_mut() {
                        return read_pair(b, a, lba, buf, &mut self.scratch);
                    }
                }
            },
        }
        self.read(lba, buf)
    }

    /// Reads from the first present device. What the bytes are worth is decided above.
    pub fn read(&mut self, lba: u64, buf: &mut Block) -> (r: Result<()>)
        ensures
            final(self).carries_on(old(self)),
            final(self).first() == old(self).first(),
            final(self).second() == old(self).second(),
            final(self).heard(old(self)),
            r is Ok ==> lba < old(self).disk().len() && final(buf)@ == old(self).disk()[lba as int],
            !old(self).has_device() ==> (r matches Err(e) && e@ == error::corrupt(
                "mirror has no devices",
            )),
            r matches Err(e) ==> block::device_error(e@),
            old(self).reliable() && lba < old(self).disk().len() ==> r is Ok,
    {
        if let Some(a) = self.a.as_mut() {
            return a.read(lba, buf);
        }
        if let Some(b) = self.b.as_mut() {
            return b.read(lba, buf);
        }
        Err(corrupt_err("mirror has no devices"))
    }

    /// Durability barrier on every present device: when this returns, earlier writes survive power
    /// loss.
    pub fn flush(&mut self) -> (r: Result<()>)
        ensures
            final(self).carries_on(old(self)),
            final(self).first() == old(self).first(),
            final(self).second() == old(self).second(),
            (old(self).first() is None || old(self).first_reliable()) && (old(self).second() is None
                || old(self).second_reliable()) ==> r is Ok,
            r is Ok ==> final(self).synced(),
            final(self).heard(old(self)),
            r matches Err(e) ==> block::device_error(e@),
    {
        if let Some(a) = self.a.as_mut() {
            a.flush()?;
        }
        if let Some(b) = self.b.as_mut() {
            b.flush()?;
        }
        Ok(())
    }

    /// Smallest capacity across present devices.
    pub open spec fn count(&self) -> nat {
        match (self.first(), self.second()) {
            (Some(x), Some(y)) => if x.len() <= y.len() {
                x.len()
            } else {
                y.len()
            },
            (Some(x), None) => x.len(),
            (None, Some(y)) => y.len(),
            (None, None) => 0,
        }
    }

    pub fn block_count(&self) -> (n: u64)
        ensures
            n == self.count(),
            n <= self.disk().len(),
    {
        match (&self.a, &self.b) {
            (Some(x), Some(y)) => {
                let nx: u64 = x.block_count();
                let ny: u64 = y.block_count();
                if nx <= ny {
                    nx
                } else {
                    ny
                }
            },
            (Some(x), None) => x.block_count(),
            (None, Some(y)) => y.block_count(),
            (None, None) => 0,
        }
    }

    /// Sticky for the session: a device was missing at open, died, or failed verification.
    pub fn degraded(&self) -> (r: bool)
        ensures
            r == self.is_degraded(),
    {
        self.degraded
    }

    /// Emits an engine event through the mirror's sink.
    pub fn emit(&mut self, event: StorageEvent)
        ensures
            final(self).carries_on(old(self)),
            final(self).first() == old(self).first(),
            final(self).second() == old(self).second(),
            final(self).deaf() == old(self).deaf(),
            !old(self).deaf() ==> final(self).told() == old(self).told().push(event),
    {
        self.events.emit(event);
    }

    pub fn has_a(&self) -> (r: bool)
        ensures
            r == self.first() is Some,
    {
        self.a.is_some()
    }

    pub fn has_b(&self) -> (r: bool)
        ensures
            r == self.second() is Some,
    {
        self.b.is_some()
    }

    /// Direct access to each device.
    pub fn devices(&mut self) -> (r: (Option<&mut A>, Option<&mut B>))
        ensures
            r.0 is Some == old(self).first() is Some,
            r.1 is Some == old(self).second() is Some,
            r.0 matches Some(x) ==> old(self).first() == Some((*x).disk()) && (*x).reliable() == old(self).first_reliable(),
            r.1 matches Some(y) ==> old(self).second() == Some((*y).disk()) && (*y).reliable() == old(self).second_reliable(),
            final(self).first() == (match r.0 {
                Some(x) => Some((*final(x)).disk()),
                None => None,
            }),
            final(self).second() == (match r.1 {
                Some(y) => Some((*final(y)).disk()),
                None => None,
            }),
            r.0 is None ==> !old(self).first_reliable(),
            r.1 is None ==> !old(self).second_reliable(),
            final(self).first_reliable() == (r.0 matches Some(x) && (*final(x)).reliable()),
            final(self).second_reliable() == (r.1 matches Some(y) && (*final(y)).reliable()),
            final(self).is_degraded() == old(self).is_degraded(),
    {
        (self.a.as_mut(), self.b.as_mut())
    }
}

/// Law: a damaged block is read from the other device. Where a block is sealed, or zeroed, it stands; where it
/// is neither, and the other copy is sealed, that one does.
pub proof fn law_damage_is_mended_from_the_other_copy(a: Seq<Seq<u8>>, b: Seq<Seq<u8>>, i: int)
    requires
        0 <= i < a.len(),
    ensures
        mended(a, b).len() == a.len(),
        seal::hp_of(a[i]) is Some || a[i] == block::zeros() ==> mended(a, b)[i] == a[i],
        seal::hp_of(a[i]) is None && a[i] != block::zeros() && i < b.len() && seal::hp_of(
            b[i],
        ) is Some ==> mended(a, b)[i] == b[i],
        i >= b.len() || seal::hp_of(b[i]) is None ==> mended(a, b)[i] == a[i],
{
}

/// Law: a mirror shows its first device, or its second where that is all there is, and is as long as the
/// shorter of them.
pub proof fn law_mirror_is_as_long_as_its_shorter_device<A: BlockDev, B: BlockDev>(m: &Mirror<A, B>)
    ensures
        m.first() matches Some(d) ==> m.disk() == d && m.count() <= d.len(),
        m.second() matches Some(d) ==> m.count() <= d.len() && (m.first() is None ==> m.disk() == d),
        m.has_device() ==> m.first() matches Some(d) && m.count() == d.len() || (m.second() matches Some(
            d,
        ) && m.count() == d.len()),
{
}

/// Law: a sink is told once that a mirror is degraded: when the second device is dropped.
pub proof fn law_dropped_device_is_reported<A: BlockDev, B: BlockDev>(
    m: &Mirror<A, B>,
    before: &Mirror<A, B>,
)
    requires
        m.heard(before),
        m.carries_on(before),
        !before.deaf(),
    ensures
        before.second() is Some && m.second() is None ==> m.is_degraded() && m.told().len()
            == before.told().len() + 1 && m.told().last() == StorageEvent::MirrorDegraded
            && m.told().drop_last() == before.told(),
        !(before.second() is Some && m.second() is None) ==> m.told() == before.told()
            && m.is_degraded() == before.is_degraded(),
{
    assert(m.told().len() > 0 && before.second() is Some && m.second() is None
        ==> m.told().drop_last() =~= before.told());
}

/// Law: after a batch each address holds the last block that was written to it, and every other what it held.
pub proof fn law_last_of_a_batch_stands(
    was: Seq<Seq<u8>>,
    now: Seq<Seq<u8>>,
    bs: Seq<(u64, Seq<u8>)>,
    i: int,
)
    requires
        batch_frame(was, now, bs),
        batch_landed(now, bs, bs.len() as int),
        0 <= i < was.len(),
    ensures
        (forall|j: int| 0 <= j < bs.len() ==> (#[trigger] bs[j]).0 != i) ==> now[i] == was[i],
        forall|j: int|
            0 <= j < bs.len() && (#[trigger] bs[j]).0 == i && (forall|k: int|
                j < k < bs.len() ==> (#[trigger] bs[k]).0 != i) ==> now[i] == bs[j].1,
{
}

}
