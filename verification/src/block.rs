//! 4KB block device abstraction: the only I/O surface the engine sees.
//!
//! 4KB is the natural write unit for UFS (4KB logical block), SD (8 × 512B sectors) and every
//! modern filesystem. One block is one read is one write, everywhere.
use vstd::prelude::*;
use crate::error::{corrupt_err, ErrorView, Result};

verus! {

pub const BLOCK: usize = 4096;

/// One 4KB block. The engine never does partial-block I/O.
pub type Block = [u8; 4096];

/// The bytes of a zeroed block.
pub open spec fn zeros() -> Seq<u8> {
    Seq::new(4096, |i: int| 0u8)
}

/// A zeroed block.
pub fn zero_block() -> (r: Block)
    ensures
        r@ == zeros(),
{
    let z: Block = [0u8; 4096];
    assert(z@ =~= zeros());
    z
}

/// Whether a block is all zeros.
pub fn is_zero(b: &Block) -> (r: bool)
    ensures
        r == (b@ == zeros()),
{
    let mut i: usize = 0;
    while i < 4096
        invariant
            i <= 4096,
            forall|j: int| 0 <= j < i ==> b@[j] == 0,
        decreases 4096 - i,
    {
        if b[i] != 0 {
            assert(b@[i as int] != zeros()[i as int]);
            return false;
        }
        i = i + 1;
    }
    assert(b@ =~= zeros());
    true
}

/// Whether two blocks hold the same bytes.
pub fn same_block(a: &Block, b: &Block) -> (r: bool)
    ensures
        r == (a@ == b@),
{
    let mut i: usize = 0;
    while i < 4096
        invariant
            i <= 4096,
            forall|j: int| 0 <= j < i ==> a@[j] == b@[j],
        decreases 4096 - i,
    {
        if a[i] != b[i] {
            assert(a@[i as int] != b@[i as int]);
            return false;
        }
        i = i + 1;
    }
    assert(a@ =~= b@);
    true
}

/// Whether two 32-byte names are the same.
pub fn same32(a: &[u8; 32], b: &[u8; 32]) -> (r: bool)
    ensures
        r == (a@ == b@),
        r == (*a == *b),
{
    let mut i: usize = 0;
    while i < 32
        invariant
            i <= 32,
            forall|j: int| 0 <= j < i ==> a@[j] == b@[j],
        decreases 32 - i,
    {
        if a[i] != b[i] {
            assert(a@[i as int] != b@[i as int]);
            return false;
        }
        i = i + 1;
    }
    assert(a@ =~= b@);
    assert(*a =~= *b);
    true
}

/// The 32 zero bytes that stand for "no hash".
pub open spec fn zeros32() -> Seq<u8> {
    Seq::new(32, |i: int| 0u8)
}

/// The 32 zero bytes.
pub fn zero32() -> (r: [u8; 32])
    ensures
        r@ == zeros32(),
{
    let z: [u8; 32] = [0u8; 32];
    assert(z@ =~= zeros32());
    z
}

/// A copy of some bytes.
pub fn copied(s: &[u8]) -> (v: Vec<u8>)
    ensures
        v@ == s@,
{
    let mut v: Vec<u8> = Vec::new();
    v.extend_from_slice(s);
    assert(v@ =~= s@);
    v
}

/// The bytes of `s` from `from` up to `to`.
pub fn sliced(s: &[u8], from: usize, to: usize) -> (v: Vec<u8>)
    requires
        from <= to <= s@.len(),
    ensures
        v@ == s@.subrange(from as int, to as int),
{
    let mut v: Vec<u8> = Vec::new();
    let mut i: usize = from;
    while i < to
        invariant
            from <= i <= to <= s@.len(),
            v@ == s@.subrange(from as int, i as int),
        decreases to - i,
    {
        v.push(s[i]);
        i = i + 1;
        assert(v@ =~= s@.subrange(from as int, i as int));
    }
    v
}

/// The 32-byte array of 32 bytes.
pub fn array32(s: &[u8]) -> (a: [u8; 32])
    requires
        s@.len() == 32,
    ensures
        a@ == s@,
{
    let mut a: [u8; 32] = [0u8; 32];
    let mut i: usize = 0;
    while i < 32
        invariant
            i <= 32,
            s@.len() == 32,
            forall|j: int| 0 <= j < i ==> a@[j] == s@[j],
        decreases 32 - i,
    {
        a[i] = s[i];
        i = i + 1;
    }
    assert(a@ =~= s@);
    a
}

/// Whether two slices hold the same bytes.
pub fn same_bytes(a: &[u8], b: &[u8]) -> (r: bool)
    ensures
        r == (a@ == b@),
{
    if a.len() != b.len() {
        return false;
    }
    let mut i: usize = 0;
    while i < a.len()
        invariant
            i <= a@.len(),
            a@.len() == b@.len(),
            forall|j: int| 0 <= j < i ==> a@[j] == b@[j],
        decreases a@.len() - i,
    {
        if a[i] != b[i] {
            return false;
        }
        i = i + 1;
    }
    assert(a@ =~= b@);
    true
}

/// The engine's entire I/O surface. A host backs it with files, a kernel with UFS or SD devices;
/// the engine above is the same.
///
/// `disk` is what the device holds, block by block, as reads show it. A device is `reliable` when
/// every access within its capacity succeeds and every write is stored as given. Nothing is said
/// of what a write leaves in its own block on a device that is not. It is `synced` when all that it
/// holds would survive power loss, and can be extended to `limit` blocks. Of a device that fails in
/// nothing but writes, `slips` says how many of those within its capacity fail at most. All five are
/// ghosts: a device written in plain Rust leaves them as they are here and answers for the contracts
/// below by itself.
pub trait BlockDev {
    closed spec fn disk(&self) -> Seq<Seq<u8>> {
        Seq::empty()
    }

    closed spec fn reliable(&self) -> bool {
        false
    }

    closed spec fn synced(&self) -> bool {
        true
    }

    closed spec fn limit(&self) -> nat {
        0
    }

    closed spec fn slips(&self) -> Option<nat> {
        None
    }

    /// Device capacity in blocks. Engine-visible geometry comes from spine entries, never from
    /// here: this exists for bounds checks and to cross-check the committed geometry.
    fn block_count(&self) -> (n: u64)
        ensures
            n == self.disk().len(),
    ;

    fn read(&mut self, lba: u64, buf: &mut Block) -> (r: Result<()>)
        ensures
            final(self).disk() == old(self).disk(),
            final(self).reliable() == old(self).reliable(),
            final(self).limit() == old(self).limit(),
            r is Ok ==> lba < old(self).disk().len() && final(buf)@ == old(self).disk()[lba as int],
            r matches Err(e) ==> device_error(e@),
            old(self).reliable() && lba < old(self).disk().len() ==> r is Ok,
            final(self).slips() == old(self).slips(),
            old(self).slips() is Some && lba < old(self).disk().len() ==> r is Ok,
    ;

    fn write(&mut self, lba: u64, buf: &Block) -> (r: Result<()>)
        ensures
            final(self).reliable() == old(self).reliable(),
            final(self).limit() == old(self).limit(),
            only_changed(old(self).disk(), final(self).disk(), lba as int),
            r matches Err(e) ==> device_error(e@),
            old(self).reliable() && lba < old(self).disk().len() ==> r is Ok
                && final(self).disk()[lba as int] == buf@,
            final(self).slips() is Some == old(self).slips() is Some,
            old(self).slips() is Some && lba < old(self).disk().len() ==> match r {
                Ok(()) => final(self).disk()[lba as int] == buf@ && final(self).slips() == old(
                    self,
                ).slips(),
                Err(_) => old(self).slips()->0 == final(self).slips()->0 + 1,
            },
    ;

    /// A hint that blocks are no longer needed. The engine relies on nothing about them; the others
    /// stay. Where a device has no use for the hint, nothing happens.
    fn discard(&mut self, _lba: u64, _count: u64) -> (r: Result<()>)
        ensures
            final(self).reliable() == old(self).reliable(),
            final(self).limit() == old(self).limit(),
            kept_but(old(self).disk(), final(self).disk(), _lba as int, _lba + _count),
            r matches Err(e) ==> device_error(e@),
            old(self).reliable() && _lba + _count <= old(self).disk().len() ==> r is Ok,
            final(self).slips() == old(self).slips(),
        default_ensures
            r is Ok,
            final(self).disk() == old(self).disk(),
            final(self).synced() == old(self).synced(),
    {
        Ok(())
    }

    /// Durability barrier: when this returns, earlier writes survive power loss.
    fn flush(&mut self) -> (r: Result<()>)
        ensures
            final(self).disk() == old(self).disk(),
            final(self).reliable() == old(self).reliable(),
            final(self).limit() == old(self).limit(),
            r matches Err(e) ==> device_error(e@),
            r is Ok ==> final(self).synced(),
            old(self).reliable() ==> r is Ok,
            final(self).slips() == old(self).slips(),
            old(self).slips() is Some ==> r is Ok,
    ;

    /// Extends the device to `new_blocks`. What it held stays, and zeros follow. It does not shrink;
    /// what cannot be had, as on a device of fixed size, is refused, and nothing changes.
    fn grow(&mut self, new_blocks: u64) -> (r: Result<()>)
        ensures
            final(self).reliable() == old(self).reliable(),
            final(self).limit() == old(self).limit(),
            r is Ok ==> old(self).disk().len() <= new_blocks && final(self).disk() == longer(
                old(self).disk(),
                new_blocks as nat,
            ),
            r is Err ==> final(self).disk() == old(self).disk(),
            final(self).slips() == old(self).slips(),
            r matches Err(e) ==> device_error(e@),
            old(self).reliable() && old(self).disk().len() <= new_blocks <= old(self).limit() ==> r
                is Ok,
    ;
}

/// Some blocks, and zeros up to a number of blocks where there are fewer.
pub open spec fn longer(d: Seq<Seq<u8>>, n: nat) -> Seq<Seq<u8>> {
    Seq::new(
        if d.len() < n {
            n
        } else {
            d.len()
        },
        |i: int|
            if i < d.len() {
                d[i]
            } else {
                zeros()
            },
    )
}

/// The errors a device may return: not the refusals the engine itself decides.
pub open spec fn device_error(e: ErrorView) -> bool {
    !(e is Fenced) && !(e is TractFull) && !(e is Seal)
}

/// Whether `now` is `was` but for the block at `lba`.
pub open spec fn only_changed(was: Seq<Seq<u8>>, now: Seq<Seq<u8>>, lba: int) -> bool {
    &&& now.len() == was.len()
    &&& forall|i: int| 0 <= i < was.len() && i != lba ==> #[trigger] now[i] == was[i]
}

/// Whether `now` is `was` but for the blocks from `from` up to `to`.
pub open spec fn kept_but(was: Seq<Seq<u8>>, now: Seq<Seq<u8>>, from: int, to: int) -> bool {
    &&& now.len() == was.len()
    &&& forall|i: int|
        0 <= i < was.len() && !(from <= i < to) ==> #[trigger] now[i] == was[i]
}

/// A borrowed device is a device.
impl<D: BlockDev> BlockDev for &mut D {
    open spec fn disk(&self) -> Seq<Seq<u8>> {
        (**self).disk()
    }

    open spec fn reliable(&self) -> bool {
        (**self).reliable()
    }

    open spec fn synced(&self) -> bool {
        (**self).synced()
    }

    open spec fn limit(&self) -> nat {
        (**self).limit()
    }

    open spec fn slips(&self) -> Option<nat> {
        (**self).slips()
    }

    fn block_count(&self) -> (n: u64) {
        (**self).block_count()
    }

    fn read(&mut self, lba: u64, buf: &mut Block) -> (r: Result<()>) {
        (**self).read(lba, buf)
    }

    fn write(&mut self, lba: u64, buf: &Block) -> (r: Result<()>) {
        (**self).write(lba, buf)
    }

    fn discard(&mut self, lba: u64, count: u64) -> (r: Result<()>) {
        (**self).discard(lba, count)
    }

    fn flush(&mut self) -> (r: Result<()>) {
        (**self).flush()
    }

    fn grow(&mut self, new_blocks: u64) -> (r: Result<()>) {
        (**self).grow(new_blocks)
    }
}

/// Law: a device that is extended keeps its blocks, and has zeros behind them; one that is long enough stays as
/// it is.
pub proof fn law_extended_device_keeps_its_blocks(d: Seq<Seq<u8>>, n: nat)
    ensures
        n <= d.len() ==> longer(d, n) == d,
        n > d.len() ==> longer(d, n).len() == n,
        longer(d, n).take(d.len() as int) == d,
        forall|i: int, j: int|
            d.len() <= i < longer(d, n).len() && 0 <= j < 4096 ==> #[trigger] longer(d, n)[i][j] == 0,
{
    assert(longer(d, n).take(d.len() as int) =~= d);
    if n <= d.len() {
        assert(longer(d, n) =~= d);
    }
}

}
