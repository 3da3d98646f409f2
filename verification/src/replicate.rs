//! Verified replication: a mirror's two devices brought back into step.
//!
//! Never a copy of the whole device: block by block, only what differs, every write read back. The
//! device with the newer head wins; the other one gets its root slots, its spine and what its head
//! commits to.
use vstd::prelude::*;
use vstd::arithmetic::power2::*;
use crate::block;
use crate::block::{same32, same_block, zero32, zero_block, Block, BlockDev};
use crate::error;
use crate::error::{corrupt_err, ErrorView, Result};
use crate::hamt;
use crate::keep;
use crate::load;
use crate::mirror::write_one;
use crate::mooring;
use crate::ring;
use crate::ring::{classify, read_root, Classified, SpineEntry};
use crate::root;
use crate::root::RootView;
use crate::seal;
use crate::spine::{slot_count, ClassView, SpineView};
use crate::standing;
use crate::survey;
use crate::survey::{walk_device, Lists};
use crate::tract;
use crate::tract::Tract;
use crate::trie;

verus! {

/// What a replication pass copied.
#[derive(Debug, PartialEq, Eq, Structural)]
pub struct Replicated {
    pub spine_copied: u64,
    pub tract_copied: u64,
}

impl Default for Replicated {
    fn default() -> (r: Self)
        ensures
            r.spine_copied == 0,
            r.tract_copied == 0,
    {
        Replicated { spine_copied: 0, tract_copied: 0 }
    }
}

// ---------------------------------------------------------------- what stands where

/// The newest entry among the first `n` slots of a ring, the lowest slot where two are as new.
pub open spec fn best(disk: Seq<Seq<u8>>, base: int, ring: u8, n: nat) -> Option<(u64, SpineView)>
    decreases n,
{
    if n == 0 {
        None
    } else {
        let b = best(disk, base, ring, (n - 1) as nat);
        match ring::class_at(disk, base, ring, n - 1) {
            ClassView::Valid(e) => if b is None || e.gen > (b->0).1.gen {
                Some(((n - 1) as u64, e))
            } else {
                b
            },
            _ => b,
        }
    }
}

/// The generation of a head, below all others where there is none.
pub open spec fn age(top: Option<(u64, SpineView)>) -> int {
    match top {
        Some((_, e)) => e.gen as int,
        None => -1,
    }
}

/// Where a device's spine is, where its tract begins, and its head.
pub struct Layout {
    pub spine: u64,
    pub tract: u64,
    pub rooted: bool,
    pub top: Option<(u64, SpineView)>,
}

/// The newest root entry of a disk.
pub open spec fn root_on(disk: Seq<Seq<u8>>) -> Option<RootView> {
    choose|r: Option<RootView>| root::is_newest_root(disk, r)
}

/// The layout of a disk: by its root entry, in the residence whose head is newer; else a ring at
/// the first block.
pub open spec fn layout_of(disk: Seq<Seq<u8>>, ring: u8) -> core::result::Result<Layout, ErrorView> {
    let n = pow2(ring as nat);
    match root_on(disk) {
        Some(r) => if !r.sane() {
            Err(error::corrupt("root entry names residences out of range"))
        } else {
            let at = best(disk, r.at as int, ring, n);
            let was = best(disk, r.was as int, ring, n);
            let stays = age(at) >= age(was);
            Ok(
                Layout {
                    spine: if stays {
                        r.at
                    } else {
                        r.was
                    },
                    tract: r.band() as u64,
                    rooted: true,
                    top: if stays {
                        at
                    } else {
                        was
                    },
                },
            )
        },
        None => Ok(
            Layout { spine: 0, tract: n as u64, rooted: false, top: best(disk, 0, ring, n) },
        ),
    }
}

/// The addresses `from`, `from + 1`, up to `n` of them.
pub open spec fn run(from: int, n: nat) -> Seq<int> {
    Seq::new(n, |i: int| from + i)
}

/// The addresses of a disk's root slots and spine.
pub open spec fn frame_of(l: Layout, ring: u8) -> Seq<int> {
    (if l.rooted {
        run(0, 4)
    } else {
        Seq::<int>::empty()
    }) + run(l.spine as int, pow2(ring as nat))
}

/// The addresses of the blocks that a disk's head commits to.
pub open spec fn live_of(disk: Seq<Seq<u8>>, l: Layout) -> core::result::Result<
    Seq<int>,
    ErrorView,
> {
    match l.top {
        None => Ok(Seq::<int>::empty()),
        Some((_, e)) => match survey::survey_root(
            tract::ground(disk, l.tract as int, e.tract as nat),
            hamt::root_slot(e.hamt, e.hamtat),
            false,
        ) {
            Err(e) => Err(e),
            Ok(s) => Ok(s.live.map_values(|m: (u64, Seq<u8>)| l.tract + m.0)),
        },
    }
}

// ---------------------------------------------------------------- copying

/// `d` with the blocks at `xs` as `s` has them.
pub open spec fn synced(s: Seq<Seq<u8>>, d: Seq<Seq<u8>>, xs: Seq<int>) -> Seq<Seq<u8>>
    decreases xs.len(),
{
    if xs.len() == 0 {
        d
    } else {
        synced(s, d, xs.drop_last()).update(xs.last(), s[xs.last()])
    }
}

/// How many blocks differ when they are brought into step one after the other.
pub open spec fn strays(s: Seq<Seq<u8>>, d: Seq<Seq<u8>>, xs: Seq<int>) -> nat
    decreases xs.len(),
{
    if xs.len() == 0 {
        0
    } else {
        strays(s, d, xs.drop_last()) + (if synced(s, d, xs.drop_last())[xs.last()] != s[xs.last()] {
            1nat
        } else {
            0nat
        })
    }
}

/// Whether `now` is `was` but for the blocks at `xs`.
pub open spec fn spared(was: Seq<Seq<u8>>, now: Seq<Seq<u8>>, xs: Seq<int>) -> bool {
    &&& now.len() == was.len()
    &&& forall|i: int| 0 <= i < was.len() && !xs.contains(i) ==> #[trigger] now[i] == was[i]
}


proof fn lemma_synced(s: Seq<Seq<u8>>, d: Seq<Seq<u8>>, xs: Seq<int>)
    requires
        forall|i: int| 0 <= i < xs.len() ==> 0 <= #[trigger] xs[i] < d.len(),
    ensures
        spared(d, synced(s, d, xs), xs),
        forall|i: int|
            0 <= i < d.len() && #[trigger] xs.contains(i) ==> synced(s, d, xs)[i] == s[i],
        strays(s, d, xs) <= xs.len(),
    decreases xs.len(),
{
    if xs.len() > 0 {
        let ys = xs.drop_last();
        let x = xs.last();
        assert forall|i: int| 0 <= i < ys.len() implies 0 <= #[trigger] ys[i] < d.len() by {
            assert(ys[i] == xs[i]);
        }
        lemma_synced(s, d, ys);
        assert(xs =~= ys.push(x));
        assert forall|i: int| xs.contains(i) <==> ys.contains(i) || i == x by {
            if xs.contains(i) && i != x {
                let j = choose|j: int| 0 <= j < xs.len() && xs[j] == i;
                assert(ys[j] == i);
            }
            if ys.contains(i) {
                let j = choose|j: int| 0 <= j < ys.len() && ys[j] == i;
                assert(xs[j] == i);
            }
            assert(xs[xs.len() - 1] == x);
        }
        assert forall|i: int|
            0 <= i < d.len() && #[trigger] xs.contains(i) implies synced(s, d, xs)[i] == s[i] by {
            if i != x {
                assert(ys.contains(i));
            }
        }
        assert forall|i: int| 0 <= i < d.len() && !xs.contains(i) implies #[trigger] synced(
            s,
            d,
            xs,
        )[i] == d[i] by {
            assert(!ys.contains(i));
            assert(synced(s, d, ys)[i] == d[i]);
        }
    }
}

proof fn lemma_synced_more(s: Seq<Seq<u8>>, d: Seq<Seq<u8>>, xs: Seq<int>, x: int)
    ensures
        synced(s, d, xs.push(x)) == synced(s, d, xs).update(x, s[x]),
        strays(s, d, xs.push(x)) == strays(s, d, xs) + (if synced(s, d, xs)[x] != s[x] {
            1nat
        } else {
            0nat
        }),
{
    assert(xs.push(x).drop_last() =~= xs);
}

proof fn lemma_synced_twice(s: Seq<Seq<u8>>, d: Seq<Seq<u8>>, xs: Seq<int>, ys: Seq<int>)
    ensures
        synced(s, synced(s, d, xs), ys) == synced(s, d, xs + ys),
        strays(s, d, xs) + strays(s, synced(s, d, xs), ys) == strays(s, d, xs + ys),
    decreases ys.len(),
{
    if ys.len() == 0 {
        assert(xs + ys =~= xs);
    } else {
        lemma_synced_twice(s, d, xs, ys.drop_last());
        assert((xs + ys).drop_last() =~= xs + ys.drop_last());
        assert((xs + ys).last() == ys.last());
    }
}

/// Brings one block into step; whether it differed.
fn sync_block<S: BlockDev, D: BlockDev>(
    src: &mut S,
    dst: &mut D,
    addr: u64,
    sbuf: &mut Block,
    dbuf: &mut Block,
) -> (r: Result<bool>)
    ensures
        (*final(src)).disk() == (*old(src)).disk(),
        (*final(src)).reliable() == (*old(src)).reliable(),
        (*final(dst)).reliable() == (*old(dst)).reliable(),
        block::only_changed((*old(dst)).disk(), (*final(dst)).disk(), addr as int),
        r matches Ok(b) ==> {
            &&& addr < (*old(src)).disk().len()
            &&& addr < (*old(dst)).disk().len()
            &&& (*final(dst)).disk() == (*old(dst)).disk().update(
                addr as int,
                (*old(src)).disk()[addr as int],
            )
            &&& b == ((*old(dst)).disk()[addr as int] != (*old(src)).disk()[addr as int])
        },
        r matches Err(e) ==> block::device_error(e@),
        (*old(src)).reliable() && (*old(dst)).reliable() && addr < (*old(src)).disk().len() && addr
            < (*old(dst)).disk().len() ==> r is Ok,
{
    let ghost d = (*dst).disk();
    src.read(addr, sbuf)?;
    dst.read(addr, dbuf)?;
    if same_block(sbuf, dbuf) {
        assert(d.update(addr as int, sbuf@) =~= d);
        return Ok(false);
    }
    write_one(dst, addr, sbuf, dbuf)?;
    Ok(true)
}

/// Brings a run of blocks into step; how many differed.
fn sync_run<S: BlockDev, D: BlockDev>(src: &mut S, dst: &mut D, from: u64, count: u64) -> (r: Result<
    u64,
>)
    requires
        from + count <= u64::MAX,
    ensures
        (*final(src)).disk() == (*old(src)).disk(),
        (*final(src)).reliable() == (*old(src)).reliable(),
        (*final(dst)).reliable() == (*old(dst)).reliable(),
        spared((*old(dst)).disk(), (*final(dst)).disk(), run(from as int, count as nat)),
        r matches Ok(n) ==> {
            &&& count > 0 ==> from + count <= (*old(src)).disk().len()
            &&& (*final(dst)).disk() == synced(
                (*old(src)).disk(),
                (*old(dst)).disk(),
                run(from as int, count as nat),
            )
            &&& n == strays((*old(src)).disk(), (*old(dst)).disk(), run(from as int, count as nat))
            &&& n <= count
        },
        r matches Err(e) ==> block::device_error(e@),
        (*old(src)).reliable() && (*old(dst)).reliable() && from + count <= (*old(src)).disk().len()
            && from + count <= (*old(dst)).disk().len() ==> r is Ok,
{
    let ghost s = (*src).disk();
    let ghost d = (*dst).disk();
    let mut sbuf = zero_block();
    let mut dbuf = zero_block();
    let mut copied: u64 = 0;
    let mut i: u64 = 0;
    let ghost whole = run(from as int, count as nat);
    assert(run(from as int, 0) =~= Seq::<int>::empty());
    while i < count
        invariant
            i <= count,
            from + count <= u64::MAX,
            whole == run(from as int, count as nat),
            s == (*old(src)).disk(),
            d == (*old(dst)).disk(),
            (*src).disk() == s,
            (*src).reliable() == (*old(src)).reliable(),
            (*dst).reliable() == (*old(dst)).reliable(),
            (*dst).disk() == synced(s, d, run(from as int, i as nat)),
            (*dst).disk().len() == d.len(),
            spared(d, (*dst).disk(), whole),
            i > 0 ==> from + i <= s.len(),
            copied == strays(s, d, run(from as int, i as nat)),
            copied <= i,
        decreases count - i,
    {
        let ghost was = run(from as int, i as nat);
        let ghost before = (*dst).disk();
        proof {
            assert(run(from as int, (i + 1) as nat) =~= was.push(from + i));
            assert(whole[i as int] == from + i);
            assert(whole.contains(from + i));
            lemma_synced_more(s, d, was, from + i);
        }
        match sync_block(src, dst, from + i, &mut sbuf, &mut dbuf) {
            Ok(b) => {
                if b {
                    copied = copied + 1;
                }
            },
            Err(e) => {
                return Err(e);
            },
        }
        i = i + 1;
    }
    Ok(copied)
}

/// Brings the blocks of a tract that a walk listed into step; how many differed.
fn sync_marks<S: BlockDev, D: BlockDev>(
    src: &mut S,
    dst: &mut D,
    base: u64,
    marks: &Vec<(u64, [u8; 32])>,
) -> (r: Result<u64>)
    requires
        forall|i: int| 0 <= i < marks@.len() ==> base + (#[trigger] marks@[i]).0 <= u64::MAX,
    ensures
        (*final(src)).disk() == (*old(src)).disk(),
        (*final(src)).reliable() == (*old(src)).reliable(),
        (*final(dst)).reliable() == (*old(dst)).reliable(),
        spared((*old(dst)).disk(), (*final(dst)).disk(), addresses(base, marks@, marks@.len())),
        r matches Ok(n) ==> {
            &&& forall|i: int|
                0 <= i < marks@.len() ==> base + (#[trigger] marks@[i]).0 < (*old(src)).disk().len()
            &&& (*final(dst)).disk() == synced(
                (*old(src)).disk(),
                (*old(dst)).disk(),
                addresses(base, marks@, marks@.len()),
            )
            &&& n == strays(
                (*old(src)).disk(),
                (*old(dst)).disk(),
                addresses(base, marks@, marks@.len()),
            )
        },
        r matches Err(e) ==> block::device_error(e@),
        (*old(src)).reliable() && (*old(dst)).reliable() && (forall|i: int|
            0 <= i < marks@.len() ==> base + (#[trigger] marks@[i]).0 < (*old(src)).disk().len()
                && base + marks@[i].0 < (*old(dst)).disk().len()) ==> r is Ok,
{
    let ghost s = (*src).disk();
    let ghost d = (*dst).disk();
    let mut sbuf = zero_block();
    let mut dbuf = zero_block();
    let mut copied: u64 = 0;
    let mut i: usize = 0;
    let ghost whole = addresses(base, marks@, marks@.len());
    assert(addresses(base, marks@, 0) =~= Seq::<int>::empty());
    while i < marks.len()
        invariant
            i <= marks@.len(),
            forall|j: int| 0 <= j < marks@.len() ==> base + (#[trigger] marks@[j]).0 <= u64::MAX,
            whole == addresses(base, marks@, marks@.len()),
            s == (*old(src)).disk(),
            d == (*old(dst)).disk(),
            (*src).disk() == s,
            (*src).reliable() == (*old(src)).reliable(),
            (*dst).reliable() == (*old(dst)).reliable(),
            (*dst).disk() == synced(s, d, addresses(base, marks@, i as nat)),
            (*dst).disk().len() == d.len(),
            spared(d, (*dst).disk(), whole),
            copied == strays(s, d, addresses(base, marks@, i as nat)),
            copied <= i,
            forall|j: int| 0 <= j < i ==> base + (#[trigger] marks@[j]).0 < s.len(),
        decreases marks@.len() - i,
    {
        let ghost was = addresses(base, marks@, i as nat);
        let addr: u64 = base + marks[i].0;
        proof {
            assert(addresses(base, marks@, (i + 1) as nat) =~= was.push(addr as int));
            assert(whole[i as int] == addr);
            assert(whole.contains(addr as int));
            lemma_synced_more(s, d, was, addr as int);
        }
        match sync_block(src, dst, addr, &mut sbuf, &mut dbuf) {
            Ok(b) => {
                if b {
                    copied = copied + 1;
                }
            },
            Err(e) => {
                return Err(e);
            },
        }
        i = i + 1;
    }
    Ok(copied)
}

/// The addresses of the first `n` marks.
pub open spec fn addresses(base: u64, marks: Seq<(u64, [u8; 32])>, n: nat) -> Seq<int> {
    Seq::new(n, |i: int| base + marks[i].0)
}

// ---------------------------------------------------------------- the pass

struct DeviceLayout {
    spine_base: u64,
    tract_base: u64,
    has_root: bool,
    top: Option<(u64, SpineEntry)>,
}

impl View for DeviceLayout {
    type V = Layout;

    closed spec fn view(&self) -> Layout {
        Layout {
            spine: self.spine_base,
            tract: self.tract_base,
            rooted: self.has_root,
            top: ring::head_view(self.top),
        }
    }
}

/// Slots past the end of a disk hold nothing newer.
pub proof fn lemma_best_short(disk: Seq<Seq<u8>>, base: int, ring: u8, m: nat, n: nat)
    requires
        m <= n,
        0 <= base,
        base + m >= disk.len(),
    ensures
        best(disk, base, ring, n) == best(disk, base, ring, m),
    decreases n,
{
    if n > m {
        lemma_best_short(disk, base, ring, m, (n - 1) as nat);
    }
}

/// What a scan finds is the newest entry.
pub proof fn lemma_best_newest(disk: Seq<Seq<u8>>, base: int, ring: u8, n: nat)
    requires
        n <= u64::MAX,
    ensures
        ring::is_newest(disk, base, ring, 0, n - 1, best(disk, base, ring, n)),
    decreases n,
{
    if n > 0 {
        lemma_best_newest(disk, base, ring, (n - 1) as nat);
        let b = best(disk, base, ring, (n - 1) as nat);
        let x = best(disk, base, ring, n);
        if let Some((slot, e)) = x {
            assert(ring::class_at(disk, base, ring, slot as int) == ClassView::Valid(e));
            assert forall|t: int|
                0 <= t <= n - 1 implies ((#[trigger] ring::class_at(
                disk,
                base,
                ring,
                t,
            )) matches ClassView::Valid(f) ==> f.gen <= e.gen) by {
                if t < n - 1 && b is None {
                    assert(ring::barren(disk, base, ring, 0, n - 2));
                }
            }
        }
    }
}

/// The newest entry of one spine residence, by a full scan: simpler than a search, and replication is
/// rare.
fn best_gen<D: BlockDev>(dev: &mut D, n: u64, ring_log2: u8, base: u64) -> (r: Result<
    Option<(u64, SpineEntry)>,
>)
    requires
        ring_log2 < 64,
        n == pow2(ring_log2 as nat),
    ensures
        (*final(dev)).disk() == (*old(dev)).disk(),
        (*final(dev)).reliable() == (*old(dev)).reliable(),
        (*final(dev)).limit() == (*old(dev)).limit(),
        r matches Ok(x) ==> ring::head_view(x) == best(
            (*old(dev)).disk(),
            base as int,
            ring_log2,
            n as nat,
        ),
        r matches Ok(x) ==> ring::is_newest(
            (*old(dev)).disk(),
            base as int,
            ring_log2,
            0,
            n - 1,
            ring::head_view(x),
        ),
        r matches Err(e) ==> block::device_error(e@),
        (*old(dev)).reliable() ==> r is Ok,
{
    let ghost d = (*dev).disk();
    let mut top: Option<(u64, SpineEntry)> = None;
    let mut buf = zero_block();
    let all: u64 = dev.block_count();
    let left: u64 = all.saturating_sub(base);
    let count: u64 = if left < n {
        left
    } else {
        n
    };
    let mut slot: u64 = 0;
    while slot < count
        invariant
            slot <= count,
            count <= n,
            count > 0 ==> base + count <= d.len(),
            d.len() <= u64::MAX,
            d == (*old(dev)).disk(),
            (*dev).disk() == d,
            (*dev).reliable() == (*old(dev)).reliable(),
            (*dev).limit() == (*old(dev)).limit(),
            ring::head_view(top) == best(d, base as int, ring_log2, slot as nat),
        decreases count - slot,
    {
        dev.read(base + slot, &mut buf)?;
        if let Classified::Valid(e) = classify(&buf, slot, Some(ring_log2)) {
            let newer = match &top {
                Some(x) => e.gen > x.1.gen,
                None => true,
            };
            if newer {
                top = Some((slot, e));
            }
        }
        slot = slot + 1;
    }
    proof {
        if count < n {
            lemma_best_short(d, base as int, ring_log2, count as nat, n as nat);
        }
        lemma_best_newest(d, base as int, ring_log2, n as nat);
    }
    Ok(top)
}

/// The generation of a found head.
fn gen_of(top: &Option<(u64, SpineEntry)>) -> (g: Option<u64>)
    ensures
        match g {
            Some(x) => age(ring::head_view(*top)) == x,
            None => age(ring::head_view(*top)) == -1,
        },
{
    match top {
        Some(x) => Some(x.1.gen),
        None => None,
    }
}

/// Whether the first of two heads is no older.
fn no_older(a: &Option<(u64, SpineEntry)>, b: &Option<(u64, SpineEntry)>) -> (r: bool)
    ensures
        r == (age(ring::head_view(*a)) >= age(ring::head_view(*b))),
{
    match (gen_of(a), gen_of(b)) {
        (Some(x), Some(y)) => x >= y,
        (None, Some(_)) => false,
        (_, None) => true,
    }
}

/// The layout of one device: by its root entry, in the residence that holds the newer head, or a
/// ring at the first block.
fn resolve_layout<D: BlockDev>(dev: &mut D, ring_log2: u8) -> (r: Result<DeviceLayout>)
    requires
        ring_log2 < 64,
    ensures
        (*final(dev)).disk() == (*old(dev)).disk(),
        (*final(dev)).reliable() == (*old(dev)).reliable(),
        (*final(dev)).limit() == (*old(dev)).limit(),
        match r {
            Ok(l) => layout_of((*old(dev)).disk(), ring_log2) == Ok::<Layout, ErrorView>(l@),
            Err(e) => block::device_error(e@) && (layout_of((*old(dev)).disk(), ring_log2) == Err::<
                Layout,
                ErrorView,
            >(e@) || !(*old(dev)).reliable()),
        },
{
    let ghost d = (*dev).disk();
    let n: u64 = slot_count(ring_log2);
    let found = read_root(dev)?;
    proof {
        let x = match found {
            Some(e) => Some(e@),
            None => None::<RootView>,
        };
        assert(root::is_newest_root(d, x));
        mooring::lemma_one_root(d, x, root_on(d));
    }
    match found {
        Some(root) => {
            if !root.is_sane() {
                return Err(corrupt_err("root entry names residences out of range"));
            }
            let m: u64 = slot_count(root.ring_log2);
            assert(root.residences * m + 4 == root@.band());
            let band: u64 = root.residences * m + 4;
            let at = best_gen(dev, n, ring_log2, root.at)?;
            let was = best_gen(dev, n, ring_log2, root.was)?;
            if no_older(&at, &was) {
                Ok(DeviceLayout { spine_base: root.at, tract_base: band, has_root: true, top: at })
            } else {
                Ok(DeviceLayout { spine_base: root.was, tract_base: band, has_root: true, top: was })
            }
        },
        None => {
            let top = best_gen(dev, n, ring_log2, 0)?;
            Ok(DeviceLayout { spine_base: 0, tract_base: n, has_root: false, top })
        },
    }
}

/// What a winner cannot be replicated for, whatever its device does.
pub open spec fn refusal(s: Seq<Seq<u8>>, ring: u8) -> Option<ErrorView> {
    match layout_of(s, ring) {
        Err(e) => Some(e),
        Ok(l) => if l.spine + pow2(ring as nat) > u64::MAX {
            Some(error::corrupt("ring out of range"))
        } else {
            match l.top {
                None => None,
                Some((_, e)) => if l.tract + e.tract > u64::MAX {
                    Some(error::corrupt("committed geometry is out of range"))
                } else {
                    match live_of(s, l) {
                        Err(e) => Some(e),
                        Ok(_) => None,
                    }
                },
            }
        },
    }
}

/// The addresses that a pass brings into step.
pub open spec fn scope(s: Seq<Seq<u8>>, ring: u8) -> Seq<int> {
    match layout_of(s, ring) {
        Err(_) => Seq::<int>::empty(),
        Ok(l) => match live_of(s, l) {
            Err(_) => frame_of(l, ring),
            Ok(xs) => frame_of(l, ring) + xs,
        },
    }
}

/// Whether the loser `d`, as it is now, is the loser grown to the winner's size with the winner's
/// blocks at every address in scope; and the counts are those of the blocks that differed.
pub open spec fn converged(
    s: Seq<Seq<u8>>,
    d: Seq<Seq<u8>>,
    now: Seq<Seq<u8>>,
    ring: u8,
    out: Replicated,
) -> bool {
    exists|g: Seq<Seq<u8>>| #[trigger] converged_from(s, d, g, now, ring, out)
}

/// `converged`, of the loser as it was once grown.
pub open spec fn converged_from(
    s: Seq<Seq<u8>>,
    d: Seq<Seq<u8>>,
    g: Seq<Seq<u8>>,
    now: Seq<Seq<u8>>,
    ring: u8,
    out: Replicated,
) -> bool {
    &&& refusal(s, ring) is None
    &&& g == block::longer(d, s.len())
    &&& now == synced(s, g, scope(s, ring))
    &&& out.spine_copied == strays(s, g, frame_of(layout_of(s, ring)->Ok_0, ring))
    &&& out.spine_copied + out.tract_copied == strays(s, g, scope(s, ring))
    &&& forall|i: int| 0 <= i < scope(s, ring).len() ==> 0 <= #[trigger] scope(s, ring)[i] < s.len()
}

/// Whether a pass kept its hands off everything that is not in scope.
pub open spec fn left_alone(
    s: Seq<Seq<u8>>,
    d: Seq<Seq<u8>>,
    now: Seq<Seq<u8>>,
    ring: u8,
) -> bool {
    &&& now.len() >= d.len()
    &&& forall|i: int|
        0 <= i < d.len() && !scope(s, ring).contains(i) ==> #[trigger] now[i] == d[i]
}

/// Whether nothing but the devices can keep a pass from its end, to a device that can have `limit`
/// blocks.
pub open spec fn replicable(s: Seq<Seq<u8>>, d: Seq<Seq<u8>>, limit: nat, ring: u8) -> bool {
    &&& refusal(s, ring) is None
    &&& s.len() <= d.len() || s.len() <= limit
    &&& layout_of(s, ring) matches Ok(l) && l.spine + pow2(ring as nat) <= s.len() && (
    l.top matches Some((_, e)) ==> l.tract + e.tract <= s.len())
}

proof fn lemma_contains_sum(xs: Seq<int>, ys: Seq<int>, i: int)
    ensures
        (xs + ys).contains(i) <==> xs.contains(i) || ys.contains(i),
{
    let zs = xs + ys;
    if xs.contains(i) {
        let j = choose|j: int| 0 <= j < xs.len() && xs[j] == i;
        assert(zs[j] == i);
    }
    if ys.contains(i) {
        let j = choose|j: int| 0 <= j < ys.len() && ys[j] == i;
        assert(zs[xs.len() + j] == i);
    }
    if zs.contains(i) {
        let j = choose|j: int| 0 <= j < zs.len() && zs[j] == i;
        if j < xs.len() {
            assert(xs[j] == i);
        } else {
            assert(ys[j - xs.len()] == i);
        }
    }
}

/// What was left alone by one copy and by the next was left alone by both.
proof fn lemma_spared_twice(
    d: Seq<Seq<u8>>,
    m: Seq<Seq<u8>>,
    now: Seq<Seq<u8>>,
    xs: Seq<int>,
    ys: Seq<int>,
    zs: Seq<int>,
)
    requires
        spared(d, m, xs),
        spared(m, now, ys),
        forall|i: int| xs.contains(i) || ys.contains(i) ==> #[trigger] zs.contains(i),
    ensures
        spared(d, now, zs),
{
    assert forall|i: int| 0 <= i < d.len() && !zs.contains(i) implies #[trigger] now[i] == d[i] by {
        assert(m[i] == d[i]);
    }
}

/// Brings the root slots and the spine into step.
fn sync_frame<S: BlockDev, D: BlockDev>(
    src: &mut S,
    dst: &mut D,
    layout: &DeviceLayout,
    ring_log2: u8,
    n: u64,
) -> (r: Result<u64>)
    requires
        ring_log2 < 64,
        n == pow2(ring_log2 as nat),
        layout@.spine + n <= u64::MAX,
        layout@.rooted ==> layout@.spine >= 4,
    ensures
        (*final(src)).disk() == (*old(src)).disk(),
        (*final(src)).reliable() == (*old(src)).reliable(),
        (*final(dst)).reliable() == (*old(dst)).reliable(),
        spared((*old(dst)).disk(), (*final(dst)).disk(), frame_of(layout@, ring_log2)),
        r matches Ok(c) ==> {
            &&& layout@.spine + n <= (*old(src)).disk().len()
            &&& (*final(dst)).disk() == synced(
                (*old(src)).disk(),
                (*old(dst)).disk(),
                frame_of(layout@, ring_log2),
            )
            &&& c == strays(
                (*old(src)).disk(),
                (*old(dst)).disk(),
                frame_of(layout@, ring_log2),
            )
        },
        r matches Err(e) ==> block::device_error(e@),
        (*old(src)).reliable() && (*old(dst)).reliable() && layout@.spine + n
            <= (*old(src)).disk().len() && layout@.spine + n <= (*old(dst)).disk().len() ==> r is Ok,
{
    let ghost s = (*src).disk();
    let ghost d = (*dst).disk();
    let ghost low = if layout@.rooted {
        run(0, 4)
    } else {
        Seq::<int>::empty()
    };
    let ghost high = run(layout@.spine as int, n as nat);
    let mut copied: u64 = 0;
    proof {
        assert forall|i: int| low.contains(i) || high.contains(i) implies #[trigger] (low
            + high).contains(i) by {
            lemma_contains_sum(low, high, i);
        }
    }
    if layout.has_root {
        match sync_run(src, dst, 0, 4) {
            Ok(c) => {
                copied = c;
            },
            Err(e) => {
                proof {
                    lemma_spared_twice(d, (*dst).disk(), (*dst).disk(), low, high, low + high);
                }
                return Err(e);
            },
        }
    }
    let ghost m = (*dst).disk();
    assert(m == synced(s, d, low));
    let res = sync_run(src, dst, layout.spine_base, n);
    proof {
        lemma_spared_twice(d, m, (*dst).disk(), low, high, low + high);
        lemma_synced_twice(s, d, low, high);
    }
    match res {
        Ok(c) => {
            proof {
                lemma_pow2_pos(ring_log2 as nat);
            }
            assert(copied + n <= u64::MAX);
            Ok(copied + c)
        },
        Err(e) => Err(e),
    }
}

/// Walks what a head commits to, on one device.
fn walk_head<S: BlockDev>(src: &mut S, base: u64, head: &SpineEntry) -> (r: Result<Lists>)
    requires
        base + head@.tract <= u64::MAX,
    ensures
        (*final(src)).disk() == (*old(src)).disk(),
        (*final(src)).reliable() == (*old(src)).reliable(),
        match r {
            Ok(l) => survey::survey_root(
                tract::ground((*old(src)).disk(), base as int, head@.tract as nat),
                hamt::root_slot(head@.hamt, head@.hamtat),
                false,
            ) == Ok::<survey::Survey, ErrorView>(l@) && forall|i: int|
                0 <= i < l.live@.len() ==> (#[trigger] l.live@[i]).0 < head@.tract,
            Err(e) => survey::survey_root(
                tract::ground((*old(src)).disk(), base as int, head@.tract as nat),
                hamt::root_slot(head@.hamt, head@.hamtat),
                false,
            ) == Err::<survey::Survey, ErrorView>(e@) || (block::device_error(e@) && !(
            (*old(src)).reliable() && base + head@.tract <= (*old(src)).disk().len())),
        },
{
    let t = Tract {
        base,
        len: head.tract_blocks,
        plow: head.plow,
        reap: head.plow,
        fence_limit: None,
    };
    let ghost g = t.on((*src).disk());
    let mut lists = Lists::new();
    let zero = zero32();
    if !same32(&head.hamt_hash, &zero) {
        walk_device(src, &t, head.hamt_lba, &head.hamt_hash, zero, 0, &mut lists)?;
        proof {
            let s = survey::survey(g, head@.hamt, head@.hamtat, block::zeros32(), 0, false)->Ok_0;
            assert(lists@ =~= s);
            load::lemma_survey_true(g, head@.hamt, head@.hamtat, block::zeros32(), 0, false);
            assert forall|i: int| 0 <= i < lists.live@.len() implies (#[trigger] lists.live@[i]).0
                < head@.tract by {
                assert(s.live[i].0 == lists.live@[i].0);
            }
        }
    }
    Ok(lists)
}

/// Brings the loser into step with the winner.
fn replicate_into<S: BlockDev, D: BlockDev>(src: &mut S, dst: &mut D, ring_log2: u8) -> (r: Result<
    Replicated,
>)
    requires
        ring_log2 < 64,
    ensures
        (*final(src)).disk() == (*old(src)).disk(),
        (*final(src)).reliable() == (*old(src)).reliable(),
        (*final(dst)).reliable() == (*old(dst)).reliable(),
        left_alone((*old(src)).disk(), (*old(dst)).disk(), (*final(dst)).disk(), ring_log2),
        match r {
            Ok(out) => converged(
                (*old(src)).disk(),
                (*old(dst)).disk(),
                (*final(dst)).disk(),
                ring_log2,
                out,
            ),
            Err(e) => block::device_error(e@) || refusal((*old(src)).disk(), ring_log2) == Some(e@),
        },
        (*old(src)).reliable() && (*old(dst)).reliable() && replicable(
            (*old(src)).disk(),
            (*old(dst)).disk(),
            (*old(dst)).limit(),
            ring_log2,
        ) ==> r is Ok,
{
    let ghost s = (*src).disk();
    let ghost d = (*dst).disk();
    let n: u64 = slot_count(ring_log2);
    let need: u64 = src.block_count();
    if dst.block_count() < need {
        dst.grow(need)?;
    }
    let ghost g = (*dst).disk();
    proof {
        assert(g =~= block::longer(d, s.len()));
    }
    let layout = resolve_layout(src, ring_log2)?;
    proof {
        lemma_pow2_pos(ring_log2 as nat);
    }
    if n > u64::MAX - layout.spine_base {
        return Err(corrupt_err("ring out of range"));
    }
    let ghost frame = frame_of(layout@, ring_log2);
    let ghost all = scope(s, ring_log2);
    let ghost live = live_of(s, layout@);
    proof {
        assert forall|i: int| frame.contains(i) implies #[trigger] all.contains(i) by {
            if live is Ok {
                lemma_contains_sum(frame, live->Ok_0, i);
            }
        }
    }
    let spine_copied = sync_frame(src, dst, &layout, ring_log2, n)?;
    let ghost m = (*dst).disk();
    let mut tract_copied: u64 = 0;
    match &layout.top {
        None => {
            assert(all =~= frame);
        },
        Some(top) => {
            let head: &SpineEntry = &top.1;
            let base: u64 = layout.tract_base;
            if head.tract_blocks > u64::MAX - base {
                return Err(corrupt_err("committed geometry is out of range"));
            }
            let lists = walk_head(src, base, head)?;
            let ghost xs = live->Ok_0;
            proof {
                assert(addresses(base, lists.live@, lists.live@.len()) =~= xs);
                assert forall|i: int| xs.contains(i) implies #[trigger] all.contains(i) by {
                    lemma_contains_sum(frame, xs, i);
                }
            }
            let res = sync_marks(src, dst, base, &lists.live);
            proof {
                lemma_spared_twice(g, m, (*dst).disk(), frame, xs, all);
                lemma_synced_twice(s, g, frame, xs);
            }
            tract_copied = res?;
        },
    }
    let out = Replicated { spine_copied, tract_copied };
    proof {
        lemma_scope_within(s, ring_log2, layout@, n as nat, live->Ok_0);
        assert(converged_from(s, d, g, (*dst).disk(), ring_log2, out));
    }
    Ok(out)
}

/// Mirror resync: the device whose newest entry is newer wins, the first where they are as new, and
/// the other one is brought into step with it. Each device is read by its own root entry, so a
/// crash in the middle of a migration on one of them still converges.
pub fn verified_replicate<A: BlockDev, B: BlockDev>(a: &mut A, b: &mut B, ring_log2: u8) -> (r:
    Result<Replicated>)
    requires
        ring_log2 < 64,
    ensures
        (*final(a)).reliable() == (*old(a)).reliable(),
        (*final(b)).reliable() == (*old(b)).reliable(),
        match (layout_of((*old(a)).disk(), ring_log2), layout_of((*old(b)).disk(), ring_log2)) {
            (Ok(la), Ok(lb)) => if age(la.top) >= age(lb.top) {
                &&& (*final(a)).disk() == (*old(a)).disk()
                &&& left_alone((*old(a)).disk(), (*old(b)).disk(), (*final(b)).disk(), ring_log2)
                &&& match r {
                    Ok(out) => converged(
                        (*old(a)).disk(),
                        (*old(b)).disk(),
                        (*final(b)).disk(),
                        ring_log2,
                        out,
                    ),
                    Err(e) => block::device_error(e@) || refusal((*old(a)).disk(), ring_log2)
                        == Some(e@),
                }
                &&& (*old(a)).reliable() && (*old(b)).reliable() && replicable(
                    (*old(a)).disk(),
                    (*old(b)).disk(),
                    (*old(b)).limit(),
                    ring_log2,
                ) ==> r is Ok
            } else {
                &&& (*final(b)).disk() == (*old(b)).disk()
                &&& left_alone((*old(b)).disk(), (*old(a)).disk(), (*final(a)).disk(), ring_log2)
                &&& match r {
                    Ok(out) => converged(
                        (*old(b)).disk(),
                        (*old(a)).disk(),
                        (*final(a)).disk(),
                        ring_log2,
                        out,
                    ),
                    Err(e) => block::device_error(e@) || refusal((*old(b)).disk(), ring_log2)
                        == Some(e@),
                }
                &&& (*old(a)).reliable() && (*old(b)).reliable() && replicable(
                    (*old(b)).disk(),
                    (*old(a)).disk(),
                    (*old(a)).limit(),
                    ring_log2,
                ) ==> r is Ok
            },
            (_, _) => {
                &&& (*final(a)).disk() == (*old(a)).disk()
                &&& (*final(b)).disk() == (*old(b)).disk()
                &&& r matches Err(e) && block::device_error(e@)
            },
        },
        layout_of((*old(a)).disk(), ring_log2) matches Ok(la) ==> layout_of(
            (*old(b)).disk(),
            ring_log2,
        ) matches Ok(lb) ==> {
            &&& la.top is None && lb.top is Some ==> (*final(b)).disk() == (*old(b)).disk()
            &&& lb.top is None ==> (*final(a)).disk() == (*old(a)).disk()
            &&& la.top matches Some((_, x)) ==> lb.top matches Some((_, y)) ==> {
                &&& x.gen < y.gen ==> (*final(b)).disk() == (*old(b)).disk() && (r is Ok
                    ==> headed((*final(a)).disk(), lb.spine as int, ring_log2, y))
                &&& x.gen >= y.gen ==> (*final(a)).disk() == (*old(a)).disk() && (r is Ok
                    ==> headed((*final(b)).disk(), la.spine as int, ring_log2, x))
            }
        },
{
    proof {
        assert forall|s: Seq<Seq<u8>>, d: Seq<Seq<u8>>, now: Seq<Seq<u8>>, out: Replicated|
            #[trigger] converged(s, d, now, ring_log2, out) && (layout_of(s, ring_log2)->Ok_0).top
                is Some implies headed(
            now,
            (layout_of(s, ring_log2)->Ok_0).spine as int,
            ring_log2,
            ((layout_of(s, ring_log2)->Ok_0).top->0).1,
        ) by {
            law_loser_takes_the_winners_head(s, d, now, ring_log2, out);
        }
    }
    let la = resolve_layout(a, ring_log2)?;
    let lb = resolve_layout(b, ring_log2)?;
    if no_older(&la.top, &lb.top) {
        replicate_into(a, b, ring_log2)
    } else {
        replicate_into(b, a, ring_log2)
    }
}

/// The addresses in scope lie on the disk.
proof fn lemma_scope_within(s: Seq<Seq<u8>>, ring: u8, l: Layout, n: nat, xs: Seq<int>)
    requires
        layout_of(s, ring) == Ok::<Layout, ErrorView>(l),
        live_of(s, l) == Ok::<Seq<int>, ErrorView>(xs),
        n == pow2(ring as nat),
        l.spine + n <= s.len(),
        forall|i: int| 0 <= i < xs.len() ==> 0 <= #[trigger] xs[i] < s.len(),
    ensures
        forall|i: int|
            0 <= i < scope(s, ring).len() ==> 0 <= #[trigger] scope(s, ring)[i] < s.len(),
{
    let frame = frame_of(l, ring);
    let all = scope(s, ring);
    assert forall|i: int| 0 <= i < all.len() implies 0 <= #[trigger] all[i] < s.len() by {
        if i >= frame.len() {
            assert(all[i] == xs[i - frame.len()]);
        }
    }
}

// ---------------------------------------------------------------- laws

/// What a pass leaves at the addresses in scope.
proof fn lemma_in_step(
    s: Seq<Seq<u8>>,
    d: Seq<Seq<u8>>,
    now: Seq<Seq<u8>>,
    ring: u8,
    out: Replicated,
)
    requires
        converged(s, d, now, ring, out),
    ensures
        now.len() >= s.len(),
        forall|i: int| #[trigger] scope(s, ring).contains(i) ==> 0 <= i < s.len() && now[i] == s[i],
{
    let g = choose|g: Seq<Seq<u8>>| #[trigger] converged_from(s, d, g, now, ring, out);
    let all = scope(s, ring);
    lemma_synced(s, g, all);
    assert forall|i: int| #[trigger] all.contains(i) implies 0 <= i < s.len() && now[i] == s[i] by {
        let j = choose|j: int| 0 <= j < all.len() && all[j] == i;
        assert(0 <= all[j] < s.len());
    }
}

/// Blocks that agree already are not copied.
proof fn lemma_nothing_strays(s: Seq<Seq<u8>>, d: Seq<Seq<u8>>, xs: Seq<int>)
    requires
        forall|i: int| 0 <= i < xs.len() ==> 0 <= (#[trigger] xs[i]) < d.len() && d[xs[i]]
            == s[xs[i]],
    ensures
        synced(s, d, xs) == d,
        strays(s, d, xs) == 0,
    decreases xs.len(),
{
    if xs.len() > 0 {
        let ys = xs.drop_last();
        assert forall|i: int| 0 <= i < ys.len() implies 0 <= (#[trigger] ys[i]) < d.len()
            && d[ys[i]] == s[ys[i]] by {
            assert(ys[i] == xs[i]);
        }
        lemma_nothing_strays(s, d, ys);
        assert(xs.last() == xs[xs.len() - 1]);
        assert(d.update(xs.last(), s[xs.last()]) =~= d);
    }
}

/// Law: replication is idempotent: a second pass finds nothing to copy and changes nothing.
pub proof fn law_replication_is_idempotent(
    s: Seq<Seq<u8>>,
    d: Seq<Seq<u8>>,
    now: Seq<Seq<u8>>,
    again: Seq<Seq<u8>>,
    ring: u8,
    out: Replicated,
    more: Replicated,
)
    requires
        converged(s, d, now, ring, out),
        converged(s, now, again, ring, more),
    ensures
        again == now,
        more.spine_copied == 0,
        more.tract_copied == 0,
{
    lemma_in_step(s, d, now, ring, out);
    let g = choose|g: Seq<Seq<u8>>| #[trigger] converged_from(s, now, g, again, ring, more);
    assert(g =~= now);
    let all = scope(s, ring);
    let frame = frame_of(layout_of(s, ring)->Ok_0, ring);
    assert forall|i: int| 0 <= i < all.len() implies 0 <= (#[trigger] all[i]) < now.len()
        && now[all[i]] == s[all[i]] by {
        assert(all.contains(all[i]));
    }
    lemma_nothing_strays(s, now, all);
}

/// Law: after a pass the loser's spine says what the winner's says, slot by slot.
pub proof fn law_replica_has_the_same_spine(
    s: Seq<Seq<u8>>,
    d: Seq<Seq<u8>>,
    now: Seq<Seq<u8>>,
    ring: u8,
    out: Replicated,
    slot: int,
)
    requires
        converged(s, d, now, ring, out),
        0 <= slot < pow2(ring as nat),
    ensures
        layout_of(s, ring) matches Ok(l) && ring::class_at(now, l.spine as int, ring, slot)
            == ring::class_at(s, l.spine as int, ring, slot),
{
    lemma_in_step(s, d, now, ring, out);
    let l = layout_of(s, ring)->Ok_0;
    let frame = frame_of(l, ring);
    let high = run(l.spine as int, pow2(ring as nat));
    assert(high[slot] == l.spine + slot);
    assert(high.contains(l.spine + slot));
    let low = if l.rooted {
        run(0, 4)
    } else {
        Seq::<int>::empty()
    };
    lemma_contains_sum(low, high, l.spine + slot);
    if live_of(s, l) is Ok {
        lemma_contains_sum(frame, live_of(s, l)->Ok_0, l.spine + slot);
    }
    assert(scope(s, ring).contains(l.spine + slot));
}

/// Whether the ring at `base` holds an entry, and none of a later generation.
pub open spec fn headed(disk: Seq<Seq<u8>>, base: int, ring: u8, e: SpineView) -> bool {
    &&& exists|s: int|
        0 <= s < pow2(ring as nat) && #[trigger] ring::class_at(disk, base, ring, s)
            == ClassView::Valid(e)
    &&& forall|s: int|
        0 <= s < pow2(ring as nat) ==> ((#[trigger] ring::class_at(disk, base, ring, s)) matches
            ClassView::Valid(f) ==> f.gen <= e.gen)
}

/// Law: the head of a disk is the entry of the highest generation in its ring; and on the migrating layout
/// no residence that the root entry names holds a later one. A disk without a head holds no entry
/// there.
pub proof fn law_head_is_the_highest_generation(disk: Seq<Seq<u8>>, ring: u8, l: Layout)
    requires
        ring < 64,
        layout_of(disk, ring) == Ok::<Layout, ErrorView>(l),
    ensures
        l.top matches Some((s, e)) ==> {
            &&& headed(disk, l.spine as int, ring, e)
            &&& s < pow2(ring as nat)
            &&& ring::class_at(disk, l.spine as int, ring, s as int) == ClassView::Valid(e)
        },
        match root_on(disk) {
            None => l.spine == 0 && !l.rooted && l.tract == pow2(ring as nat) && forall|s: int|
                0 <= s < pow2(ring as nat) && (#[trigger] ring::class_at(disk, 0, ring, s)) is Valid
                    ==> l.top is Some,
            Some(r) => {
                &&& l.rooted
                &&& l.tract == 4 + r.residences * pow2(r.ring as nat)
                &&& l.spine == r.at || l.spine == r.was
                &&& forall|s: int, base: int|
                    0 <= s < pow2(ring as nat) && (base == r.at || base == r.was) ==> ((
                    #[trigger] ring::class_at(disk, base, ring, s)) matches ClassView::Valid(f)
                        ==> l.top matches Some((_, e)) && f.gen <= e.gen)
            },
        },
{
    let n = pow2(ring as nat);
    vstd::bits::lemma_u64_pow2_no_overflow(ring as nat);
    match root_on(disk) {
        None => {
            lemma_best_newest(disk, 0, ring, n);
        },
        Some(r) => {
            lemma_best_newest(disk, r.at as int, ring, n);
            lemma_best_newest(disk, r.was as int, ring, n);
        },
    }
}

/// Law: the loser ends with the winner's head as its own: it holds that entry, and none of a later
/// generation.
pub proof fn law_loser_takes_the_winners_head(
    s: Seq<Seq<u8>>,
    d: Seq<Seq<u8>>,
    now: Seq<Seq<u8>>,
    ring: u8,
    out: Replicated,
)
    requires
        ring < 64,
        converged(s, d, now, ring, out),
    ensures
        layout_of(s, ring) matches Ok(l) && (l.top matches Some((_, e)) ==> headed(
            now,
            l.spine as int,
            ring,
            e,
        )),
{
    let l = layout_of(s, ring)->Ok_0;
    if l.top is Some {
        law_head_is_the_highest_generation(s, ring, l);
        assert forall|t: int| 0 <= t < pow2(ring as nat) implies #[trigger] ring::class_at(
            now,
            l.spine as int,
            ring,
            t,
        ) == ring::class_at(s, l.spine as int, ring, t) by {
            law_replica_has_the_same_spine(s, d, now, ring, out, t);
        }
        let (slot, e) = l.top->0;
        assert(ring::class_at(now, l.spine as int, ring, slot as int) == ClassView::Valid(e));
    }
}

/// Law: a pass copies the root slots, the spine and what the head commits to, and nothing else: a block of
/// the loser that is none of these stays as it was, and what it grew by is zeros.
pub proof fn law_nothing_else_is_copied(
    s: Seq<Seq<u8>>,
    d: Seq<Seq<u8>>,
    now: Seq<Seq<u8>>,
    ring: u8,
    out: Replicated,
    i: int,
)
    requires
        converged(s, d, now, ring, out),
        0 <= i < now.len(),
        layout_of(s, ring) matches Ok(l) && {
            &&& l.rooted ==> i >= 4
            &&& !(l.spine <= i < l.spine + pow2(ring as nat))
            &&& l.top matches Some((_, e)) ==> {
                let sv = survey::survey_root(
                    tract::ground(s, l.tract as int, e.tract as nat),
                    hamt::root_slot(e.hamt, e.hamtat),
                    false,
                );
                forall|j: int|
                    0 <= j < (sv->Ok_0).live.len() ==> l.tract + (#[trigger] (sv->Ok_0).live[j]).0
                        != i
            }
        },
    ensures
        i < d.len() ==> now[i] == d[i],
        i >= d.len() ==> now[i] == block::zeros(),
        now.len() == (if d.len() < s.len() {
            s.len()
        } else {
            d.len()
        }),
{
    let g = choose|g: Seq<Seq<u8>>| #[trigger] converged_from(s, d, g, now, ring, out);
    let l = layout_of(s, ring)->Ok_0;
    let all = scope(s, ring);
    lemma_synced(s, g, all);
    assert(!all.contains(i)) by {
        if all.contains(i) {
            let frame = frame_of(l, ring);
            let j = choose|j: int| 0 <= j < all.len() && all[j] == i;
            if j >= frame.len() {
                let xs = live_of(s, l)->Ok_0;
                assert(xs[j - frame.len()] == i);
                if let Some((_, e)) = l.top {
                    let sv = survey::survey_root(
                        tract::ground(s, l.tract as int, e.tract as nat),
                        hamt::root_slot(e.hamt, e.hamtat),
                        false,
                    )->Ok_0;
                    assert(l.tract + sv.live[j - frame.len()].0 == i);
                }
            } else {
                assert(frame[j] == i);
            }
        }
    }
}

/// Law: a pass that counts no copy changed nothing, and one that changed a block counts one.
pub proof fn law_copies_are_counted(
    s: Seq<Seq<u8>>,
    d: Seq<Seq<u8>>,
    now: Seq<Seq<u8>>,
    ring: u8,
    out: Replicated,
)
    requires
        converged(s, d, now, ring, out),
        s.len() <= d.len(),
    ensures
        out.spine_copied + out.tract_copied == 0 <==> now == d,
        out.spine_copied <= pow2(ring as nat) + 4,
{
    let g = choose|g: Seq<Seq<u8>>| #[trigger] converged_from(s, d, g, now, ring, out);
    assert(g =~= d);
    let all = scope(s, ring);
    lemma_strays_none(s, g, all);
    let frame = frame_of(layout_of(s, ring)->Ok_0, ring);
    assert forall|i: int| 0 <= i < frame.len() implies 0 <= #[trigger] frame[i] < g.len() by {
        assert(all[i] == frame[i]);
    }
    lemma_synced(s, g, frame);
}

proof fn lemma_strays_none(s: Seq<Seq<u8>>, d: Seq<Seq<u8>>, xs: Seq<int>)
    requires
        forall|i: int| 0 <= i < xs.len() ==> 0 <= #[trigger] xs[i] < d.len(),
    ensures
        strays(s, d, xs) == 0 <==> synced(s, d, xs) == d,
    decreases xs.len(),
{
    if xs.len() > 0 {
        let ys = xs.drop_last();
        assert forall|i: int| 0 <= i < ys.len() implies 0 <= #[trigger] ys[i] < d.len() by {
            assert(ys[i] == xs[i]);
        }
        lemma_strays_none(s, d, ys);
        lemma_synced(s, d, ys);
        lemma_synced(s, d, xs);
        let x = xs.last();
        assert(xs[xs.len() - 1] == x);
        let m = synced(s, d, ys);
        let now = synced(s, d, xs);
        if strays(s, d, xs) == 0 {
            assert(now =~= m);
        }
        if now == d {
            assert(m =~= d) by {
                assert forall|i: int| 0 <= i < d.len() implies m[i] == d[i] by {
                    if ys.contains(i) {
                        let j = choose|j: int| 0 <= j < ys.len() && ys[j] == i;
                        assert(xs[j] == i);
                        assert(xs.contains(i));
                        assert(now[i] == s[i]);
                        assert(m[i] == s[i]);
                    } else {
                        assert(m[i] == d[i]);
                    }
                }
            }
            assert(xs.contains(x));
            assert(now[x] == s[x]);
        }
    }
}

/// Law: after a pass the loser answers, under the winner's head, what the winner answers: every
/// value that the head commits to is on both devices. It is said of heads whose paths are sound and
/// meet no zeroed block: a pass copies live blocks, not the zeros a deletion left.
pub proof fn law_replica_answers_the_same(
    s: Seq<Seq<u8>>,
    d: Seq<Seq<u8>>,
    now: Seq<Seq<u8>>,
    ring: u8,
    out: Replicated,
)
    requires
        converged(s, d, now, ring, out),
        layout_of(s, ring) matches Ok(l) && l.top matches Some((_, e)) && ({
            let t = tract::ground(s, l.tract as int, e.tract as nat);
            &&& keep::sound(t, standing::index_of(e))
            &&& survey::survey_root(t, hamt::root_slot(e.hamt, e.hamtat), false) matches Ok(sv)
                && sv.stale.len() == 0 && sv.dangling.len() == 0
        }),
    ensures
        layout_of(s, ring) matches Ok(l) && l.top matches Some((_, e)) && standing::committed(
            now,
            l.tract as int,
            e,
        ) == standing::committed(s, l.tract as int, e),
{
    lemma_in_step(s, d, now, ring, out);
    let l = layout_of(s, ring)->Ok_0;
    let (slot, e) = l.top->0;
    let t = tract::ground(s, l.tract as int, e.tract as nat);
    let u = tract::ground(now, l.tract as int, e.tract as nat);
    let ix = standing::index_of(e);
    let xs = live_of(s, l)->Ok_0;
    let frame = frame_of(l, ring);
    assert forall|k: Seq<u8>| k.len() == 32 implies (#[trigger] ix.path(u, k)).found == ix.path(
        t,
        k,
    ).found by {
        let p = ix.path(t, k);
        assert(p.sound());
        if e.hamt != block::zeros32() {
            let sv = survey::survey(t, e.hamt, e.hamtat, block::zeros32(), 0, false)->Ok_0;
            survey::lemma_survey_accounts(
                t,
                e.hamt,
                e.hamtat,
                block::zeros32(),
                0,
                false,
                k,
            );
            assert(!survey::listed(sv, p, k));
            assert(survey::has_all(t, sv, p));
            assert forall|x: u64| #[trigger] p.reads.contains(x) && x < t.len() implies t[x as int]
                == u[x as int] by {
                let h = seal::hp_of(t[x as int])->0;
                assert(sv.live.contains((x, h)));
                let j = choose|j: int| 0 <= j < sv.live.len() && sv.live[j] == (x, h);
                assert(xs[j] == l.tract + x);
                assert(xs.contains(l.tract + x));
                lemma_contains_sum(frame, xs, l.tract + x);
                assert(scope(s, ring).contains(l.tract + x));
            }
        }
        trie::law_path_depends_on_its_reads(t, u, ix.arena, ix.arena, ix.root, k, 0);
    }
    standing::lemma_book_same(t, ix, u, ix);
}

/// Law: a winner is refused only where its root entry, its ring or its geometry is out of range, or the walk of
/// its committed index meets damage; one whose walk goes through is replicated.
pub proof fn law_winner_is_refused_only_for_damage(s: Seq<Seq<u8>>, ring: u8, l: Layout)
    requires
        layout_of(s, ring) == Ok::<Layout, ErrorView>(l),
    ensures
        refusal(s, ring) is None <==> l.spine + pow2(ring as nat) <= u64::MAX && (l.top matches Some((
            _,
            e,
        )) ==> l.tract + e.tract <= u64::MAX && survey::survey_root(
            tract::ground(s, l.tract as int, e.tract as nat),
            hamt::root_slot(e.hamt, e.hamtat),
            false,
        ) is Ok),
{
}

/// Law: a pass that ends early has touched nothing but the root slots, the spine and what the head commits to.
pub proof fn law_unfinished_pass_leaves_the_rest(
    s: Seq<Seq<u8>>,
    d: Seq<Seq<u8>>,
    now: Seq<Seq<u8>>,
    ring: u8,
    l: Layout,
    i: int,
)
    requires
        left_alone(s, d, now, ring),
        layout_of(s, ring) == Ok::<Layout, ErrorView>(l),
        0 <= i < d.len(),
        l.rooted ==> i >= 4,
        !(l.spine <= i < l.spine + pow2(ring as nat)),
        live_of(s, l) matches Ok(xs) ==> !xs.contains(i),
    ensures
        now[i] == d[i],
        now.len() >= d.len(),
{
    let frame = frame_of(l, ring);
    if frame.contains(i) {
        let j = choose|j: int| 0 <= j < frame.len() && frame[j] == i;
        if l.rooted {
            assert(run(0, 4).len() == 4);
            if j < 4 {
                assert(frame[j] == j);
            } else {
                assert(frame[j] == l.spine + (j - 4));
            }
        } else {
            assert(frame[j] == l.spine + j);
        }
    }
    if let Ok(xs) = live_of(s, l) {
        lemma_contains_sum(frame, xs, i);
    }
}

/// Law: a pass can be made where the winner is not refused, its ring and the tract that its head commits to are
/// on its device, and the loser's is as long or can be made so.
pub proof fn law_pass_goes_through_where_the_loser_has_room(
    s: Seq<Seq<u8>>,
    d: Seq<Seq<u8>>,
    limit: nat,
    ring: u8,
    l: Layout,
)
    requires
        layout_of(s, ring) == Ok::<Layout, ErrorView>(l),
    ensures
        replicable(s, d, limit, ring) <==> refusal(s, ring) is None && (s.len() <= d.len()
            || s.len() <= limit) && l.spine + pow2(ring as nat) <= s.len() && (l.top matches Some((
            _,
            e,
        )) ==> l.tract + e.tract <= s.len()),
{
}

/// Law: the spine is taken from the residence that the root entry names, and from the one before only where that
/// one holds a newer entry.
pub proof fn law_older_residence_counts_only_where_it_is_newer(
    disk: Seq<Seq<u8>>,
    ring: u8,
    l: Layout,
    r: RootView,
)
    requires
        layout_of(disk, ring) == Ok::<Layout, ErrorView>(l),
        root_on(disk) == Some(r),
        l.spine != r.at,
        ring < 64,
    ensures
        l.spine == r.was,
        l.top matches Some((_, e)) && forall|s: int|
            0 <= s < pow2(ring as nat) ==> ((#[trigger] ring::class_at(
                disk,
                r.at as int,
                ring,
                s,
            )) matches ClassView::Valid(f) ==> f.gen < e.gen),
{
    let n = pow2(ring as nat);
    vstd::bits::lemma_u64_pow2_no_overflow(ring as nat);
    lemma_best_newest(disk, r.at as int, ring, n);
    lemma_best_newest(disk, r.was as int, ring, n);
}

/// Law: of two heads the one of the higher generation is the younger, two of the same generation are of an age,
/// and any head is younger than none.
pub proof fn law_age_is_the_generation(
    a: (u64, SpineView),
    b: (u64, SpineView),
)
    ensures
        age(Some(a)) > age(Some(b)) <==> a.1.gen > b.1.gen,
        age(Some(a)) == age(Some(b)) <==> a.1.gen == b.1.gen,
        age(Some(a)) > age(None),
{
}

}
