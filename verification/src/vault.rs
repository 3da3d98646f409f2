//! The vault: spine, tract and index composed into a crash-proof keyed object store.
//!
//! Commit per write by default: `put` and `delete` return durable. Everything between spine commits
//! is provisional; orphans are reaped as garbage when their window retires.
//!
//! Opening goes by a ladder. A root entry at the first blocks names the spine's residence; else the
//! ring exponent is found from the low slots; else the whole device is scanned. Any sealed block
//! anywhere is a real vault, which is never formatted; none is a fresh device.
use vstd::prelude::*;
use vstd::arithmetic::power2::*;
use crate::block;
use crate::block::{same_bytes, zero32, zero_block, BlockDev};
use crate::cut;
use crate::doc;
use crate::edit;
use crate::error;
use crate::error::{corrupt_err, corrupt_num, corrupt_num2, Error, ErrorView, Result};
use crate::extent;
use crate::hamt;
use crate::hamt::Hamt;
use crate::keep;
use crate::key;
use crate::live;
pub use crate::live::LiveSet;
use crate::load;
use crate::load::seat;
use crate::mirror;
use crate::mirror::Mirror;
use crate::mooring;
pub use crate::replicate::{verified_replicate, Replicated};
use crate::ring;
use crate::ring::{any_sealed_block, zero_ring, zero_ring_at, Ring, FENCE_K};
use crate::root;
use crate::root::{append_root, read_root, RootEntry, RootView, ROOT_SLOTS};
use crate::roster;
use crate::seal;
use crate::spine;
use crate::spine::{slot_count, SpineEntry, SpineView};
use crate::standing;
use crate::standing::VaultView;
use crate::survey;
use crate::survey::{DanglingPointer, StalePointer};
use crate::text;
use crate::tight;
use crate::tract;
use crate::tract::Tract;
use crate::trie;
use crate::value;

verus! {

/// The smallest reap window.
pub const REAP_WINDOW_MIN: u64 = 16;

/// Clean blocks kept back for the retiring commit's index rewrite.
pub const RESERVE: u64 = 4;

pub struct Vault<A: BlockDev, B: BlockDev> {
    ring: Ring<A, B>,
    tract: Tract,
    hamt: Hamt,
    live: LiveSet,
    /// The newest root entry of the migrating layout. None where the spine stays at block 0.
    root: Option<RootEntry>,
    /// Up to where appends leave the committed head's blocks alone, fence or no fence.
    shield: u64,
    /// The fence that the last K generations set, once there are as many.
    fence: Option<u64>,
}

/// The view of a root entry, if there is one.
pub open spec fn root_view(r: Option<RootEntry>) -> Option<RootView> {
    match r {
        Some(e) => Some(e@),
        None => None,
    }
}

impl<A: BlockDev, B: BlockDev> View for Vault<A, B> {
    type V = VaultView;

    closed spec fn view(&self) -> VaultView {
        VaultView {
            disk: self.ring.disk(),
            sure: self.ring.mir().reliable(),
            twin: self.ring.mir().alike() && self.ring.mir().first_reliable(),
            limit: self.ring.mir().limit(),
            start: self.ring.start(),
            exponent: self.ring.exponent(),
            top: self.ring.top(),
            tract: self.tract,
            shield: self.shield,
            index: self.hamt@,
            live: self.live@,
            root: root_view(self.root),
        }
    }
}

/// The smallest of some numbers, if there are any.
pub open spec fn least(s: Seq<u64>) -> Option<u64>
    decreases s.len(),
{
    if s.len() == 0 {
        None
    } else {
        match least(s.drop_last()) {
            None => Some(s.last()),
            Some(x) => Some(
                if s.last() < x {
                    s.last()
                } else {
                    x
                },
            ),
        }
    }
}

/// The smallest of some numbers exceeds none of them.
pub proof fn lemma_least(s: Seq<u64>, i: int)
    requires
        0 <= i < s.len(),
    ensures
        least(s) matches Some(x) && x <= s[i],
    decreases s.len(),
{
    if i < s.len() - 1 {
        lemma_least(s.drop_last(), i);
    }
}

/// The fence that some budgets set: none while fewer than K generations exist, else the smallest of
/// them.
pub open spec fn fence_of(budgets: Seq<u64>) -> Option<u64> {
    if budgets.len() < FENCE_K {
        None
    } else {
        least(budgets)
    }
}

/// The smallest of the window's append budgets: appends stay inside space that was already clean at
/// every windowed generation, so the last K generations stay restorable.
fn fence_from(budgets_newest_first: &Vec<u64>) -> (r: Option<u64>)
    ensures
        r == fence_of(budgets_newest_first@),
{
    if budgets_newest_first.len() < FENCE_K as usize {
        return None;
    }
    let ghost all = budgets_newest_first@;
    let mut best: Option<u64> = None;
    let mut i: usize = 0;
    while i < budgets_newest_first.len()
        invariant
            i <= all.len(),
            all == budgets_newest_first@,
            best == least(all.take(i as int)),
        decreases all.len() - i,
    {
        let b: u64 = budgets_newest_first[i];
        assert(all.take(i + 1).drop_last() =~= all.take(i as int));
        best = match best {
            None => Some(b),
            Some(x) => if b < x {
                Some(b)
            } else {
                Some(x)
            },
        };
        i = i + 1;
    }
    assert(all.take(i as int) =~= all);
    best
}

/// The append budgets of the last K generations, as the ring tells them, newest first.
pub open spec fn budgets(v: VaultView) -> Seq<u64> {
    let g = v.head().gen;
    Seq::new(
        (if FENCE_K <= g {
            FENCE_K as int
        } else {
            g + 1
        }) as nat,
        |i: int| budget_at(v, g - i),
    )
}

/// What generation `g` lets appends reach, as the ring tells it: nothing where its slot no longer
/// holds it.
pub open spec fn budget_at(v: VaultView, g: int) -> u64 {
    match ring::class_at(v.disk, v.start as int, v.exponent, g % v.slots()) {
        spine::ClassView::Valid(e) => if e.gen != g {
            0
        } else if e.budget() <= u64::MAX {
            e.budget() as u64
        } else {
            u64::MAX
        },
        _ => 0,
    }
}

/// The smaller of a fence, if there is one, and the shield.
pub open spec fn fenced_by(f: Option<u64>, shield: u64) -> u64 {
    match f {
        Some(x) => if x < shield {
            x
        } else {
            shield
        },
        None => shield,
    }
}

/// Whether the head describes the vault as it is.
pub open spec fn records(v: VaultView) -> bool {
    let h = v.head();
    &&& v.index == standing::index_of(h)
    &&& h.tract == v.tract.len
    &&& h.plow == v.tract.plow
    &&& h.reap == Some(v.tract.reap)
    &&& h.ring == v.exponent
    &&& live::has_size(v.live.dom(), h.live as nat)
    &&& v.shield == (if v.tract.reap + v.tract.len <= u64::MAX {
        v.tract.reap + v.tract.len
    } else {
        u64::MAX as int
    })
}

/// Whether only the fence differs.
pub open spec fn fenced_anew(v0: VaultView, v1: VaultView) -> bool {
    v1 == (VaultView { tract: Tract { fence_limit: v1.tract.fence_limit, ..v0.tract }, ..v0 })
}

impl<A: BlockDev, B: BlockDev> Vault<A, B> {
    /// The fence that the last generations set, as it was last read off the ring.
    pub closed spec fn guard(&self) -> Option<u64> {
        self.fence
    }

    /// What the device that does not decide holds, where there are two.
    pub closed spec fn other(&self) -> Option<Seq<Seq<u8>>> {
        if self.ring.mir().first() is Some {
            self.ring.mir().second()
        } else {
            None
        }
    }

    /// Whether neither device fails, and both hold the tract.
    pub closed spec fn both(&self) -> bool {
        &&& hamt::sure_as(&self.ring.mir(), &self.tract, mirror::Reading::Mended)
        &&& hamt::sure_as(&self.ring.mir(), &self.tract, mirror::Reading::Swapped)
    }

    /// What the second device holds, where there is one.
    pub closed spec fn second(&self) -> Option<Seq<Seq<u8>>> {
        self.ring.mir().second()
    }

    /// Sets the fence by what the ring tells of the last generations.
    fn refence(&mut self) -> (r: Result<()>)
        requires
            old(self).ring.wf(),
            old(self).ring.top() is Some,
        ensures
            fenced_anew(old(self)@, final(self)@),
            final(self).ring.wf(),
            r is Ok ==> final(self).guard() == fence_of(budgets(old(self)@)),
            match r {
                Ok(()) => final(self)@.tract.fence_limit == Some(
                    fenced_by(fence_of(budgets(old(self)@)), old(self)@.shield),
                ),
                Err(e) => {
                    &&& final(self)@ == old(self)@
                    &&& block::device_error(e@)
                    &&& !(old(self)@.sure && old(self)@.start + old(self)@.slots() <= old(self)@.disk.len())
                },
            },
    {
        let fences = match self.ring.recent_fences(FENCE_K) {
            Ok(x) => x,
            Err(e) => return Err(e),
        };
        assert(fences@ =~= budgets(old(self)@));
        let limit: u64 = match fence_from(&fences) {
            Some(x) => if x < self.shield {
                x
            } else {
                self.shield
            },
            None => self.shield,
        };
        self.tract.fence_limit = Some(limit);
        self.fence = fence_from(&fences);
        Ok(())
    }
}

/// Whether an error is one that a device may return.
pub open spec fn by_device<X>(r: Result<X>) -> bool {
    r matches Err(e) && block::device_error(e@)
}

/// Whether the tract and what is in it stayed as they were, and only the spine's region was written.
pub open spec fn spine_only(v0: VaultView, v1: VaultView) -> bool {
    &&& v1.disk.len() == v0.disk.len()
    &&& forall|i: int|
        v0.tract.base <= i < v0.disk.len() ==> #[trigger] v1.disk[i] == v0.disk[i]
    &&& v1.tract == (Tract { fence_limit: v1.tract.fence_limit, ..v0.tract })
    &&& v1.index == v0.index
    &&& v1.live == v0.live
}

/// What only the spine's region tells leaves the tract.
pub proof fn lemma_spine_only(v0: VaultView, v1: VaultView)
    requires
        spine_only(v0, v1),
        v0.well(),
    ensures
        v1.ground() == v0.ground(),
        v1.contents() == v0.contents(),
        v0.good() == v1.good(),
        v1.top == v0.top && v1.shield == v0.shield ==> v1.guarded() == v0.guarded(),
        forall|e: SpineView|
            e.tract <= v0.tract.len ==> #[trigger] standing::committed(
                v1.disk,
                v0.tract.base as int,
                e,
            ) == standing::committed(v0.disk, v0.tract.base as int, e),
{
    assert(v1.ground() =~= v0.ground());
    assert forall|e: SpineView| e.tract <= v0.tract.len implies #[trigger] standing::committed(
        v1.disk,
        v0.tract.base as int,
        e,
    ) == standing::committed(v0.disk, v0.tract.base as int, e) by {
        let b = v0.tract.base as int;
        assert(tract::ground(v1.disk, b, e.tract as nat) =~= tract::ground(
            v0.disk,
            b,
            e.tract as nat,
        ));
    }
}

/// The error of a generation number that cannot be followed.
pub open spec fn last_generation() -> ErrorView {
    error::corrupt("generation numbers are used up")
}

/// Whether an entry asserts what another asserts: the same root, geometry and cursors.
pub open spec fn asserts_again(a: SpineView, b: SpineView) -> bool {
    &&& b.hamt == a.hamt
    &&& b.hamtat == a.hamtat
    &&& b.tract == a.tract
    &&& b.plow == a.plow
    &&& b.reap == a.reap
}

/// The furthest that appends may go while a head is committed: its own budget, as far as numbers go,
/// and no further than the shield.
pub open spec fn own_fence(v: VaultView) -> u64 {
    let b = v.head().budget();
    let c = if b <= u64::MAX {
        b as u64
    } else {
        u64::MAX
    };
    if c < v.shield {
        c
    } else {
        v.shield
    }
}

/// Whether a commit goes through for sure, by heartbeats if need be: the devices do not fail, K
/// generations fit the ring, numbers are left for them, and what is dirty fits before the head's own
/// budget.
pub open spec fn committable(v: VaultView) -> bool {
    &&& v.sure
    &&& 2 <= v.exponent <= 32
    &&& v.head().gen + FENCE_K + 4 < u64::MAX
    &&& v.root matches Some(x) ==> x.gen < u64::MAX
    &&& v.tract.plow + v.index.dirt() <= own_fence(v)
    &&& v.tract.plow + v.index.dirt() <= v.tract.reap + v.tract.len
}

/// Heartbeats since a head are all that the ring tells of the last generations once there are K of
/// them.
proof fn lemma_beaten(v0: VaultView, v: VaultView, n: int)
    requires
        FENCE_K <= n,
        v.head().gen == v0.head().gen + n,
        asserts_again(v0.head(), v.head()),
        v.shield == v0.shield,
        forall|x: int|
            v0.head().gen < x && v.head().gen - FENCE_K < x <= v.head().gen ==> #[trigger] budget_at(
                v,
                x,
            ) == (if v0.head().budget()
                <= u64::MAX {
                v0.head().budget()
            } else {
                u64::MAX as int
            }),
    ensures
        fenced_by(fence_of(budgets(v)), v.shield) == own_fence(v0),
{
    let b = budgets(v);
    let g = v.head().gen as int;
    let c = budget_at(v, g);
    assert forall|i: int| 0 <= i < b.len() implies b[i] == c by {
        assert(b[i] == budget_at(v, g - i));
    }
    lemma_least_same(b, c);
}

proof fn lemma_least_same(s: Seq<u64>, c: u64)
    requires
        s.len() > 0,
        forall|i: int| 0 <= i < s.len() ==> s[i] == c,
    ensures
        least(s) == Some(c),
    decreases s.len(),
{
    reveal_with_fuel(least, 2);
    if s.len() > 1 {
        lemma_least_same(s.drop_last(), c);
    }
}

/// What is written to the tract leaves what the ring tells.
proof fn lemma_budget_kept(v0: VaultView, v1: VaultView, x: int)
    requires
        v0.well(),
        0 <= x,
        v1.start == v0.start,
        v1.exponent == v0.exponent,
        tract::kept_around(v0.disk, v1.disk, v0.tract.base as int, v0.tract.len as int),
    ensures
        budget_at(v1, x) == budget_at(v0, x),
{
    lemma_pow2_pos(v0.exponent as nat);
    vstd::arithmetic::div_mod::lemma_mod_bound(x, v0.slots());
    assert(v1.disk[v0.start + x % v0.slots()] == v0.disk[v0.start + x % v0.slots()]);
}

/// A generation that changes nothing: the head's root, geometry and cursors under the next number.
pub open spec fn heartbeat(h: SpineView, ring: u8, live: u64, now: i64) -> SpineView {
    SpineView {
        gen: (h.gen + 1) as u64,
        prev: spine::spine_hash(h),
        ring,
        live,
        time: now,
        ..h
    }
}

impl<A: BlockDev, B: BlockDev> Vault<A, B> {
    /// Whether the fields stand in the relation that the view's `well` asks for.
    proof fn lemma_ring_well(&self)
        requires
            self@.well(),
        ensures
            self.ring.wf(),
            self.ring.mir().has_device(),
    {
    }

    /// Appends a generation that changes nothing. It exists to slide older entries out of the fence
    /// window when the tract is too tight to flush: the budget rises to one lap past the last real
    /// commit, never further.
    fn append_heartbeat(&mut self, now: i64) -> (r: Result<()>)
        requires
            old(self)@.well(),
        ensures
            standing::kept(old(self)@, final(self)@),
            spine_only(old(self)@, final(self)@),
            final(self)@.start == old(self)@.start,
            final(self)@.shield == old(self)@.shield,
            final(self)@.root == old(self)@.root,
            final(self)@.top == old(self)@.top || exists|n: u64|
                live::has_size(old(self)@.live.dom(), n as nat) && final(self)@.head()
                    == #[trigger] heartbeat(old(self)@.head(), old(self)@.exponent, n, now),
            final(self)@.head().gen >= old(self)@.head().gen,
            r is Ok ==> final(self)@.head().gen == old(self)@.head().gen + 1
                && final(self)@.tract.fence_limit == Some(
                fenced_by(fence_of(budgets(final(self)@)), final(self)@.shield),
            ),
            asserts_again(old(self)@.head(), final(self)@.head()),
            r is Ok && 0 < old(self)@.exponent <= 32 ==> slid(old(self)@, final(self)@),
            windowed(old(self)@, final(self)@),
            standing::tended(old(self)@, final(self)@),
            old(self)@.hale() ==> final(self)@.durable() == old(self)@.durable(),
            mooring::moored(old(self)@) && (r is Ok || old(self)@.sure) ==> mooring::moored(
                final(self)@,
            ),
            r matches Err(e) ==> e@ == last_generation() && old(self)@.head().gen == u64::MAX && final(self)@ == old(self)@ || (block::device_error(e@) && !old(self)@.sure),
    {
        let ghost v0 = self@;
        proof {
            self.lemma_ring_well();
            lemma_window_same(v0, v0);
        }
        let entry = match self.ring.head() {
            None => return Err(corrupt_err("heartbeat on pre-genesis vault")),
            Some(head) => {
                if head.gen == u64::MAX {
                    return Err(corrupt_err("generation numbers are used up"));
                }
                SpineEntry {
                    gen: head.gen + 1,
                    prev_hash: head.body_hash(),
                    ring_log2: self.ring.ring_log2(),
                    tract_blocks: head.tract_blocks,
                    hamt_hash: head.hamt_hash,
                    hamt_lba: head.hamt_lba,
                    plow: head.plow,
                    reap: head.reap,
                    live: self.live.len() as u64,
                    eagle_time: now,
                }
            },
        };
        proof {
            lemma_pow2_pos(v0.exponent as nat);
            vstd::arithmetic::div_mod::lemma_mod_bound(entry.gen as int, v0.slots());
        }
        let landed = self.ring.append(&entry);
        let ghost v1 = self@;
        proof {
            assert(spine_only(v0, v1));
            lemma_spine_only(v0, v1);
        }
        if let Err(e) = landed {
            return Err(e);
        }
        proof {
            assert(v1.head() == heartbeat(v0.head(), v0.exponent, entry.live, now));
            if mooring::moored(v0) {
                mooring::lemma_moored_append(v0, v1, entry@);
            }
        }
        let done = self.refence();
        proof {
            assert(self@.ground() == v1.ground());
            assert(budgets(self@) =~= budgets(v1));
            if mooring::moored(v0) {
                assert(mooring::moored(self@));
            }
            if 0 < v0.exponent <= 32 {
                lemma_slid(v0, self@);
                if settled_spine(v0) && done is Ok {
                    lemma_window_slid(v0, self@);
                }
            }
        }
        done
    }
}

impl<A: BlockDev, B: BlockDev> Vault<A, B> {
    /// Moves the spine to the next residence of the band: zeroes it, records the move in the root
    /// ring, and lets commits land there. Whatever happens in between, an opening finds one
    /// committed head.
    fn migrate_ring(&mut self, now: i64) -> (r: Result<()>)
        requires
            old(self)@.well(),
        ensures
            standing::kept(old(self)@, final(self)@),
            spine_only(old(self)@, final(self)@),
            final(self)@.tract == old(self)@.tract,
            final(self)@.top == old(self)@.top,
            final(self)@.shield == old(self)@.shield,
            mooring::moored(old(self)@) && mooring::lodged(
                old(self)@.disk,
                old(self)@.start as int,
                old(self)@.exponent,
                old(self)@.top,
            ) && (r is Ok || old(self)@.sure) ==> mooring::moored(final(self)@),
            match old(self)@.root {
                None => r is Ok && final(self)@ == old(self)@,
                Some(x) => match r {
                    Ok(()) => {
                        &&& final(self)@.root matches Some(y) && y == (RootView {
                            gen: (x.gen + 1) as u64,
                            prev: root::root_hash(x),
                            at: mooring::next_residence(x, old(self)@.start as int) as u64,
                            was: old(self)@.start,
                            since: (if old(self)@.head().gen < u64::MAX {
                                old(self)@.head().gen + 1
                            } else {
                                u64::MAX as int
                            }) as u64,
                            time: now,
                            ..x
                        })
                        &&& final(self)@.start == (final(self)@.root->0).at
                    },
                    Err(e) => {
                        &&& e@ == last_generation() && x.gen == u64::MAX || (block::device_error(e@)
                            && !old(self)@.sure)
                        &&& final(self)@.root == old(self)@.root
                        &&& final(self)@.start == old(self)@.start
                    },
                },
            },
    {
        let ghost v0 = self@;
        proof {
            self.lemma_ring_well();
        }
        let root: RootEntry = match &self.root {
            None => return Ok(()),
            Some(x) => *x,
        };
        if root.gen == u64::MAX {
            return Err(corrupt_err("generation numbers are used up"));
        }
        let n: u64 = slot_count(root.ring_log2);
        let cur: u64 = self.ring.base();
        proof {
            mooring::lemma_next_residence(root@, cur as int);
        }
        let idx: u64 = (cur - ROOT_SLOTS) / n;
        let step: u64 = if idx + 1 == root.residences {
            0
        } else {
            idx + 1
        };
        proof {
            let m = ((cur - 4) / (n as int) + 1) % (root.residences as int);
            if idx + 1 == root.residences {
                vstd::arithmetic::div_mod::lemma_mod_self_0(root.residences as int);
            } else {
                vstd::arithmetic::div_mod::lemma_small_mod(
                    (idx + 1) as nat,
                    root.residences as nat,
                );
            }
            assert(m == step);
            assert(4 + step * n == mooring::next_residence(root@, cur as int));
        }
        let next: u64 = ROOT_SLOTS + step * n;
        let cleared = zero_ring_at(self.ring.mirror(), root.ring_log2, next);
        let ghost v1 = self@;
        proof {
            assert(spine_only(v0, v1));
            lemma_spine_only(v0, v1);
        }
        if let Err(e) = cleared {
            return Err(e);
        }
        let head_gen: u64 = match self.ring.head() {
            Some(h) => h.gen,
            None => 0,
        };
        let new_root = RootEntry {
            gen: root.gen + 1,
            prev_hash: root.body_hash(),
            ring_log2: root.ring_log2,
            at: next,
            was: cur,
            since: head_gen.saturating_add(1),
            residences: root.residences,
            residency: root.residency,
            eagle_time: now,
        };
        let landed = append_root(self.ring.mirror(), &new_root);
        let ghost v2 = self@;
        proof {
            assert(spine_only(v0, v2));
            lemma_spine_only(v0, v2);
        }
        if let Err(e) = landed {
            return Err(e);
        }
        self.ring.set_base(next);
        self.root = Some(new_root);
        proof {
            assert(spine_only(v0, self@));
            lemma_spine_only(v0, self@);
            if mooring::moored(v0) && mooring::lodged(
                v0.disk,
                v0.start as int,
                v0.exponent,
                v0.top,
            ) {
                mooring::lemma_moored_hop(v0, v1.disk, new_root@, self@);
            }
        }
        Ok(())
    }
}

/// Whether an operation on the index and the tract, and nothing else, led from one vault to another.
pub open spec fn worked(v0: VaultView, v1: VaultView) -> bool {
    &&& v1.tract.plowed(&v0.tract)
    &&& v1.sure == v0.sure
    &&& tract::kept_around(v0.disk, v1.disk, v0.tract.base as int, v0.tract.len as int)
    &&& keep::tended(
        v0.ground(),
        v0.index,
        v0.tract.plow as int,
        v1.ground(),
        v1.index,
        v1.tract.plow as int,
        v0.tract.reach(),
        v0.tract.reap + v0.tract.len,
    )
    &&& v0.twin ==> v1.twin
    &&& v1 == (VaultView {
        disk: v1.disk,
        twin: v1.twin,
        tract: v1.tract,
        index: v1.index,
        ..v0
    })
}

/// What such an operation keeps.
proof fn lemma_worked(v0: VaultView, v1: VaultView)
    requires
        v0.well(),
        worked(v0, v1),
    ensures
        standing::kept(v0, v1),
        v0.good() ==> v1.good(),
        v0.guarded() ==> v1.guarded() && v1.durable() == v0.durable(),
        mooring::moored(v0) ==> mooring::moored(v1),
{
    if v0.good() {
        assert(keep::still_covered(v0.ground(), v0.index, v1.ground(), v1.index));
        assert(keep::covered(v0.ground(), v0.index, v0.live));
        assert(keep::covered(v1.ground(), v1.index, v0.live));
    }
    if v0.guarded() {
        standing::lemma_guard_step(v0, v1);
    }
    if mooring::moored(v0) {
        assert(mooring::same_below(v0.disk, v1.disk, v0.tract.base as int));
        mooring::lemma_moored_below(v0, v1);
    }
}

/// Brings the live set up to date with the index: nothing else changes.
proof fn lemma_delta_taken(v0: VaultView, v1: VaultView)
    requires
        v0.well(),
        v1.live == keep::applied(v0.live, v0.index.added, v0.index.removed),
        v1.index.root == v0.index.root,
        v1.index.arena == v0.index.arena,
        v1.index.added.len() == 0,
        v1.index.removed.len() == 0,
        v1 == (VaultView { live: v1.live, index: v1.index, ..v0 }),
    ensures
        v1.well(),
        v0.good() ==> v1.good(),
        v1.guarded() == v0.guarded(),
        v1.contents() == v0.contents(),
        v1.durable() == v0.durable(),
        mooring::moored(v1) == mooring::moored(v0),
{
    let t = v0.ground();
    assert forall|k: Seq<u8>| #[trigger] v1.index.path(t, k) == v0.index.path(t, k) by {}
    assert(keep::applied(v1.live, v1.index.added, v1.index.removed) == v1.live);
    if v0.good() {
        assert(keep::knows(t, v1.index, v1.live)) by {
            assert(keep::knows(t, v0.index, v1.live));
            assert forall|k: Seq<u8>, p: u64|
                k.len() == 32 && (#[trigger] v1.index.path(t, k).reads.contains(p)) implies p
                < t.len() && seal::hp_of(t[p as int]) is Some && v1.live.contains_key(p)
                && Some(v1.live[p]) == seal::hp_of(t[p as int]) by {
                assert(v0.index.path(t, k).reads.contains(p));
            }
        }
        assert(keep::fit(
            t,
            v1.index,
            v1.tract.plow as int,
            v1.tract.reap + v1.tract.len,
        )) by {
            assert forall|k: Seq<u8>| k.len() == 32 implies (#[trigger] v1.index.path(
                t,
                k,
            )).sound() by {
                assert(v0.index.path(t, k).sound());
            }
            assert forall|k: Seq<u8>, p: u64|
                k.len() == 32 && (#[trigger] v1.index.path(t, k).reads.contains(p)) implies p
                < t.len() && !tract::in_strip(
                p as int,
                v1.tract.plow as int,
                v1.tract.reap + v1.tract.len,
                t.len() as int,
            ) by {
                assert(v0.index.path(t, k).reads.contains(p));
            }
        }
    }
    standing::lemma_book_same(t, v0.index, t, v1.index);
}

/// A vault whose index is what its new head commits to is in working order.
proof fn lemma_committed(v0: VaultView, v1: VaultView)
    requires
        v0.well(),
        spine_only(v0, v1),
        v1.index == standing::index_of(v1.head()),
        v1.head().tract == v1.tract.len,
        v1.shield <= v1.tract.reap + v1.tract.len,
    ensures
        v0.good() ==> v1.hale() && v1.durable() == v0.contents() && v1.contents() == v0.contents(),
{
    lemma_spine_only(v0, v1);
    if v0.good() {
        let t = v1.ground();
        let ix = v1.index;
        assert forall|k: Seq<u8>, p: u64|
            k.len() == 32 && (#[trigger] ix.path(t, k).reads.contains(p)) implies p < t.len()
            && !tract::in_strip(
            p as int,
            v1.tract.plow as int,
            v1.shield as int,
            t.len() as int,
        ) by {
            assert(!tract::in_strip(
                p as int,
                v1.tract.plow as int,
                v1.tract.reap + v1.tract.len,
                t.len() as int,
            ));
        }
    }
}

/// Whether a commit has room for sure: as many blocks can be appended as there are nodes to write, if
/// any; the devices do not fail, and generation numbers are left.
pub open spec fn roomy(v: VaultView) -> bool {
    &&& v.sure
    &&& v.index.dirt() == 0 || v.tract.refusal(v.index.dirt()) is None
    &&& v.head().gen < u64::MAX
    &&& v.root matches Some(x) ==> x.gen < u64::MAX
}

/// The error of an index whose root hash stands for the empty one.
pub open spec fn no_root_hash() -> ErrorView {
    error::corrupt("root hash stands for the empty index")
}

/// Whether the ring took up one generation more: that one grants what its entry says, and the younger
/// ones of the others grant what they did.
pub open spec fn slid(v0: VaultView, v1: VaultView) -> bool {
    let g = v0.head().gen + 1;
    &&& v1.head().gen == g
    &&& budget_at(v1, g) == (if v1.head().budget() <= u64::MAX {
        v1.head().budget()
    } else {
        u64::MAX as int
    })
    &&& forall|x: int|
        0 <= x && g - v0.slots() < x < g ==> #[trigger] budget_at(v1, x) == budget_at(v0, x)
    &&& entry_at(v1, g) == Some(v1.head())
    &&& forall|x: int|
        0 <= x && g - v0.slots() < x < g ==> #[trigger] entry_at(v1, x) == entry_at(v0, x)
}

/// The entry of a generation, where its slot still holds it.
pub open spec fn entry_at(v: VaultView, x: int) -> Option<SpineView> {
    match ring::class_at(v.disk, v.start as int, v.exponent, x % v.slots()) {
        spine::ClassView::Valid(e) => if e.gen == x {
            Some(e)
        } else {
            None
        },
        _ => None,
    }
}

/// Whether the generations from `g` on that are among the last K are restorable, and appends will leave
/// them so: the index of each is in working order, nothing of it lies before its budget, and the fence
/// is within that.
pub open spec fn restorable(v: VaultView, g: int) -> bool {
    &&& v.head().gen + 1 >= FENCE_K
    &&& g <= v.head().gen
    &&& entry_at(v, v.head().gen as int) == Some(v.head())
    &&& forall|x: int|
        0 <= x && g <= x && v.head().gen - FENCE_K < x <= v.head().gen ==> ((
        #[trigger] entry_at(v, x)) matches Some(e) ==> {
            &&& keep::fit(
                v.ground(),
                standing::index_of(e),
                v.tract.plow as int,
                e.budget(),
            )
            &&& v.tract.plow <= e.budget()
            &&& v.tract.fence_limit matches Some(f) && f <= e.budget()
        })
}

/// Whether the generations from `g` on that were restorable and are still among the last K are so, and
/// answer what they answered.
pub open spec fn window_kept(v0: VaultView, v1: VaultView, g: int) -> bool {
    restorable(v0, g) ==> {
        &&& restorable(v1, g)
        &&& v0.head().gen <= v1.head().gen
        &&& forall|x: int|
            0 <= x && g <= x && v1.head().gen - FENCE_K < x <= v0.head().gen ==> (
            #[trigger] entry_at(v1, x)) == entry_at(v0, x) && (entry_at(v0, x) matches Some(e)
                ==> standing::book(v1.ground(), standing::index_of(e)) == standing::book(
                v0.ground(),
                standing::index_of(e),
            ))
    }
}

/// Whether every generation that was restorable is, as long as it is among the last K.
#[verifier::opaque]
pub open spec fn keeps_window(v0: VaultView, v1: VaultView) -> bool {
    forall|g: int| #[trigger] window_kept(v0, v1, g)
}

/// Whether a vault is on the layout whose spine stays, with room in the ring for K generations.
pub open spec fn settled_spine(v: VaultView) -> bool {
    v.root is None && 2 <= v.exponent <= 32
}

/// Whether an operation keeps every generation restorable that is among the last K, where the spine
/// stays, the vault is in working order and no device fails.
pub open spec fn windowed(v0: VaultView, v1: VaultView) -> bool {
    settled_spine(v0) && v0.hale() && v0.sure ==> keeps_window(v0, v1)
}

proof fn lemma_windowed_twice(v0: VaultView, v1: VaultView, v2: VaultView)
    requires
        standing::kept(v0, v1),
        v0.hale() ==> v1.hale(),
        windowed(v0, v1),
        windowed(v1, v2),
    ensures
        windowed(v0, v2),
{
    if settled_spine(v0) && v0.hale() && v0.sure {
        lemma_window_twice(v0, v1, v2);
    }
}

proof fn lemma_window_twice(v0: VaultView, v1: VaultView, v2: VaultView)
    requires
        keeps_window(v0, v1),
        keeps_window(v1, v2),
    ensures
        keeps_window(v0, v2),
{
    reveal(keeps_window);
    assert forall|g: int| #[trigger] window_kept(v0, v2, g) by {
        assert(window_kept(v0, v1, g));
        assert(window_kept(v1, v2, g));
        if restorable(v0, g) {
            assert forall|x: int|
                0 <= x && g <= x && v2.head().gen - FENCE_K < x <= v0.head().gen implies (
            #[trigger] entry_at(v2, x)) == entry_at(v0, x) && (entry_at(v0, x) matches Some(e)
                ==> standing::book(v2.ground(), standing::index_of(e)) == standing::book(
                v0.ground(),
                standing::index_of(e),
            )) by {
                assert(entry_at(v1, x) == entry_at(v0, x));
            }
        }
    }
}

/// What leaves the ring, the ground, the plow and the fence leaves the window.
proof fn lemma_window_same(v0: VaultView, v1: VaultView)
    requires
        v1.disk == v0.disk,
        v1.start == v0.start,
        v1.exponent == v0.exponent,
        v1.top == v0.top,
        v1.tract.base == v0.tract.base,
        v1.tract.len == v0.tract.len,
        v1.tract.plow == v0.tract.plow,
        v1.tract.fence_limit == v0.tract.fence_limit,
    ensures
        keeps_window(v0, v1),
{
    reveal(keeps_window);
    assert(v1.ground() =~= v0.ground());
    assert forall|x: int| #[trigger] entry_at(v1, x) == entry_at(v0, x) by {}
    assert forall|g: int| #[trigger] window_kept(v0, v1, g) by {
        if restorable(v0, g) {
            assert forall|x: int|
                0 <= x && g <= x && v1.head().gen - FENCE_K < x <= v1.head().gen implies ((
            #[trigger] entry_at(v1, x)) matches Some(e) ==> {
                &&& keep::fit(
                    v1.ground(),
                    standing::index_of(e),
                    v1.tract.plow as int,
                    e.budget(),
                )
                &&& v1.tract.plow <= e.budget()
                &&& v1.tract.fence_limit matches Some(f) && f <= e.budget()
            }) by {
                assert(entry_at(v0, x) == entry_at(v1, x));
            }
        }
    }
}

/// Appends under the fence keep the window.
proof fn lemma_window_worked(v0: VaultView, v1: VaultView)
    requires
        v0.well(),
        worked(v0, v1),
    ensures
        keeps_window(v0, v1),
{
    reveal(keeps_window);
    assert forall|g: int| #[trigger] window_kept(v0, v1, g) by {
        if restorable(v0, g) {
            assert forall|x: int| 0 <= x implies #[trigger] entry_at(v1, x) == entry_at(v0, x) by {
                lemma_pow2_pos(v0.exponent as nat);
                vstd::arithmetic::div_mod::lemma_mod_bound(x, v0.slots());
                assert(v1.disk[v0.start + x % v0.slots()] == v0.disk[v0.start + x % v0.slots()]);
            }
            assert forall|x: int|
                0 <= x && g <= x && v0.head().gen - FENCE_K < x <= v0.head().gen implies ((
            #[trigger] entry_at(v1, x)) matches Some(e) ==> {
                &&& keep::fit(
                    v1.ground(),
                    standing::index_of(e),
                    v1.tract.plow as int,
                    e.budget(),
                )
                &&& v1.tract.plow <= e.budget()
                &&& v1.tract.fence_limit matches Some(f) && f <= e.budget()
                &&& standing::book(v1.ground(), standing::index_of(e)) == standing::book(
                    v0.ground(),
                    standing::index_of(e),
                )
            }) by {
                if let Some(e) = entry_at(v0, x) {
                    lemma_fenced_stands(v0, v1, e);
                }
            }
        }
    }
}

/// An entry in working order with nothing of it before its budget stands through appends under a fence
/// within the budget.
pub proof fn lemma_fenced_stands(v0: VaultView, v1: VaultView, e: SpineView)
    requires
        v0.well(),
        keep::fit(
            v0.ground(),
            standing::index_of(e),
            v0.tract.plow as int,
            e.budget(),
        ),
        v0.tract.plow <= e.budget(),
        v0.tract.fence_limit matches Some(f) && f <= e.budget(),
        v1.tract.plowed(&v0.tract),
        tract::kept_outside(
            v0.ground(),
            v1.ground(),
            v0.tract.plow as int,
            v0.tract.reach(),
        ),
    ensures
        standing::book(v1.ground(), standing::index_of(e)) == standing::book(
            v0.ground(),
            standing::index_of(e),
        ),
        v1.tract.plow <= e.budget(),
        keep::fit(
            v1.ground(),
            standing::index_of(e),
            v1.tract.plow as int,
            e.budget(),
        ),
{
    let c = standing::index_of(e);
    let t0 = v0.ground();
    let t1 = v1.ground();
    keep::lemma_undisturbed(t0, t1, c, v0.tract.plow as int, v0.tract.reach(), e.budget());
    assert forall|k: Seq<u8>| k.len() == 32 implies (#[trigger] c.path(t1, k)).sound() by {
        assert(c.path(t0, k).sound());
    }
    assert forall|k: Seq<u8>, p: u64|
        k.len() == 32 && (#[trigger] c.path(t1, k).reads.contains(p)) implies p < t1.len()
        && !tract::in_strip(
        p as int,
        v1.tract.plow as int,
        e.budget(),
        t1.len() as int,
    ) by {
        assert(c.path(t0, k).reads.contains(p));
        standing::lemma_strip_later(
            p as int,
            v0.tract.plow as int,
            v1.tract.plow as int,
            e.budget(),
            t1.len() as int,
        );
    }
    standing::lemma_book_same(t0, c, t1, c);
}

/// A generation more, whose index is in working order and lets appends go as far as it says, with a
/// fence within the budgets of the last K, keeps the window.
proof fn lemma_window_slid(v0: VaultView, v1: VaultView)
    requires
        v0.well(),
        settled_spine(v0),
        slid(v0, v1),
        v1.ground() == v0.ground(),
        v1.tract == (Tract { fence_limit: v1.tract.fence_limit, ..v0.tract }),
        v1.tract.fence_limit == Some(fenced_by(fence_of(budgets(v1)), v1.shield)),
        asserts_again(v0.head(), v1.head()) || v1.tract.plow <= v1.head().budget() && keep::fit(
            v1.ground(),
            standing::index_of(v1.head()),
            v1.tract.plow as int,
            v1.head().budget(),
        ),
    ensures
        keeps_window(v0, v1),
{
    reveal(keeps_window);
    let g1 = v1.head().gen as int;
    vstd::arithmetic::power2::lemma2_to64();
    if v0.exponent > 2 {
        vstd::arithmetic::power2::lemma_pow2_strictly_increases(2, v0.exponent as nat);
    }
    assert forall|g: int| #[trigger] window_kept(v0, v1, g) by {
        if restorable(v0, g) {
            let b = budgets(v1);
            assert forall|x: int|
                0 <= x && g <= x && g1 - FENCE_K < x <= g1 implies ((#[trigger] entry_at(
                v1,
                x,
            )) matches Some(e) ==> {
                &&& keep::fit(
                    v1.ground(),
                    standing::index_of(e),
                    v1.tract.plow as int,
                    e.budget(),
                )
                &&& v1.tract.plow <= e.budget()
                &&& v1.tract.fence_limit matches Some(f) && f <= e.budget()
            }) by {
                if let Some(e) = entry_at(v1, x) {
                    lemma_least(b, g1 - x);
                    assert(b[g1 - x] == budget_at(v1, x));
                    assert(entry_at(v0, v0.head().gen as int) == Some(v0.head()));
                    if x < g1 {
                        assert(entry_at(v1, x) == entry_at(v0, x));
                    }
                }
            }
            assert forall|x: int|
                0 <= x && g <= x && g1 - FENCE_K < x <= v0.head().gen implies (
            #[trigger] entry_at(v1, x)) == entry_at(v0, x) by {}
        }
    }
}

/// Writing the next generation at its slot slides the ring.
proof fn lemma_slid(v0: VaultView, v1: VaultView)
    requires
        v0.well(),
        0 < v0.exponent <= 32,
        v1.start == v0.start,
        v1.exponent == v0.exponent,
        v1.disk.len() == v0.disk.len(),
        v1.head().wf(),
        v1.head().ring == v0.exponent,
        v1.head().gen == v0.head().gen + 1,
        v1.disk[v0.start + v1.head().gen as int % v0.slots()] == spine::spine_block(v1.head()),
        forall|s: int|
            0 <= s < v0.slots() && s != v1.head().gen as int % v0.slots()
                ==> #[trigger] v1.disk[v0.start + s] == v0.disk[v0.start + s],
    ensures
        slid(v0, v1),
{
    let n = v0.slots();
    let g = v1.head().gen as int;
    lemma_pow2_pos(v0.exponent as nat);
    vstd::arithmetic::div_mod::lemma_mod_bound(g, n);
    ring::lemma_entry_valid(v1.head(), (g % n) as u64);
    assert(ring::class_at(v1.disk, v1.start as int, v1.exponent, g % n)
        == spine::ClassView::Valid(v1.head()));
    assert forall|x: int| 0 <= x && g - n < x < g implies #[trigger] entry_at(v1, x) == entry_at(
        v0,
        x,
    ) by {
        vstd::arithmetic::div_mod::lemma_mod_bound(x, n);
        ring::law_every_slot_once_per_lap(x, n, x % n);
        assert(x % n != g % n);
        assert(v1.disk[v0.start + x % n] == v0.disk[v0.start + x % n]);
    }
    assert forall|x: int| 0 <= x && g - n < x < g implies #[trigger] budget_at(v1, x)
        == budget_at(v0, x) by {
        vstd::arithmetic::div_mod::lemma_mod_bound(x, n);
        ring::law_every_slot_once_per_lap(x, n, x % n);
        assert(x % n != g % n);
        assert(v1.disk[v0.start + x % n] == v0.disk[v0.start + x % n]);
    }
}

/// What leaves the ring alone does not keep it from sliding.
proof fn lemma_slid_after(v0: VaultView, v1: VaultView, v2: VaultView)
    requires
        v0.well(),
        v1.start == v0.start,
        v1.exponent == v0.exponent,
        v1.top == v0.top,
        tract::kept_around(v0.disk, v1.disk, v0.tract.base as int, v0.tract.len as int),
        slid(v1, v2),
    ensures
        slid(v0, v2),
{
    let n = v0.slots();
    lemma_pow2_pos(v0.exponent as nat);
    assert forall|x: int| #[trigger] budget_at(v1, x) == budget_at(v0, x) by {
        vstd::arithmetic::div_mod::lemma_mod_bound(x, n);
        assert(v1.disk[v0.start + x % n] == v0.disk[v0.start + x % n]);
    }
    assert forall|x: int|
        0 <= x && v0.head().gen + 1 - n < x < v0.head().gen + 1 implies #[trigger] budget_at(v2, x)
        == budget_at(v0, x) by {
        assert(budget_at(v2, x) == budget_at(v1, x));
    }
    assert forall|x: int| #[trigger] entry_at(v1, x) == entry_at(v0, x) by {
        vstd::arithmetic::div_mod::lemma_mod_bound(x, n);
        assert(v1.disk[v0.start + x % n] == v0.disk[v0.start + x % n]);
    }
    assert forall|x: int|
        0 <= x && v0.head().gen + 1 - n < x < v0.head().gen + 1 implies #[trigger] entry_at(v2, x)
        == entry_at(v0, x) by {
        assert(entry_at(v2, x) == entry_at(v1, x));
    }
}

/// Whether a commit appended from the plow on and made nothing live but what was about to be, and what
/// it appended.
pub open spec fn renewed(v0: VaultView, v1: VaultView) -> bool {
    &&& tract::kept_outside(
        v0.ground(),
        v1.ground(),
        v0.tract.plow as int,
        v0.tract.reap + v0.tract.len,
    )
    &&& forall|p: u64| #[trigger] v1.live.contains_key(p) ==> {
        ||| v0.live.contains_key(p) && v1.live[p] == v0.live[p]
        ||| edit::places(v0.index.added).contains(p)
        ||| tract::in_strip(
            p as int,
            v0.tract.plow as int,
            v1.tract.plow as int,
            v0.tract.len as int,
        )
    }
}

/// What a live set holds after a delta it held before, or the delta adds.
proof fn lemma_applied_from(
    m: Map<u64, Seq<u8>>,
    added: Seq<(u64, Seq<u8>)>,
    removed: Seq<(u64, Seq<u8>)>,
    p: u64,
)
    requires
        keep::applied(m, added, removed).contains_key(p),
        !edit::places(added).contains(p),
    ensures
        m.contains_key(p),
        keep::applied(m, added, removed)[p] == m[p],
    decreases added.len() + removed.len(),
{
    if added.len() > 0 {
        assert(added.last() == added[added.len() - 1]);
        assert(!edit::places(added.drop_last()).contains(p)) by {
            if edit::places(added.drop_last()).contains(p) {
                let i = choose|i: int|
                    0 <= i < added.drop_last().len() && (#[trigger] added.drop_last()[i]).0 == p;
                assert(added[i].0 == p);
            }
        }
        lemma_applied_from(m, added.drop_last(), removed, p);
    } else if removed.len() > 0 {
        lemma_applied_from(m, added, removed.drop_last(), p);
    }
}

/// Taking up what a flush added, beside what was about to be live, renews a vault.
proof fn lemma_renewed(
    v0: VaultView,
    added: Seq<(u64, Seq<u8>)>,
    removed: Seq<(u64, Seq<u8>)>,
    v1: VaultView,
)
    requires
        hamt::arrived(
            v0.index.added,
            added,
            v0.tract.plow as int,
            v1.tract.plow as int,
            v0.tract.len as int,
        ),
        v1.live == keep::applied(v0.live, added, removed),
        tract::kept_outside(
            v0.ground(),
            v1.ground(),
            v0.tract.plow as int,
            v0.tract.reap + v0.tract.len,
        ),
    ensures
        renewed(v0, v1),
{
    assert forall|p: u64| #[trigger] v1.live.contains_key(p) implies {
        ||| v0.live.contains_key(p) && v1.live[p] == v0.live[p]
        ||| edit::places(v0.index.added).contains(p)
        ||| tract::in_strip(
            p as int,
            v0.tract.plow as int,
            v1.tract.plow as int,
            v0.tract.len as int,
        )
    } by {
        if edit::places(added).contains(p) {
            let i = choose|i: int| 0 <= i < added.len() && (#[trigger] added[i]).0 == p;
            if i < v0.index.added.len() {
                assert(added.take(v0.index.added.len() as int)[i] == added[i]);
                assert(v0.index.added[i].0 == p);
            }
        } else {
            lemma_applied_from(v0.live, added, removed, p);
        }
    }
}

/// Whether the live set holds no block but those that the index leads to.
pub open spec fn accounted(v: VaultView) -> bool {
    tight::tight(v.ground(), v.index, v.live)
}

/// Whether nothing was added or removed since the last commit.
pub open spec fn plain(v: VaultView) -> bool {
    v.index.added.len() == 0 && v.index.removed.len() == 0
}

/// Whether no block was both added and removed since the last commit, and none that was removed is in
/// clean space.
pub open spec fn apart(v: VaultView) -> bool {
    &&& tight::unmixed(v.index)
    &&& forall|p: u64| #[trigger]
        edit::places(v.index.removed).contains(p) ==> !tract::in_strip(
            p as int,
            v.tract.plow as int,
            v.tract.reap + v.tract.len,
            v.tract.len as int,
        )
}

/// A flush and a delta taken up leave a live set without more than the index leads to.
proof fn lemma_accounted(v0: VaultView, v1: VaultView, v2: VaultView)
    requires
        v0.good(),
        accounted(v0),
        apart(v0),
        tight::still_tight(v0.ground(), v0.index, v1.ground(), v1.index),
        v1.index.removed == v0.index.removed,
        hamt::arrived(
            v0.index.added,
            v1.index.added,
            v0.tract.plow as int,
            v1.tract.plow as int,
            v0.tract.len as int,
        ),
        v0.tract.plow <= v1.tract.plow <= v0.tract.reap + v0.tract.len,
        v2.live == keep::applied(v0.live, v1.index.added, v1.index.removed),
        v2.ground() == v1.ground(),
        v2.index.root == v1.index.root,
        v2.index.arena == v1.index.arena,
        plain(v2),
    ensures
        accounted(v2),
{
    assert(tight::unmixed(v1.index)) by {
        assert forall|p: u64| #[trigger]
            edit::places(v1.index.added).contains(p) implies !edit::places(
            v1.index.removed,
        ).contains(p) by {
            let i = choose|i: int|
                0 <= i < v1.index.added.len() && (#[trigger] v1.index.added[i]).0 == p;
            assert(v1.index.added[i].0 == p);
            if i < v0.index.added.len() {
                assert(v1.index.added.take(v0.index.added.len() as int)[i] == v1.index.added[i]);
                assert(v0.index.added[i].0 == p);
                assert(edit::places(v0.index.added).contains(p));
            } else {
                assert(tract::in_strip(
                    p as int,
                    v0.tract.plow as int,
                    v0.tract.reap + v0.tract.len,
                    v0.tract.len as int,
                ));
            }
        }
    }
    assert(tight::tight(v1.ground(), v1.index, v0.live));
    assert(keep::applied(v2.live, v2.index.added, v2.index.removed) == v2.live);
    assert forall|p: u64| #[trigger]
        keep::applied(v2.live, v2.index.added, v2.index.removed).contains_key(
            p,
        ) implies tight::led_to(v2.ground(), v2.index, p) by {
        assert(keep::applied(v0.live, v1.index.added, v1.index.removed).contains_key(p));
        assert(tight::led_to(v1.ground(), v1.index, p));
        let k = choose|k: Seq<u8>|
            k.len() == 32 && #[trigger] v1.index.path(v1.ground(), k).reads.contains(p);
        assert(v2.index.path(v2.ground(), k).reads.contains(p));
    }
}

/// A value put into a vault without a delta leaves no block both added and removed.
proof fn lemma_put_accounted(v0: VaultView, v1: VaultView, key: Seq<u8>, n: nat)
    requires
        v0.well(),
        v0.good(),
        plain(v0),
        accounted(v0),
        key.len() == 32,
        landed(v0, v1, key, n),
        v1.tract.plow <= v0.tract.reap + v0.tract.len,
    ensures
        accounted(v1),
        apart(v1),
{
    let t = v0.ground();
    let len = v0.tract.len as int;
    let to = v0.tract.reap + v0.tract.len;
    let from = v0.tract.plow as int;
    assert(hamt::newer(v0.index.removed, v1.index.removed) =~= v1.index.removed);
    assert forall|p: u64| #[trigger]
        edit::places(v1.index.removed).contains(p) implies p < len && !tract::in_strip(
        p as int,
        from,
        to,
        len,
    ) by {
        assert(v0.index.path(t, key).reads.contains(p));
    }
    assert(tight::unmixed(v1.index)) by {
        assert forall|p: u64| #[trigger]
            edit::places(v1.index.added).contains(p) implies !edit::places(
            v1.index.removed,
        ).contains(p) by {
            let i = choose|i: int|
                0 <= i < v1.index.added.len() && (#[trigger] v1.index.added[i]).0 == p;
            assert(v1.index.added[i].0 == p);
            assert(tract::in_strip(p as int, from, to, len));
        }
    }
    assert(apart(v1)) by {
        assert forall|p: u64| #[trigger]
            edit::places(v1.index.removed).contains(p) implies !tract::in_strip(
            p as int,
            v1.tract.plow as int,
            to,
            len,
        ) by {
            if tract::in_strip(p as int, v1.tract.plow as int, to, len) {
                tract::lemma_strip_tail(p as int, from, v1.tract.plow as int, to, len);
            }
        }
    }
    assert(tight::tight(v1.ground(), v1.index, v0.live));
}

/// What a commit came to.
pub open spec fn commit_done(v0: VaultView, v1: VaultView, r: Result<()>) -> bool {
    &&& standing::tended(v0, v1)
    &&& v1.tract.len == v0.tract.len
    &&& v1.tract.reap == v0.tract.reap
    &&& v0.tract.plow <= v1.tract.plow <= v0.tract.reap + v0.tract.len
    &&& v0.good() ==> v1.good() && v1.contents() == v0.contents()
    &&& v1.root is Some == v0.root is Some
    &&& match r {
        Ok(()) => {
            &&& records(v1)
            &&& v1.head().gen > v0.head().gen
            &&& v0.root is None ==> v1.tract.fence_limit == Some(
                fenced_by(fence_of(budgets(v1)), v1.shield),
            )
            &&& v0.good() ==> v1.hale() && v1.durable() == v0.contents()
            &&& settled_spine(v0) ==> entry_at(v1, v1.head().gen as int) == Some(v1.head())
        },
        Err(e) => {
            ||| v1.tract.refusal(1) == Some(e@)
            ||| e@ == no_root_hash()
            ||| e@ == last_generation()
            ||| block::device_error(e@) && !v0.sure
        },
    }
    &&& roomy(v0) ==> {
        &&& r is Ok || (r matches Err(e) && e@ == no_root_hash() && v0.index
            != standing::index_of(v0.head()))
        &&& v1.tract.plow <= v0.tract.plow + v0.index.dirt()
        &&& r is Ok ==> v1.head().gen == v0.head().gen + 1
        &&& v0.index == standing::index_of(v0.head()) ==> v1.live == v0.live && v1.tract.plow
            == v0.tract.plow
    }
    &&& committable(v0) ==> r is Ok || (r matches Err(e) && e@ == no_root_hash())
    &&& v0.sure && 2 <= v0.exponent <= 32 && (r matches Err(e) && e@ is Fenced)
        ==> v1.tract.fence_limit == Some(own_fence(v0))
    &&& mooring::moored(v0) && (!by_device(r) || v0.sure) ==> mooring::moored(v1)
    &&& windowed(v0, v1)
}

/// How many generations a residence hosts before the spine moves on.
pub open spec fn stay(x: RootView, exponent: u8) -> int {
    if x.residency * pow2(exponent as nat) <= u64::MAX {
        x.residency * pow2(exponent as nat)
    } else {
        u64::MAX as int
    }
}

/// The root entry that moves the spine on from `start` when generation `g` was committed there.
pub open spec fn moved_on(x: RootView, start: u64, g: u64, now: i64) -> RootView {
    RootView {
        gen: (x.gen + 1) as u64,
        prev: root::root_hash(x),
        at: mooring::next_residence(x, start as int) as u64,
        was: start,
        since: (if g < u64::MAX {
            g + 1
        } else {
            u64::MAX as int
        }) as u64,
        time: now,
        ..x
    }
}

/// Where the spine resides after a commit: on the fixed layout where it did, and on the migrating one
/// in the next residence of the band once the present one hosted its generations.
pub open spec fn resides(v0: VaultView, v1: VaultView, now: i64) -> bool {
    match v0.root {
        None => v1.root is None && v1.start == v0.start,
        Some(x) => if (if v1.head().gen > x.since {
            v1.head().gen - x.since
        } else {
            0
        }) >= stay(x, v0.exponent) {
            &&& v1.root == Some(moved_on(x, v0.start, v1.head().gen, now))
            &&& v1.start == moved_on(x, v0.start, v1.head().gen, now).at
        } else {
            v1.root == v0.root && v1.start == v0.start
        },
    }
}

/// Whether the head is dated, and chains to one that asserts what the head before asserted: that head
/// itself, or a heartbeat of it.
pub open spec fn chained(v0: VaultView, v1: VaultView, now: i64) -> bool {
    &&& v1.head().time == now
    &&& exists|p: SpineView|
        p.gen + 1 == v1.head().gen && #[trigger] asserts_again(v0.head(), p) && v1.head().prev
            == spine::spine_hash(p) && (v1.head().gen == v0.head().gen + 1 ==> p == v0.head())
}

impl<A: BlockDev, B: BlockDev> Vault<A, B> {
    /// Moves the spine on where its residence hosted the generations that it should.
    fn move_on(&mut self, now: i64) -> (r: Result<()>)
        requires
            old(self)@.well(),
        ensures
            standing::kept(old(self)@, final(self)@),
            spine_only(old(self)@, final(self)@),
            final(self)@.tract == old(self)@.tract,
            final(self)@.top == old(self)@.top,
            final(self)@.shield == old(self)@.shield,
            final(self)@.root is Some == old(self)@.root is Some,
            old(self)@.root is None ==> r is Ok && final(self)@ == old(self)@ && final(self).guard()
                == old(self).guard(),
            mooring::moored(old(self)@) && mooring::lodged(
                old(self)@.disk,
                old(self)@.start as int,
                old(self)@.exponent,
                old(self)@.top,
            ) && (r is Ok || old(self)@.sure) ==> mooring::moored(final(self)@),
            r is Ok ==> resides(old(self)@, final(self)@, now),
            r matches Err(e) ==> e@ == last_generation() && (old(self)@.root matches Some(x) && x.gen
                == u64::MAX) || (block::device_error(e@) && !old(self)@.sure),
    {
        let hop = match &self.root {
            Some(root) => {
                let n: u64 = slot_count(self.ring.ring_log2());
                let stay: u64 = match root.residency.checked_mul(n) {
                    Some(x) => x,
                    None => u64::MAX,
                };
                let gen: u64 = match self.ring.head() {
                    Some(h) => h.gen,
                    None => 0,
                };
                gen.saturating_sub(root.since) >= stay
            },
            None => false,
        };
        proof {
            self.lemma_ring_well();
            lemma_pow2_pos(self@.exponent as nat);
        }
        if hop {
            return self.migrate_ring(now);
        }
        Ok(())
    }

    /// Flushes the index, with heartbeats while the fence refuses.
    ///
    /// Flushing needs appends; appends can be fenced; raising the fence needs generations.
    /// Heartbeats break the cycle: spine entries that assert the committed head again, written into
    /// the ring's region, which is not fenced, slide old entries out of the window.
    fn flush_index(&mut self, now: i64) -> (r: Result<([u8; 32], u64)>)
        requires
            old(self)@.well(),
        ensures
            standing::tended(old(self)@, final(self)@),
            final(self)@.tract.len == old(self)@.tract.len,
            final(self)@.tract.reap == old(self)@.tract.reap,
            old(self)@.tract.plow <= final(self)@.tract.plow,
            final(self)@.shield == old(self)@.shield,
            final(self)@.root == old(self)@.root,
            final(self)@.start == old(self)@.start,
            final(self)@.live == old(self)@.live,
            final(self)@.head().gen >= old(self)@.head().gen,
            asserts_again(old(self)@.head(), final(self)@.head()),
            windowed(old(self)@, final(self)@),
            r is Ok && final(self)@.head().gen == old(self)@.head().gen ==> final(self)@.head()
                == old(self)@.head(),
            2 <= old(self)@.exponent <= 32 && old(self)@.sure && (r matches Err(e) && e@ is Fenced)
                ==> final(self)@.tract.fence_limit == Some(own_fence(old(self)@)),
            committable(old(self)@) ==> (r is Ok || (r matches Err(e) && e@ == no_root_hash()))
                && final(self)@.head().gen <= old(self)@.head().gen + FENCE_K + 3,
            old(self)@.good() ==> final(self)@.good() && final(self)@.contents() == old(
                self,
            )@.contents(),
            old(self)@.hale() ==> final(self)@.durable() == old(self)@.durable(),
            match r {
                Ok((h, l)) => final(self)@.index.root == hamt::root_slot(h@, l)
                    && final(self)@.index.arena.len() == 0,
                Err(e) => {
                    ||| final(self)@.tract.refusal(1) == Some(e@)
                    ||| e@ == no_root_hash()
                    ||| e@ == last_generation()
                    ||| block::device_error(e@) && !old(self)@.sure
                },
            },
            mooring::moored(old(self)@) && (r is Ok || !(r matches Err(e) && block::device_error(
                e@,
            )) || old(self)@.sure) ==> mooring::moored(final(self)@),
            roomy(old(self)@) ==> (r is Ok && final(self)@.top == old(self)@.top
                && tract::kept_around(
                old(self)@.disk,
                final(self)@.disk,
                old(self)@.tract.base as int,
                old(self)@.tract.len as int,
            ) && tract::kept_outside(
                old(self)@.ground(),
                final(self)@.ground(),
                old(self)@.tract.plow as int,
                old(self)@.tract.reap + old(self)@.tract.len,
            ) && hamt::arrived(
                old(self)@.index.added,
                final(self)@.index.added,
                old(self)@.tract.plow as int,
                final(self)@.tract.plow as int,
                old(self)@.tract.len as int,
            )) || (r matches Err(e) && e@ == no_root_hash() && old(self)@.index
                != standing::index_of(old(self)@.head())),
            roomy(old(self)@) && old(self)@.good() && r is Ok ==> tight::still_tight(
                old(self)@.ground(),
                old(self)@.index,
                final(self)@.ground(),
                final(self)@.index,
            ) && final(self)@.index.removed == old(self)@.index.removed,
            roomy(old(self)@) ==> final(self)@.tract.plow <= old(self)@.tract.plow + old(
                self,
            )@.index.dirt() && (old(self)@.index == standing::index_of(old(self)@.head())
                ==> final(self)@.tract.plow == old(self)@.tract.plow
                && final(self)@.index.added.len() == 0
                && final(self)@.index.removed.len() == 0),
    {
        let ghost v0 = self@;
        let mut attempts: u64 = 0;
        proof {
            lemma_window_same(v0, v0);
        }
        loop
            invariant
                v0 == old(self)@,
                v0.well(),
                attempts <= FENCE_K + 3,
                windowed(v0, self@),
                standing::tended(v0, self@),
                self@.tract.len == v0.tract.len,
                self@.tract.reap == v0.tract.reap,
                v0.tract.plow <= self@.tract.plow,
                self@.shield == v0.shield,
                self@.root == v0.root,
                self@.start == v0.start,
                self@.live == v0.live,
                self@.head().gen == v0.head().gen + attempts,
                attempts == 0 ==> self@.head() == v0.head(),
                self@.exponent == v0.exponent,
                self@.sure == v0.sure,
                asserts_again(v0.head(), self@.head()),
                self@.tract.plow + self@.index.dirt() <= v0.tract.plow + v0.index.dirt(),
                2 <= v0.exponent <= 32 ==> forall|x: int|
                    v0.head().gen < x && self@.head().gen - FENCE_K < x <= self@.head().gen
                        ==> #[trigger] budget_at(self@, x) == (if v0.head().budget()
                        <= u64::MAX {
                        v0.head().budget()
                    } else {
                        u64::MAX as int
                    }),
                2 <= v0.exponent <= 32 && attempts >= FENCE_K ==> self@.tract.fence_limit == Some(
                    own_fence(v0),
                ),
                v0.good() ==> self@.good() && self@.contents() == v0.contents(),
                v0.hale() ==> self@.durable() == v0.durable(),
                mooring::moored(v0) ==> mooring::moored(self@),
                attempts == 0 ==> self@ == v0,
                attempts > 0 ==> !roomy(v0),
            decreases FENCE_K + 4 - attempts,
        {
            let ghost v1 = self@;
            proof {
                self.lemma_ring_well();
            }
            let done = self.hamt.flush(self.ring.mirror(), &mut self.tract);
            let ghost v2 = self@;
            proof {
                assert(worked(v1, v2));
                lemma_worked(v1, v2);
                if v1.good() {
                    standing::lemma_book_same(v1.ground(), v1.index, v2.ground(), v2.index);
                }
                standing::lemma_tended_twice(v0, v1, v2);
                lemma_window_worked(v1, v2);
                lemma_windowed_twice(v0, v1, v2);
                if v0.index == standing::index_of(v0.head()) && attempts == 0 {
                    assert(edit::dirty_slots(v0.index.arena) == 0);
                    assert(hamt::root_slot(v0.head().hamt, v0.head().hamtat)
                        == v1.index.root);
                }
                if roomy(v0) && attempts == 0 && done is Err && (done->Err_0)@ != no_root_hash() {
                    assert(v2.tract.plow < v0.tract.plow + v0.index.dirt());
                    assert(v2.tract.refusal(1) is None);
                }
            }
            match done {
                Ok(x) => return Ok(x),
                Err(Error::Fenced(w)) => {
                    if attempts > FENCE_K + 2 {
                        return Err(Error::Fenced(w));
                    }
                    attempts = attempts + 1;
                    let beat = self.append_heartbeat(now);
                    proof {
                        lemma_spine_only(v2, self@);
                        standing::lemma_tended_twice(v0, v2, self@);
                        lemma_windowed_twice(v0, v2, self@);
                        if 2 <= v0.exponent <= 32 && beat is Ok {
                            vstd::arithmetic::power2::lemma2_to64();
                            if v0.exponent > 2 {
                                vstd::arithmetic::power2::lemma_pow2_strictly_increases(
                                    2,
                                    v0.exponent as nat,
                                );
                            }
                            assert forall|x: int|
                                v0.head().gen < x && self@.head().gen - FENCE_K < x
                                    <= self@.head().gen implies #[trigger] budget_at(
                                self@,
                                x,
                            ) == (if v0.head().budget() <= u64::MAX {
                                v0.head().budget()
                            } else {
                                u64::MAX as int
                            }) by {
                                if x <= v2.head().gen {
                                    lemma_budget_kept(v1, v2, x);
                                    assert(budget_at(v1, x) == budget_at(v2, x));
                                }
                            }
                            if attempts >= FENCE_K {
                                lemma_beaten(v0, self@, attempts as int);
                            }
                        }
                    }
                    if let Err(e) = beat {
                        return Err(e);
                    }
                },
                Err(e) => return Err(e),
            }
        }
    }

    /// Flushes the index, appends the next generation and sets the fence anew. The commit point of
    /// every transaction: all before it is provisional.
    #[verifier::rlimit(40)]
    pub fn commit(&mut self, now: i64) -> (r: Result<()>)
        requires
            old(self)@.well(),
        ensures
            commit_done(old(self)@, final(self)@, r),
            r is Ok && old(self)@.root is None ==> final(self).guard() == fence_of(
                budgets(final(self)@),
            ),
            r is Ok && roomy(old(self)@) && old(self)@.root is None && 0 < old(self)@.exponent <= 32
                ==> slid(old(self)@, final(self)@),
            r is Ok && roomy(old(self)@) ==> renewed(old(self)@, final(self)@),
            r is Ok && roomy(old(self)@) && old(self)@.good() && accounted(old(self)@) && apart(
                old(self)@,
            ) ==> accounted(final(self)@),
            r is Ok ==> resides(old(self)@, final(self)@, now) && chained(
                old(self)@,
                final(self)@,
                now,
            ),
            r is Ok ==> (old(self)@.root matches Some(x) ==> x.residency > 0 && x.residency * pow2(
                old(self)@.exponent as nat,
            ) <= u64::MAX ==> {
                let g = final(self)@.head().gen;
                let laps = x.residency * pow2(old(self)@.exponent as nat);
                &&& g - x.since < laps ==> final(self)@.root == Some(x) && final(self)@.start == old(
                    self,
                )@.start
                &&& g - x.since >= laps ==> (final(self)@.root matches Some(y) && y.was == old(
                    self,
                )@.start && y.at == final(self)@.start && y.since > g - 1 && y.residency
                    == x.residency && y.residences == x.residences)
            }),
    {
        let ghost v0 = self@;
        let flushed = self.flush_index(now);
        let ghost v1 = self@;
        let (hash, lba) = match flushed {
            Ok(x) => x,
            Err(e) => return Err(e),
        };
        let delta = self.hamt.take_delta();
        self.live.apply(delta);
        let ghost v2 = self@;
        proof {
            if roomy(v0) {
                assert(v2.ground() =~= v1.ground());
                lemma_renewed(v0, v1.index.added, v1.index.removed, v2);
                if v0.good() && accounted(v0) && apart(v0) {
                    lemma_accounted(v0, v1, v2);
                }
            }
            lemma_delta_taken(v1, v2);
            lemma_window_same(v1, v2);
            lemma_windowed_twice(v0, v1, v2);
            assert(v2.index =~= hamt::committed_index(hash@, lba));
            self.lemma_ring_well();
        }
        let entry = match self.ring.head() {
            None => return Err(corrupt_err("commit on pre-genesis vault")),
            Some(head) => {
                if head.gen == u64::MAX {
                    return Err(corrupt_err("generation numbers are used up"));
                }
                SpineEntry {
                    gen: head.gen + 1,
                    prev_hash: head.body_hash(),
                    ring_log2: self.ring.ring_log2(),
                    tract_blocks: self.tract.len,
                    hamt_hash: hash,
                    hamt_lba: lba,
                    plow: self.tract.plow,
                    reap: Some(self.tract.reap),
                    live: self.live.len() as u64,
                    eagle_time: now,
                }
            },
        };
        proof {
            lemma_pow2_pos(v0.exponent as nat);
            vstd::arithmetic::div_mod::lemma_mod_bound(entry.gen as int, v2.slots());
        }
        let landed = self.ring.append(&entry);
        let ghost v3 = self@;
        proof {
            assert(spine_only(v2, v3));
            lemma_spine_only(v2, v3);
        }
        if let Err(e) = landed {
            return Err(e);
        }
        self.shield = self.tract.reap.saturating_add(self.tract.len);
        match self.tract.fence_limit {
            Some(f) => {
                if f > self.shield {
                    self.tract.fence_limit = Some(self.shield);
                }
            },
            None => {},
        }
        let ghost v4 = self@;
        proof {
            assert(spine_only(v2, v4));
            lemma_committed(v2, v4);
            if mooring::moored(v0) {
                mooring::lemma_moored_append(v2, v3, entry@);
                assert(mooring::moored(v4));
                assert(mooring::lodged(v4.disk, v4.start as int, v4.exponent, v4.top));
            }
        }
        let done = self.refence();
        let ghost v5 = self@;
        proof {
            assert(budgets(v5) =~= budgets(v4));
            assert(spine_only(v2, v5));
            lemma_committed(v2, v5);
            if roomy(v0) && v0.root is None && 0 < v0.exponent <= 32 && done is Ok {
                lemma_slid(v0, v5);
            }
            if settled_spine(v0) && done is Ok {
                lemma_slid(v2, v5);
            }
            if settled_spine(v0) && done is Ok && v0.hale() && v0.sure {
                lemma_window_slid(v2, v5);
                lemma_window_twice(v0, v2, v5);
            }
        }
        if let Err(e) = done {
            return Err(e);
        }
        let moved = self.move_on(now);
        proof {
            assert(asserts_again(v0.head(), v1.head()));
            assert(v5.head().prev == spine::spine_hash(v1.head()));
            assert(spine_only(v2, self@));
            lemma_committed(v2, self@);
        }
        if let Err(e) = moved {
            return Err(e);
        }
        proof {
            lemma_spine_only(v2, self@);
            if let Some(x) = v0.root {
                if x.residency > 0 {
                    assert(x.residency * pow2(v0.exponent as nat) > 0) by (nonlinear_arith)
                        requires
                            x.residency > 0,
                            pow2(v0.exponent as nat) > 0,
                    ;
                }
            }
        }
        Ok(())
    }
}

/// Whether a vault differs from another in what it holds in memory alone.
pub open spec fn memory_only(v0: VaultView, v1: VaultView) -> bool {
    &&& v1.disk == v0.disk
    &&& v1.sure == v0.sure
    &&& v1.start == v0.start
    &&& v1.exponent == v0.exponent
    &&& v1.top == v0.top
    &&& v1.root == v0.root
    &&& v1.tract.base == v0.tract.base
    &&& v1.tract.len == v0.tract.len
}

proof fn lemma_memory_moored(v0: VaultView, v1: VaultView)
    requires
        memory_only(v0, v1),
    ensures
        mooring::moored(v0) == mooring::moored(v1),
{
}

/// A vault that was loaded from its committed head is in working order, and answers what the head
/// answers.
proof fn lemma_seated(v: VaultView, s: survey::Survey)
    requires
        v.well(),
        load::loaded(v.ground(), standing::index_of(v.head()), s, v.index, v.live),
        keep::sound(v.ground(), standing::index_of(v.head())),
        v.head().tract <= v.tract.len,
        standing::within(
            v.ground(),
            standing::index_of(v.head()),
            v.head().tract as int,
        ),
        keep::sheltered(
            v.ground(),
            v.index,
            v.tract.plow as int,
            v.tract.reap + v.tract.len,
        ),
        keep::sheltered(
            v.ground(),
            standing::index_of(v.head()),
            v.tract.plow as int,
            v.shield as int,
        ),
    ensures
        v.hale(),
        v.contents() == v.durable(),
{
    let c = standing::index_of(v.head());
    standing::lemma_book_same(v.ground(), c, v.ground(), v.index);
    standing::lemma_ground_longer(
        v.disk,
        v.tract.base as int,
        v.head().tract as nat,
        v.tract.len as nat,
        c,
    );
    assert(c.wf());
}

/// What a loaded index reads is live, and lies in the tract.
proof fn lemma_loaded_reads(t: Seq<Seq<u8>>, c: hamt::Index, s: survey::Survey, ix: hamt::Index, live: Map<u64, Seq<u8>>)
    requires
        load::loaded(t, c, s, ix, live),
        keep::sound(t, c),
    ensures
        forall|k: Seq<u8>, p: u64|
            k.len() == 32 && (#[trigger] ix.path(t, k).reads.contains(p)) ==> p < t.len()
                && live.contains_key(p),
{
    assert forall|k: Seq<u8>, p: u64|
        k.len() == 32 && (#[trigger] ix.path(t, k).reads.contains(p)) implies p < t.len()
        && live.contains_key(p) by {
        assert(keep::covered(t, ix, live));
    }
}

/// Whether a vault is what loading its committed head gives: what is live is what the walk of that
/// index lists, the index is the committed one, guarded as far as clean space goes, unless pointers
/// had to be taken out of it, and the cursors suit what is live.
pub open spec fn reloaded(v0: VaultView, v1: VaultView) -> bool {
    let c = standing::index_of(v0.head());
    &&& memory_only(v0, v1)
    &&& survey::survey_root(v0.ground(), c.root, false) matches Ok(s) && {
        &&& v1.live == keep::filled(Map::<u64, Seq<u8>>::empty(), s.live)
        &&& load::snips_of(s).len() == 0 ==> {
            &&& v1.index == c
            &&& v1.shield == (if v1.tract.reap + v1.tract.len <= u64::MAX {
                v1.tract.reap + v1.tract.len
            } else {
                u64::MAX as int
            })
        }
    }
    &&& load::suited(v1.live, v0.tract.plow, v0.tract.len, v1.tract.plow, v1.tract.reap)
    &&& v1.tract.plow <= v1.shield <= v1.tract.reap + v1.tract.len
}

impl<A: BlockDev, B: BlockDev> Vault<A, B> {
    /// Discards all provisional state: loads the committed head again. Orphaned blocks are dead, and
    /// the sweep reclaims them.
    fn reset(&mut self) -> (r: Result<()>)
        requires
            old(self)@.well(),
        ensures
            memory_only(old(self)@, final(self)@),
            standing::tended(old(self)@, final(self)@),
            r is Err ==> final(self)@ == old(self)@,
            r is Ok ==> reloaded(old(self)@, final(self)@),
            r is Ok && old(self)@.guarded() ==> final(self)@.hale() && final(self)@.contents()
                == old(self)@.durable() && final(self)@.durable() == old(self)@.durable(),
            old(self)@.guarded() && old(self)@.sure && old(self)@.tract.plow + old(self)@.tract.len
                <= u64::MAX ==> r is Ok,
            mooring::moored(old(self)@) ==> mooring::moored(final(self)@),
    {
        let ghost v0 = self@;
        proof {
            self.lemma_ring_well();
        }
        let (hash, lba) = match self.ring.head() {
            None => return Err(corrupt_err("rescue on pre-genesis vault")),
            Some(h) => (h.hamt_hash, h.hamt_lba),
        };
        let found = seat(self.ring.mirror(), &self.tract, hash, lba, false);
        let x = match found {
            Ok(x) => x,
            Err(e) => return Err(e),
        };
        self.hamt = x.loaded.hamt;
        self.live = x.loaded.live;
        self.tract.plow = x.plow;
        self.tract.reap = x.reap;
        self.shield = x.shield;
        match self.tract.fence_limit {
            Some(f) => {
                if f > self.shield {
                    self.tract.fence_limit = Some(self.shield);
                }
            },
            None => {},
        }
        proof {
            let v1 = self@;
            let t = v0.ground();
            let c = standing::index_of(v0.head());
            assert(v1.ground() =~= t);
            lemma_memory_moored(v0, v1);
            if v0.guarded() {
                let s = survey::survey_root(t, c.root, false)->Ok_0;
                lemma_loaded_reads(t, c, s, v1.index, v1.live);
                lemma_seated(v1, s);
            }
        }
        Ok(())
    }
}

/// The plow of a tract that grew from `n` to `len`: the smallest total from `plow` on whose position
/// is the first new block.
pub open spec fn realigned(plow: int, n: int, len: int) -> int {
    plow + (n - plow) % len
}

proof fn lemma_realigned(plow: int, n: int, len: int)
    requires
        0 <= plow,
        0 <= n < len,
    ensures
        plow <= realigned(plow, n, len),
        realigned(plow, n, len) % len == n,
        realigned(plow, n, len) >= n,
        (n - plow) % len == (if n >= plow % len {
            n - plow % len
        } else {
            len - (plow % len - n)
        }),
{
    vstd::arithmetic::div_mod::lemma_fundamental_div_mod(plow, len);
    vstd::arithmetic::div_mod::lemma_mod_bound(plow, len);
    let a = plow % len;
    let q = plow / len;
    vstd::arithmetic::div_mod::lemma_div_pos_is_pos(plow, len);
    let d = if n >= a {
        n - a
    } else {
        len - (a - n)
    };
    let x = if n >= a {
        -q
    } else {
        -q - 1
    };
    assert(n - plow == x * len + d) by (nonlinear_arith)
        requires
            plow == len * q + a,
            d == (if n >= a {
                n - a
            } else {
                len - (a - n)
            }),
            x == (if n >= a {
                -q
            } else {
                -q - 1
            }),
    ;
    vstd::arithmetic::div_mod::lemma_fundamental_div_mod_converse(n - plow, len, x, d);
    let y = -x;
    assert(plow + d == y * len + n) by (nonlinear_arith)
        requires
            n - plow == x * len + d,
            y == -x,
    ;
    vstd::arithmetic::div_mod::lemma_fundamental_div_mod_converse(plow + d, len, y, n);
    assert(y * len >= 0) by (nonlinear_arith)
        requires
            y >= 0,
            len > 0,
    ;
}

/// What a growth came to.
pub open spec fn grow_done(v0: VaultView, v1: VaultView, len: u64, r: Result<()>) -> bool {
    &&& standing::tended(v0, v1)
    &&& mooring::moored(v0) && (!by_device(r) || v0.sure) ==> mooring::moored(v1)
    &&& if len < v0.tract.len {
        &&& r matches Err(e) && e@ == ErrorView::Corrupt(
            "grow cannot shrink tract: "@ + text::dec(v0.tract.len as nat) + " -> "@
                + text::dec(len as nat) + ""@,
        )
        &&& v1 == v0
    } else if len == v0.tract.len {
        r is Ok && v1 == v0
    } else if len > u64::MAX - v0.tract.base {
        &&& r matches Err(e) && e@ == error::corrupt("tract out of range")
        &&& v1 == v0
    } else {
        &&& r is Ok ==> regrown(v0, v1, len)
        &&& can_grow(v0, len) ==> {
            &&& r is Ok
            &&& v1.head().gen == v0.head().gen + 1
            &&& v1.tract.plow == realigned(
                v0.head().plow as int,
                v0.tract.len as int,
                len as int,
            )
        }
    }
}

/// Whether a tract took up more blocks: clean space is the new blocks, all that was there awaits the
/// reap, and a later generation records that. What was provisional is gone.
pub open spec fn regrown(v0: VaultView, v1: VaultView, len: u64) -> bool {
    let at = realigned(v0.head().plow as int, v0.tract.len as int, len as int);
    &&& v1.tract.len == len
    &&& v1.tract.base + len <= v1.disk.len()
    &&& records(v1)
    &&& v1.head().gen > v0.head().gen
    &&& v1.tract.reap == at - v0.tract.len
    &&& at <= v1.tract.plow
    &&& v0.guarded() ==> v1.hale() && v1.contents() == v0.durable() && v1.durable()
        == v0.durable()
}

/// What taking up blocks that the devices have came to.
pub open spec fn taken_up(v0: VaultView, v1: VaultView, len: u64, r: Result<()>) -> bool {
    &&& standing::tended(v0, v1)
    &&& mooring::moored(v0) && (!by_device(r) || v0.sure) ==> mooring::moored(v1)
    &&& r is Ok ==> regrown(v0, v1, len)
    &&& can_grow(v0, len) ==> {
        &&& r is Ok
        &&& v1.head().gen == v0.head().gen + 1
        &&& v1.tract.plow == realigned(v0.head().plow as int, v0.tract.len as int, len as int)
    }
}

/// Whether a tract can be grown for sure: the committed head is in order, with no pointer that has to
/// be taken out, the devices do not fail and either are long enough or can be extended, and
/// generation numbers and cursors are left.
pub open spec fn can_grow(v: VaultView, len: u64) -> bool {
    &&& v.guarded()
    &&& v.sure
    &&& v.tract.base + len <= v.disk.len() || v.tract.base + len <= v.limit
    &&& survey::survey_root(v.ground(), standing::index_of(v.head()).root, false) matches Ok(s)
        && load::snips_of(s).len() == 0
    &&& v.head().gen < u64::MAX
    &&& v.root matches Some(x) ==> x.gen < u64::MAX
    &&& v.head().plow + v.tract.len <= u64::MAX
    &&& realigned(v.head().plow as int, v.tract.len as int, len as int) <= u64::MAX
}

impl<A: BlockDev, B: BlockDev> Vault<A, B> {
    /// Grows the tract to `new_tract_blocks`; it never shrinks, and the same length changes nothing.
    /// Space first, geometry second: devices are extended before the spine entry with the new length
    /// lands.
    ///
    /// A growth is a barrier: it discards all provisional state by loading the committed head. Clean
    /// space is then exactly the appended blocks, and the old region awaits the reap.
    pub fn grow(&mut self, new_tract_blocks: u64, now: i64) -> (r: Result<()>)
        requires
            old(self)@.well(),
        ensures
            grow_done(old(self)@, final(self)@, new_tract_blocks, r),
            r is Ok && old(self)@.twin && old(self)@.tract.len < new_tract_blocks && final(self).second() is Some
                ==> final(self).second() == Some(final(self)@.disk) && old(self)@.tract.base
                + new_tract_blocks <= final(self)@.disk.len(),
    {
        let ghost v0 = self@;
        let old_len: u64 = self.tract.len;
        if new_tract_blocks < old_len {
            return Err(
                corrupt_num2("grow cannot shrink tract: ", old_len, " -> ", new_tract_blocks, ""),
            );
        }
        if new_tract_blocks == old_len {
            return Ok(());
        }
        if new_tract_blocks > u64::MAX - self.tract.base {
            return Err(corrupt_err("tract out of range"));
        }
        proof {
            self.lemma_ring_well();
        }
        let answer = self.ring.mirror().grow(self.tract.base + new_tract_blocks);
        let ghost v1 = self@;
        proof {
            standing::lemma_disk_longer(v0, v1);
            if mooring::moored(v0) {
                mooring::lemma_moored_below(v0, v1);
            }
        }
        let done = self.take_up(new_tract_blocks, answer, now);
        proof {
            standing::lemma_tended_twice(v0, v1, self@);
        }
        done
    }

    /// What follows the devices' answer to a growth: their error, or the tract takes up the new
    /// blocks.
    #[verifier::rlimit(60)]
    fn take_up(&mut self, len: u64, answer: Result<()>, now: i64) -> (r: Result<()>)
        requires
            old(self)@.well(),
            old(self)@.tract.len < len,
            len <= u64::MAX - old(self)@.tract.base,
            answer is Ok ==> old(self)@.tract.base + len <= old(self)@.disk.len(),
        ensures
            answer matches Err(e) ==> (r matches Err(x) && x@ == e@) && final(self)@ == old(self)@,
            answer is Ok ==> taken_up(old(self)@, final(self)@, len, r),
    {
        let ghost v1 = self@;
        let old_len: u64 = self.tract.len;
        if let Err(e) = answer {
            return Err(e);
        }
        proof {
            self.lemma_ring_well();
        }
        let (hash, lba, plow) = match self.ring.head() {
            None => return Err(corrupt_err("grow on pre-genesis vault")),
            Some(h) => (h.hamt_hash, h.hamt_lba, h.plow),
        };
        let last = Tract {
            base: self.tract.base,
            len: old_len,
            plow,
            reap: self.tract.reap,
            fence_limit: self.tract.fence_limit,
        };
        let found = seat(self.ring.mirror(), &last, hash, lba, false);
        let x = match found {
            Ok(x) => x,
            Err(e) => return Err(e),
        };
        let at: u64 = plow % len;
        let delta: u64 = if old_len >= at {
            old_len - at
        } else {
            len - (at - old_len)
        };
        proof {
            lemma_realigned(plow as int, old_len as int, len as int);
        }
        if delta > u64::MAX - plow {
            return Err(corrupt_err("cursors out of range"));
        }
        self.hamt = x.loaded.hamt;
        self.live = x.loaded.live;
        self.tract.plow = plow + delta;
        self.tract.reap = plow + delta - old_len;
        self.tract.len = len;
        self.shield = self.tract.reap.saturating_add(len);
        match self.tract.fence_limit {
            Some(f) => {
                if f > self.shield {
                    self.tract.fence_limit = Some(self.shield);
                }
            },
            None => {},
        }
        let ghost v2 = self@;
        proof {
            let base = v1.tract.base as int;
            let t = v1.ground();
            let c = standing::index_of(v1.head());
            assert(last.on(v1.disk) =~= t);
            assert(v2.well());
            if v1.guarded() {
                let s = survey::survey_root(t, c.root, false)->Ok_0;
                assert(c.wf());
                lemma_loaded_reads(t, c, s, v2.index, v2.live);
                let to = v2.tract.reap + v2.tract.len;
                standing::lemma_fit_wider(
                    v1.disk,
                    base,
                    old_len as nat,
                    len as nat,
                    v2.index,
                    v2.tract.plow as int,
                    to,
                );
                standing::lemma_fit_wider(
                    v1.disk,
                    base,
                    old_len as nat,
                    len as nat,
                    c,
                    v2.tract.plow as int,
                    v2.shield as int,
                );
                standing::lemma_ground_wider(
                    v1.disk,
                    base,
                    old_len as nat,
                    len as nat,
                    v2.index,
                );
                standing::lemma_ground_wider(
                    v1.disk,
                    base,
                    old_len as nat,
                    len as nat,
                    c,
                );
                standing::lemma_ground_longer(
                    v1.disk,
                    base,
                    v1.head().tract as nat,
                    old_len as nat,
                    c,
                );
                standing::lemma_book_same(t, c, t, v2.index);
                assert(keep::covered(t, v2.index, v2.live));
                assert(v2.good());
                assert(standing::within(v2.ground(), c, v1.head().tract as int)) by {
                    assert forall|k: Seq<u8>, p: u64|
                        k.len() == 32 && (#[trigger] c.path(v2.ground(), k).reads.contains(
                            p,
                        )) implies p < v1.head().tract by {
                        assert(c.path(t, k).reads.contains(p));
                    }
                }
                assert(v2.guarded());
                assert(v2.contents() == v1.durable());
            }
        }
        let done = self.commit(now);
        proof {
            standing::lemma_tended_twice(v1, v2, self@);
        }
        done
    }
}

/// What a reap of a window came to, before its commit.
proof fn lemma_reaped(v0: VaultView, v1: VaultView)
    requires
        v0.well(),
        worked(v0, VaultView { tract: hamt::with_reap(&v1.tract, v0.tract.reap), ..v1 }),
        v1.tract.wf(),
        v0.good() ==> keep::same_answers(v0.ground(), v0.index, v1.ground(), v1.index),
        v0.good() ==> keep::fit(
            v1.ground(),
            v1.index,
            v1.tract.plow as int,
            v1.tract.reap + v1.tract.len,
        ),
    ensures
        standing::tended(v0, v1),
        v0.good() ==> v1.good() && v1.contents() == v0.contents(),
        v0.hale() ==> v1.durable() == v0.durable(),
        mooring::moored(v0) ==> mooring::moored(v1),
        windowed(v0, v1),
{
    let v = VaultView { tract: hamt::with_reap(&v1.tract, v0.tract.reap), ..v1 };
    lemma_worked(v0, v);
    lemma_window_worked(v0, v);
    lemma_window_same(v, v1);
    lemma_window_twice(v0, v, v1);
    assert(v.ground() =~= v1.ground());
    if v0.good() {
        standing::lemma_book_same(v0.ground(), v0.index, v1.ground(), v1.index);
    }
}

/// The live set of a vault whose index has no delta tells what is live.
proof fn lemma_reapable(v: VaultView, live: &LiveSet, start: int, end: int)
    requires
        v.good(),
        live@ == v.live,
        v.index.added.len() == 0,
        v.index.removed.len() == 0,
    ensures
        hamt::reapable(v.ground(), v.index, live, start, end),
{
    let t = v.ground();
    assert(keep::applied(v.live, v.index.added, v.index.removed) == v.live);
    assert forall|k: Seq<u8>, p: u64|
        k.len() == 32 && (#[trigger] v.index.path(t, k).reads.contains(p)) implies p < t.len() && (
    seal::hp_of(t[p as int]) matches Some(h) && tract::Liveness::holds(live, p, h))
        && (tract::in_strip(p as int, start, end, t.len() as int) ==> !edit::places(
        v.index.removed,
    ).contains(p)) by {
        assert(keep::knows(t, v.index, v.live));
    }
}

/// What an operation that frees room came to: nothing was put in, taken out or discarded.
pub open spec fn freed(v0: VaultView, v1: VaultView) -> bool {
    &&& standing::tended(v0, v1)
    &&& v0.hale() ==> v1.contents() == v0.contents()
}

/// Whether no block of the first `w` at the reap is live.
pub open spec fn dead_ahead(v: VaultView, w: int) -> bool {
    forall|p: u64|
        p < v.tract.len && #[trigger] tract::in_strip(
            p as int,
            v.tract.reap as int,
            v.tract.reap + w,
            v.tract.len as int,
        ) ==> !v.live.contains_key(p)
}

/// Whether what is live of the first `w` blocks at the reap can be moved one by one: it decodes, and is
/// no part of a larger value.
pub open spec fn movable(v: VaultView, w: int) -> bool {
    forall|p: u64|
        p < v.tract.len && #[trigger] tract::in_strip(
            p as int,
            v.tract.reap as int,
            v.tract.reap + w,
            v.tract.len as int,
        ) && v.live.contains_key(p) && seal::hp_of(v.ground()[p as int]) == Some(
            v.live[p],
        ) ==> (doc::doc_of(v.ground()[p as int]) matches Ok(d)
            && !(d is Furrow))
}

/// Whether what is live of the first `w` blocks at the reap can be moved: it decodes, and the leaf of a
/// larger value that has parts there can list them elsewhere.
pub open spec fn portable(v: VaultView, w: int) -> bool {
    forall|p: u64|
        p < v.tract.len && #[trigger] tract::in_strip(
            p as int,
            v.tract.reap as int,
            v.tract.reap + w,
            v.tract.len as int,
        ) && v.live.contains_key(p) && seal::hp_of(v.ground()[p as int]) == Some(
            v.live[p],
        ) ==> (doc::doc_of(v.ground()[p as int]) matches Ok(d) && (d matches doc::DocView::Furrow {
            key,
            ..
        } ==> hamt::is_light(v.ground(), v.index, key, survivors(v, w as nat))))
}

/// How many of the `n` blocks at the reap are live parts of larger values.
pub open spec fn parts_ahead(v: VaultView, n: nat) -> nat
    decreases n,
{
    if n == 0 {
        0
    } else {
        let p = ((v.tract.reap + n - 1) % (v.tract.len as int)) as u64;
        parts_ahead(v, (n - 1) as nat) + (if v.live.contains_key(p) && seal::hp_of(
            v.ground()[p as int],
        ) == Some(v.live[p]) && (doc::doc_of(v.ground()[p as int]) matches Ok(d) && d is Furrow) {
            1nat
        } else {
            0nat
        })
    }
}

/// How many blocks a reap of the first `w` blocks takes at most: one for each survivor and one for the
/// leaf of each part, and as many paths of nodes as there are survivors.
pub open spec fn toll(v: VaultView, w: nat) -> nat {
    53 * survivors(v, w) + parts_ahead(v, w)
}

/// Whether a vault has nothing to write and can commit for sure: its index is the committed one, the
/// devices do not fail, and generation numbers are left.
pub open spec fn idle(v: VaultView) -> bool {
    &&& v.settled()
    &&& v.sure
    &&& v.head().gen < u64::MAX
    &&& v.root matches Some(x) ==> x.gen < u64::MAX
}

/// The size of a reap window in a tract.
pub open spec fn window_span(v: VaultView) -> int {
    if v.tract.len / 64 > REAP_WINDOW_MIN {
        v.tract.len as int / 64
    } else {
        REAP_WINDOW_MIN as int
    }
}

/// A window, as far as blocks are occupied.
pub open spec fn window_used(v: VaultView) -> int {
    let used = v.tract.plow - v.tract.reap;
    if used < window_span(v) {
        used
    } else {
        window_span(v)
    }
}

/// How much a reap takes up at once: a window, as far as blocks are occupied and clean space, but for
/// a reserve, could host them all.
pub open spec fn window_ahead(v: VaultView) -> int {
    let used = v.tract.plow - v.tract.reap;
    let spare = if v.tract.len - used > RESERVE {
        v.tract.len - used - RESERVE
    } else {
        0
    };
    if spare < window_used(v) {
        spare
    } else {
        window_used(v)
    }
}

/// Whether a reap goes through for sure because nothing in its window is live: the vault is idle, and
/// the window and a reserve lie before the fence.
pub open spec fn reaps_dead(v: VaultView) -> bool {
    &&& idle(v)
    &&& window_ahead(v) > 0
    &&& dead_ahead(v, window_ahead(v))
    &&& v.tract.fence_limit matches Some(f) ==> v.tract.plow + window_ahead(v) + RESERVE <= f
}

/// Whether what is live of the first `w` blocks at the reap can be moved for sure: the vault is idle
/// and in working order, the blocks are occupied, what is live of them can be moved, and there is room
/// for that and for as many paths of nodes.
pub open spec fn moves(v: VaultView, w: int) -> bool {
    &&& idle(v)
    &&& v.good()
    &&& 0 <= w <= v.tract.plow - v.tract.reap
    &&& portable(v, w)
    &&& v.tract.refusal(toll(v, w as nat)) is None
}

/// Whether a reap goes through for sure though something in its window is live: it can be moved, and
/// the window and a reserve lie before the fence.
pub open spec fn reaps_live(v: VaultView) -> bool {
    &&& window_ahead(v) > 0
    &&& moves(v, window_ahead(v))
    &&& v.tract.fence_limit matches Some(f) ==> v.tract.plow + window_ahead(v) + RESERVE <= f
}

/// How many occupied blocks are not live.
pub open spec fn dead_space(v: VaultView) -> int {
    let used = v.tract.plow - v.tract.reap;
    if used > v.live.dom().len() {
        used - v.live.dom().len()
    } else {
        0
    }
}

/// Whether the blocks from the later reap up to `end` are what they were, and none of them came to
/// live.
pub open spec fn remains(v0: VaultView, v1: VaultView, end: int) -> bool {
    forall|p: u64|
        p < v0.tract.len && #[trigger] tract::in_strip(
            p as int,
            v1.tract.reap as int,
            end,
            v0.tract.len as int,
        ) ==> {
            &&& v1.ground()[p as int] == v0.ground()[p as int]
            &&& v1.live.contains_key(p) ==> v0.live.contains_key(p) && v1.live[p] == v0.live[p]
        }
}

/// Moving a window and committing that leaves what lies between it and the plow.
proof fn lemma_remains(v0: VaultView, v1: VaultView, v2: VaultView)
    requires
        v0.well(),
        v1.tract.wf(),
        v2.tract.wf(),
        v1.tract.len == v0.tract.len,
        v2.tract.len == v0.tract.len,
        v1.tract.base == v0.tract.base,
        v0.tract.reap <= v1.tract.reap <= v0.tract.plow,
        v0.tract.plow <= v1.tract.plow <= v2.tract.plow,
        v1.tract.plow <= v0.tract.reap + v0.tract.len,
        v2.tract.reap == v1.tract.reap,
        v1.live == v0.live,
        v0.index.added.len() == 0,
        hamt::arrived(
            v0.index.added,
            v1.index.added,
            v0.tract.plow as int,
            v1.tract.plow as int,
            v0.tract.len as int,
        ),
        tract::kept_outside(
            v0.ground(),
            v1.ground(),
            v0.tract.plow as int,
            v0.tract.reach(),
        ),
        renewed(v1, v2),
    ensures
        remains(v0, v2, v0.tract.plow as int),
{
    let len = v0.tract.len as int;
    assert forall|p: u64|
        p < v0.tract.len && #[trigger] tract::in_strip(
            p as int,
            v2.tract.reap as int,
            v0.tract.plow as int,
            len,
        ) implies {
        &&& v2.ground()[p as int] == v0.ground()[p as int]
        &&& v2.live.contains_key(p) ==> v0.live.contains_key(p) && v2.live[p] == v0.live[p]
    } by {
        let q = p as int;
        let a = v0.tract.plow as int;
        let b = v1.tract.plow as int;
        tract::lemma_strip_tail(q, v0.tract.reap as int, v1.tract.reap as int, a, len);
        tract::lemma_strip_apart(q, v0.tract.reap as int, a, v0.tract.reap + len, len);
        assert(tract::in_strip(q, v1.tract.reap as int, b, len));
        tract::lemma_strip_apart(q, v1.tract.reap as int, b, v1.tract.reap + len, len);
        assert(!tract::in_strip(q, a, v0.tract.reach(), len));
        assert(v1.ground()[q] == v0.ground()[q]);
        assert(v2.ground()[q] == v1.ground()[q]);
        if edit::places(v1.index.added).contains(p) {
            let i = choose|i: int| 0 <= i < v1.index.added.len() && (#[trigger] v1.index.added[i]).0
                == p;
            assert(tract::in_strip(q, a, b, len));
        }
    }
}

/// An index without dirty nodes has nothing to write.
proof fn lemma_idle(v: VaultView)
    requires
        idle(v),
    ensures
        roomy(v),
        v.index.added.len() == 0,
        v.index.removed.len() == 0,
{
    assert(edit::dirty_slots(v.index.arena) == 0);
}

/// Whether an error says that there is no room.
fn is_room(e: &Error) -> (r: bool)
    ensures
        r == (e@ is Fenced || e@ is TractFull),
{
    match e {
        Error::Fenced(_) => true,
        Error::TractFull => true,
        _ => false,
    }
}

impl<A: BlockDev, B: BlockDev> Vault<A, B> {
    /// The size of a reap window: it scales with the tract, so that huge values fall into at most
    /// some sixty runs on a full lap.
    fn reap_window(&self) -> (w: u64)
        ensures
            w == window_span(self@),
    {
        let w: u64 = self.tract.len / 64;
        if w > REAP_WINDOW_MIN {
            w
        } else {
            REAP_WINDOW_MIN
        }
    }

    /// How far appends may get.
    fn room(&self) -> (n: u64)
        ensures
            self@.tract.fence_limit matches Some(f) ==> n == (if f > self@.tract.plow {
                f - self@.tract.plow
            } else {
                0
            }),
            self@.tract.fence_limit is None ==> n == u64::MAX,
    {
        match self.tract.fence_limit {
            Some(f) => f.saturating_sub(self.tract.plow),
            None => u64::MAX,
        }
    }

    /// Commits what is provisional, if anything is. False where there is no room to.
    fn settle(&mut self, now: i64) -> (r: Result<bool>)
        requires
            old(self)@.well(),
        ensures
            freed(old(self)@, final(self)@),
            final(self)@.tract.len == old(self)@.tract.len,
            final(self)@.tract.reap == old(self)@.tract.reap,
            r matches Ok(true) ==> final(self)@.index.added.len() == 0
                && final(self)@.index.removed.len() == 0,
            windowed(old(self)@, final(self)@),
            old(self)@.index.added.len() == 0 && old(self)@.index.removed.len() == 0 ==> (r
                matches Ok(true)) && final(self)@ == old(self)@,
            mooring::moored(old(self)@) && (!by_device(r) || old(self)@.sure) ==> mooring::moored(
                final(self)@,
            ),
            r matches Err(e) ==> !(e@ is Fenced) && !(e@ is TractFull),
    {
        proof {
            lemma_window_same(self@, self@);
        }
        if self.hamt.no_delta() {
            return Ok(true);
        }
        match self.commit(now) {
            Ok(()) => Ok(true),
            Err(e) => if is_room(&e) {
                Ok(false)
            } else {
                Err(e)
            },
        }
    }

    /// Reaps `w` blocks and commits the retiring generation. False where there was no room to; the
    /// moves made so far are then provisional.
    fn retire(&mut self, w: u64, now: i64) -> (r: Result<bool>)
        requires
            old(self)@.well(),
            old(self)@.index.added.len() == 0,
            old(self)@.index.removed.len() == 0,
        ensures
            freed(old(self)@, final(self)@),
            windowed(old(self)@, final(self)@),
            final(self)@.tract.len == old(self)@.tract.len,
            r matches Ok(true) ==> records(final(self)@) && final(self)@.tract.reap == old(
                self,
            )@.tract.reap + (if w < old(self)@.tract.plow - old(self)@.tract.reap {
                w as int
            } else {
                old(self)@.tract.plow - old(self)@.tract.reap
            }) && (old(self)@.good() ==> final(self)@.durable() == old(self)@.contents()),
            idle(old(self)@) && dead_ahead(old(self)@, w as int) ==> (r matches Ok(true))
                && final(self)@.live == old(self)@.live && final(self)@.tract.plow == old(
                self,
            )@.tract.plow && final(self)@.head().gen == old(self)@.head().gen + 1,
            moves(old(self)@, w as int) ==> {
                &&& (r matches Ok(true)) || (r matches Err(e) && e@ == no_root_hash())
                &&& final(self)@.tract.reap == old(self)@.tract.reap + w
                &&& final(self)@.tract.plow <= old(self)@.tract.plow + toll(old(self)@, w as nat)
                &&& r is Ok ==> {
                    &&& final(self)@.good()
                    &&& old(self)@.tract.plow <= final(self)@.tract.plow
                    &&& remains(old(self)@, final(self)@, old(self)@.tract.plow as int)
                }
                &&& r is Ok && old(self)@.root is None ==> final(self).guard() == fence_of(
                    budgets(final(self)@),
                )
                &&& r is Ok && old(self)@.root is None && 0 < old(self)@.exponent <= 32 ==> slid(
                    old(self)@,
                    final(self)@,
                )
            },
            mooring::moored(old(self)@) && (!by_device(r) || old(self)@.sure) ==> mooring::moored(
                final(self)@,
            ),
            r matches Err(e) ==> !(e@ is Fenced) && !(e@ is TractFull),
    {
        let ghost v0 = self@;
        proof {
            self.lemma_ring_well();
            if v0.good() {
                let n = if w < v0.tract.plow - v0.tract.reap {
                    w as int
                } else {
                    v0.tract.plow - v0.tract.reap
                };
                lemma_reapable(v0, &self.live, v0.tract.reap as int, v0.tract.reap + n);
            }
        }
        let done = self.hamt.reap_window(self.ring.mirror(), &mut self.tract, &self.live, w);
        let ghost v1 = self@;
        proof {
            lemma_reaped(v0, v1);
            if idle(v0) && dead_ahead(v0, w as int) {
                let n = if w < v0.tract.plow - v0.tract.reap {
                    w as int
                } else {
                    v0.tract.plow - v0.tract.reap
                };
                assert(hamt::window_dead(
                    v0.ground(),
                    &self.live,
                    v0.tract.reap as int,
                    v0.tract.reap + n,
                )) by {
                    assert forall|p: u64, h: Seq<u8>|
                        p < v0.ground().len() && tract::in_strip(
                            p as int,
                            v0.tract.reap as int,
                            v0.tract.reap + n,
                            v0.ground().len() as int,
                        ) && seal::hp_of(v0.ground()[p as int]) == Some(
                            h,
                        ) implies !(#[trigger] tract::Liveness::holds(&self.live, p, h)) by {
                        assert(tract::in_strip(
                            p as int,
                            v0.tract.reap as int,
                            v0.tract.reap + w,
                            v0.tract.len as int,
                        ));
                    }
                }
                assert(done is Ok);
                assert(idle(v1));
                lemma_idle(v1);
            }
            if moves(v0, w as int) {
                let t = v0.ground();
                lemma_held(v0, &self.live, w as nat);
                assert forall|p: u64, h: Seq<u8>|
                    p < t.len() && tract::in_strip(
                        p as int,
                        v0.tract.reap as int,
                        v0.tract.reap + w,
                        t.len() as int,
                    ) && seal::hp_of(t[p as int]) == Some(
                        h,
                    ) && #[trigger] tract::Liveness::holds(
                        &self.live,
                        p,
                        h,
                    ) implies doc::doc_of(t[p as int]) is Ok by {
                    assert(tract::in_strip(
                        p as int,
                        v0.tract.reap as int,
                        v0.tract.reap + w,
                        v0.tract.len as int,
                    ));
                }
                lemma_haulable(v0, &self.live, w as int);
                lemma_idle(v0);
                assert(edit::dirty_slots(v0.index.arena) == 0);
                assert(v0.index.dirt() == 0);
                assert(done is Ok);
                assert(roomy(v1));
            }
        }
        if let Err(e) = done {
            return if is_room(&e) {
                Ok(false)
            } else {
                Err(e)
            };
        }
        let landed = self.commit(now);
        proof {
            standing::lemma_tended_twice(v0, v1, self@);
            lemma_windowed_twice(v0, v1, self@);
            if moves(v0, w as int) && landed is Ok {
                lemma_remains(v0, v1, self@);
                if v0.root is None && 0 < v0.exponent <= 32 {
                    lemma_slid_after(v0, v1, self@);
                }
            }
        }
        match landed {
            Ok(()) => Ok(true),
            Err(e) => if is_room(&e) {
                Ok(false)
            } else {
                Err(e)
            },
        }
    }

    /// Cleans one window at the reap and commits the retiring generation. False where no progress is
    /// possible right now: nothing is occupied, or there is no room to stage survivors.
    pub fn reap_one_window(&mut self, now: i64) -> (r: Result<bool>)
        requires
            old(self)@.well(),
        ensures
            freed(old(self)@, final(self)@),
            windowed(old(self)@, final(self)@),
            final(self)@.tract.len == old(self)@.tract.len,
            r matches Ok(true) ==> records(final(self)@) && final(self)@.tract.reap > old(
                self,
            )@.tract.reap && (old(self)@.hale() ==> final(self)@.durable() == old(
                self,
            )@.contents()),
            mooring::moored(old(self)@) && (!by_device(r) || old(self)@.sure) ==> mooring::moored(
                final(self)@,
            ),
            r matches Err(e) ==> !(e@ is Fenced) && !(e@ is TractFull),
            reaps_dead(old(self)@) ==> (r matches Ok(true)) && final(self)@.tract.reap == old(
                self,
            )@.tract.reap + window_ahead(old(self)@),
            reaps_live(old(self)@) ==> ((r matches Ok(true)) || (r matches Err(e) && e@
                == no_root_hash())) && final(self)@.tract.reap > old(self)@.tract.reap,
    {
        let ghost v0 = self@;
        proof {
            if idle(v0) {
                lemma_idle(v0);
            }
        }
        let ready = self.settle(now)?;
        if !ready {
            return Ok(false);
        }
        let ghost v1 = self@;
        let occupied: u64 = self.tract.plow - self.tract.reap;
        let spare: u64 = self.tract.clean_blocks().saturating_sub(RESERVE);
        let mut w: u64 = self.reap_window();
        if occupied < w {
            w = occupied;
        }
        if spare < w {
            w = spare;
        }
        if w == 0 {
            return Ok(false);
        }
        // Room before the fence for the survivors; slide the window first if it is tight.
        if self.room() < w.saturating_add(RESERVE) {
            let slid = self.commit(now);
            proof {
                standing::lemma_tended_twice(v0, v1, self@);
                lemma_windowed_twice(v0, v1, self@);
            }
            match slid {
                Ok(()) => {},
                Err(e) => {
                    return if is_room(&e) {
                        Ok(false)
                    } else {
                        Err(e)
                    };
                },
            }
        }
        let ghost v2 = self@;
        let budget: u64 = self.room().saturating_sub(RESERVE);
        if budget < w {
            w = budget;
        }
        if w == 0 || self.tract.plow == self.tract.reap {
            return Ok(false);
        }
        proof {
            assert(v2.index.added.len() == 0 && v2.index.removed.len() == 0);
        }
        let done = self.retire(w, now);
        proof {
            standing::lemma_tended_twice(v0, v2, self@);
            lemma_windowed_twice(v0, v2, self@);
        }
        done
    }

    /// One window per commit while dead space exceeds a quarter of the tract: incremental, bounded,
    /// and skipped where the fence or clean space cannot host the survivors.
    fn maybe_reap(&mut self, now: i64) -> (r: Result<()>)
        requires
            old(self)@.well(),
        ensures
            freed(old(self)@, final(self)@),
            windowed(old(self)@, final(self)@),
            dead_space(old(self)@) <= old(self)@.tract.len / 4 ==> r is Ok && final(self)@ == old(
                self,
            )@,
            dead_space(old(self)@) > old(self)@.tract.len / 4 && reaps_dead(old(self)@) ==> r is Ok
                && final(self)@.tract.reap == old(self)@.tract.reap + window_ahead(old(self)@),
            dead_space(old(self)@) > old(self)@.tract.len / 4 && reaps_live(old(self)@) ==> (r is Ok
                || (r matches Err(e) && e@ == no_root_hash())) && final(self)@.tract.reap > old(
                self,
            )@.tract.reap,
            final(self)@.tract.len == old(self)@.tract.len,
            mooring::moored(old(self)@) && (!by_device(r) || old(self)@.sure) ==> mooring::moored(
                final(self)@,
            ),
            r matches Err(e) ==> !(e@ is Fenced) && !(e@ is TractFull),
    {
        let used: u64 = self.tract.plow - self.tract.reap;
        let dead: u64 = used.saturating_sub(self.live.len() as u64);
        proof {
            lemma_window_same(self@, self@);
        }
        if dead > self.tract.len / 4 {
            self.reap_one_window(now)?;
        }
        Ok(())
    }
}

/// A vault in which appends may go up to the shield.
pub open spec fn waived(v: VaultView) -> VaultView {
    VaultView { tract: Tract { fence_limit: Some(v.shield), ..v.tract }, ..v }
}

proof fn lemma_waived(v: VaultView)
    requires
        v.well(),
    ensures
        freed(v, waived(v)),
        v.hale() ==> waived(v).durable() == v.durable(),
        mooring::moored(v) == mooring::moored(waived(v)),
        waived(v).index == v.index,
{
    assert(waived(v).ground() =~= v.ground());
}

/// How many of the `n` blocks at the reap are live.
pub open spec fn survivors(v: VaultView, n: nat) -> nat
    decreases n,
{
    if n == 0 {
        0
    } else {
        survivors(v, (n - 1) as nat) + (if v.live.contains_key(
            ((v.tract.reap + n - 1) % (v.tract.len as int)) as u64,
        ) {
            1nat
        } else {
            0nat
        })
    }
}

/// Whether the survivors of a window of `n` blocks, and the reserve if there are any, fit in clean
/// space.
pub open spec fn stageable(v: VaultView, n: nat) -> bool {
    survivors(v, n) == 0 || survivors(v, n) + RESERVE <= v.tract.len - (v.tract.plow
        - v.tract.reap)
}

/// What can be moved of a window can be hauled out of it.
proof fn lemma_haulable(v: VaultView, live: &LiveSet, w: int)
    requires
        v.well(),
        live@ == v.live,
        portable(v, w),
        0 <= w,
    ensures
        hamt::haulable(
            v.ground(),
            v.index,
            live,
            v.tract.reap as int,
            v.tract.reap + w,
            hamt::held(v.ground(), live, v.tract.reap as int, w as nat),
        ),
{
    let t = v.ground();
    let n = hamt::held(t, live, v.tract.reap as int, w as nat);
    lemma_held(v, live, w as nat);
    assert forall|k: Seq<u8>|
        k.len() == 32 && hamt::owns_live(
            t,
            live,
            v.tract.reap as int,
            v.tract.reap + w,
            k,
        ) implies #[trigger] hamt::is_light(t, v.index, k, n) by {
        let (p, h) = choose|p: u64, h: Seq<u8>|
            p < t.len() && tract::in_strip(
                p as int,
                v.tract.reap as int,
                v.tract.reap + w,
                t.len() as int,
            ) && seal::hp_of(t[p as int]) == Some(h) && #[trigger] tract::Liveness::holds(
                live,
                p,
                h,
            ) && (doc::doc_of(t[p as int]) matches Ok(doc::DocView::Furrow { key, .. }) && key
                == k);
        assert(tract::in_strip(
            p as int,
            v.tract.reap as int,
            v.tract.reap + w,
            v.tract.len as int,
        ));
        assert(hamt::is_light(t, v.index, k, survivors(v, w as nat)));
    }
}

/// A larger window has no fewer live parts.
proof fn lemma_parts_more(v: VaultView, a: nat, b: nat)
    requires
        a <= b,
    ensures
        parts_ahead(v, a) <= parts_ahead(v, b),
    decreases b,
{
    if a < b {
        lemma_parts_more(v, a, (b - 1) as nat);
    }
}

/// Live parts are a matter of the reap, the ground and the live set.
proof fn lemma_parts_same(v0: VaultView, v1: VaultView, n: nat)
    requires
        v1.live == v0.live,
        v1.tract.reap == v0.tract.reap,
        v1.tract.len == v0.tract.len,
        v1.ground() == v0.ground(),
    ensures
        parts_ahead(v1, n) == parts_ahead(v0, n),
    decreases n,
{
    if n > 0 {
        lemma_parts_same(v0, v1, (n - 1) as nat);
    }
}

/// What can be moved one by one has no parts of larger values, and can be moved.
proof fn lemma_movable(v: VaultView, w: int)
    requires
        v.tract.wf(),
        movable(v, w),
        0 <= w <= v.tract.len,
    ensures
        portable(v, w),
        parts_ahead(v, w as nat) == 0,
{
    lemma_no_parts(v, w, w as nat);
}

proof fn lemma_no_parts(v: VaultView, w: int, n: nat)
    requires
        v.tract.wf(),
        movable(v, w),
        n <= w <= v.tract.len,
    ensures
        parts_ahead(v, n) == 0,
    decreases n,
{
    if n > 0 {
        lemma_no_parts(v, w, (n - 1) as nat);
        tract::lemma_strip_offset(v.tract.reap as int, n - 1, v.tract.len as int);
        let p = ((v.tract.reap + n - 1) % (v.tract.len as int)) as u64;
        assert(tract::in_strip(
            p as int,
            v.tract.reap as int,
            v.tract.reap + w,
            v.tract.len as int,
        ));
    }
}

/// No more blocks of a window are found live than the live set has positions of it.
proof fn lemma_held(v: VaultView, live: &LiveSet, n: nat)
    requires
        v.well(),
        live@ == v.live,
    ensures
        hamt::held(v.ground(), live, v.tract.reap as int, n) <= survivors(v, n),
        hamt::load(v.ground(), live, v.tract.reap as int, n) <= survivors(v, n) + parts_ahead(v, n),
    decreases n,
{
    if n > 0 {
        lemma_held(v, live, (n - 1) as nat);
    }
}

/// A larger window has no fewer survivors.
proof fn lemma_survivors_more(v: VaultView, a: nat, b: nat)
    requires
        a <= b,
    ensures
        survivors(v, a) <= survivors(v, b),
    decreases b,
{
    if a < b {
        lemma_survivors_more(v, a, (b - 1) as nat);
    }
}

/// Survivors are a matter of the reap, the length and the live set.
proof fn lemma_survivors_same(v0: VaultView, v1: VaultView, n: nat)
    requires
        v1.live == v0.live,
        v1.tract.reap == v0.tract.reap,
        v1.tract.len == v0.tract.len,
    ensures
        survivors(v1, n) == survivors(v0, n),
    decreases n,
{
    if n > 0 {
        lemma_survivors_same(v0, v1, (n - 1) as nat);
    }
}

/// A later window that remained has no more survivors than it had.
proof fn lemma_survivors_later(v0: VaultView, v1: VaultView, n: nat)
    requires
        v0.tract.wf(),
        v1.tract.len == v0.tract.len,
        v0.tract.reap <= v1.tract.reap,
        v1.tract.reap + n <= v0.tract.plow,
        remains(v0, v1, v0.tract.plow as int),
    ensures
        survivors(v0, (v1.tract.reap - v0.tract.reap) as nat) + survivors(v1, n) <= survivors(
            v0,
            (v1.tract.reap - v0.tract.reap + n) as nat,
        ),
    decreases n,
{
    if n > 0 {
        lemma_survivors_later(v0, v1, (n - 1) as nat);
        let len = v0.tract.len as int;
        let p = (v1.tract.reap + n - 1) % len;
        tract::lemma_strip_offset(v1.tract.reap as int, n - 1, len);
        assert(tract::in_strip(
            (p as u64) as int,
            v1.tract.reap as int,
            v0.tract.plow as int,
            len,
        ));
        assert(v0.tract.reap + (v1.tract.reap - v0.tract.reap + n) as nat - 1 == v1.tract.reap + n
            - 1);
    }
}

/// What is dead as far as `n` blocks is dead as far as fewer.
proof fn lemma_dead_within(v: VaultView, n: int, w: int)
    requires
        dead_ahead(v, n),
        w <= n,
    ensures
        dead_ahead(v, w),
{
    assert forall|p: u64| p < v.tract.len && #[trigger] tract::in_strip(
        p as int,
        v.tract.reap as int,
        v.tract.reap + w,
        v.tract.len as int,
    ) implies !v.live.contains_key(p) by {
        assert(tract::in_strip(
            p as int,
            v.tract.reap as int,
            v.tract.reap + n,
            v.tract.len as int,
        ));
    }
}

/// What was dead up to the plow is dead from a later reap.
proof fn lemma_dead_after(v0: VaultView, v1: VaultView)
    requires
        v0.tract.wf(),
        dead_ahead(v0, v0.tract.plow - v0.tract.reap),
        v1.live == v0.live,
        v1.tract.len == v0.tract.len,
        v1.tract.plow == v0.tract.plow,
        v0.tract.reap <= v1.tract.reap <= v1.tract.plow,
    ensures
        dead_ahead(v1, v1.tract.plow - v1.tract.reap),
{
    assert forall|p: u64| p < v1.tract.len && #[trigger] tract::in_strip(
        p as int,
        v1.tract.reap as int,
        v1.tract.reap + (v1.tract.plow - v1.tract.reap),
        v1.tract.len as int,
    ) implies !v1.live.contains_key(p) by {
        tract::lemma_strip_tail(
            p as int,
            v0.tract.reap as int,
            v1.tract.reap as int,
            v1.tract.plow as int,
            v1.tract.len as int,
        );
        assert(tract::in_strip(
            p as int,
            v0.tract.reap as int,
            v0.tract.reap + (v0.tract.plow - v0.tract.reap),
            v0.tract.len as int,
        ));
    }
}

/// What can be moved as far as `n` blocks can be moved as far as fewer.
proof fn lemma_moves_within(v: VaultView, n: int, w: int)
    requires
        moves(v, n),
        0 <= w <= n,
    ensures
        moves(v, w),
{
    lemma_survivors_more(v, w as nat, n as nat);
    lemma_parts_more(v, w as nat, n as nat);
    assert forall|p: u64|
        p < v.tract.len && #[trigger] tract::in_strip(
            p as int,
            v.tract.reap as int,
            v.tract.reap + w,
            v.tract.len as int,
        ) && v.live.contains_key(p) && seal::hp_of(v.ground()[p as int]) == Some(
            v.live[p],
        ) implies (doc::doc_of(v.ground()[p as int]) matches Ok(d) && (
    d matches doc::DocView::Furrow { key, .. } ==> hamt::is_light(
        v.ground(),
        v.index,
        key,
        survivors(v, w as nat),
    ))) by {
        assert(tract::in_strip(
            p as int,
            v.tract.reap as int,
            v.tract.reap + n,
            v.tract.len as int,
        ));
    }
}

/// How many blocks `k` windows take up, as far as blocks are occupied.
pub open spec fn windows_used(v: VaultView, k: int) -> int {
    let used = v.tract.plow - v.tract.reap;
    if used < k * window_span(v) {
        used
    } else {
        k * window_span(v)
    }
}

/// Where appends may end once `k` windows are rescued, and a window and two reserves are left for more.
pub open spec fn roof(v: VaultView, k: int) -> int {
    v.tract.plow + 53 * survivors(v, windows_used(v, k) as nat) + window_span(v) + 2 * RESERVE
}

/// Whether `k` windows rescue a vault for sure, on the layout whose spine stays: the vault is idle and
/// in working order, what is live of the windows can be moved one by one, there is room for that and
/// for as many paths of nodes, and the generations that are then the last K, the new ones among
/// them, let appends go up to the roof.
pub open spec fn rescued_by(v: VaultView, k: int) -> bool {
    &&& 1 <= k <= FENCE_K
    &&& idle(v)
    &&& v.good()
    &&& v.root is None
    &&& v.head().gen + k < u64::MAX
    &&& 2 <= v.exponent <= 32
    &&& v.tract.reap < v.tract.plow
    &&& k == 1 || k * window_span(v) <= v.tract.plow - v.tract.reap
    &&& movable(v, windows_used(v, k))
    &&& v.tract.plow + 53 * survivors(v, window_used(v) as nat) <= v.shield
    &&& roof(v, k) <= u64::MAX
    &&& roof(v, k) <= v.tract.reap + v.tract.len
    &&& forall|x: int|
        0 <= x && v.head().gen + k - FENCE_K < x <= v.head().gen ==> roof(v, k)
            <= #[trigger] budget_at(v, x)
}

/// Whether some number of windows rescues a vault for sure.
pub open spec fn can_rescue(v: VaultView) -> bool {
    exists|k: int| #[trigger] rescued_by(v, k)
}

/// Whether `j` of the `k` windows that rescue a vault were reaped.
spec fn underway(v0: VaultView, k: int, j: int, v: VaultView) -> bool {
    &&& v.well()
    &&& v.settled()
    &&& v.sure
    &&& v.good()
    &&& v.root is None
    &&& v.exponent == v0.exponent
    &&& v.tract.len == v0.tract.len
    &&& v.head().gen == v0.head().gen + j
    &&& v0.tract.reap + j <= v.tract.reap <= v0.tract.reap + windows_used(v0, j)
    &&& v0.tract.plow <= v.tract.plow <= v0.tract.plow + 53 * survivors(
        v0,
        (v.tract.reap - v0.tract.reap) as nat,
    )
    &&& if j == 0 {
        v == v0
    } else {
        records(v)
    }
    &&& remains(v0, v, v0.tract.plow as int)
    &&& forall|x: int|
        0 <= x && v0.head().gen + k - FENCE_K < x <= v.head().gen ==> roof(v0, k)
            <= #[trigger] budget_at(v, x)
}

/// While windows are left, the next can be moved.
proof fn lemma_next_window(v0: VaultView, k: int, j: int, v: VaultView)
    requires
        rescued_by(v0, k),
        v0.tract.wf(),
        0 <= j < k,
        underway(v0, k, j, v),
    ensures
        moves(waived(v), window_used(v)),
        parts_ahead(v, window_used(v) as nat) == 0,
        v.tract.reap < v.tract.plow,
{
    let span = window_span(v0);
    assert(windows_used(v0, j) <= j * span);
    assert((j + 1) * span == j * span + span) by (nonlinear_arith);
    assert((j + 1) * span <= k * span) by (nonlinear_arith)
        requires
            j + 1 <= k,
            0 <= span,
    ;
    if k == 1 {
        assert(j == 0);
        assert(0 * span == 0) by (nonlinear_arith);
        assert(1 * span == span) by (nonlinear_arith);
        assert(v.tract.reap == v0.tract.reap);
    }
    let w = window_used(v);
    let n = windows_used(v0, k);
    assert(v.tract.reap + w <= v0.tract.reap + n);
    assert(v.tract.reap + w <= v0.tract.plow);
    let u = waived(v);
    assert(u.ground() =~= v.ground());
    lemma_survivors_same(v, u, w as nat);
    lemma_survivors_later(v0, v, w as nat);
    lemma_survivors_more(v0, (v.tract.reap - v0.tract.reap + w) as nat, n as nat);
    assert(movable(u, w)) by {
        assert forall|p: u64|
            p < u.tract.len && #[trigger] tract::in_strip(
                p as int,
                u.tract.reap as int,
                u.tract.reap + w,
                u.tract.len as int,
            ) && u.live.contains_key(p) && seal::hp_of(u.ground()[p as int]) == Some(
                u.live[p],
            ) implies (doc::doc_of(u.ground()[p as int]) matches Ok(d) && !(d is Furrow)) by {
            let q = p as int;
            let len = v0.tract.len as int;
            assert(tract::in_strip(q, v.tract.reap as int, v0.tract.plow as int, len));
            tract::lemma_strip_tail(
                q,
                v0.tract.reap as int,
                v.tract.reap as int,
                v.tract.reap + w,
                len,
            );
            assert(tract::in_strip(q, v0.tract.reap as int, v0.tract.reap + n, len));
        }
    }
    lemma_movable(u, w);
    lemma_parts_same(v, u, w as nat);
}

/// Reaping the next window gets on.
proof fn lemma_got_on(v0: VaultView, k: int, j: int, v: VaultView, v1: VaultView)
    requires
        rescued_by(v0, k),
        v0.tract.wf(),
        0 <= j < k,
        underway(v0, k, j, v),
        v1.well(),
        v1.sure,
        v1.root is None,
        v1.exponent == v.exponent,
        v1.good(),
        records(v1),
        slid(v, v1),
        v1.tract.len == v.tract.len,
        v.tract.reap < v1.tract.reap <= v.tract.reap + window_used(v),
        v.tract.plow <= v1.tract.plow <= v.tract.plow + 53 * survivors(
            v,
            (v1.tract.reap - v.tract.reap) as nat,
        ),
        remains(v, v1, v.tract.plow as int),
    ensures
        underway(v0, k, j + 1, v1),
{
    let span = window_span(v0);
    let len = v0.tract.len as int;
    assert((j + 1) * span == j * span + span) by (nonlinear_arith);
    assert((j + 1) * span <= k * span) by (nonlinear_arith)
        requires
            j + 1 <= k,
            0 <= span,
    ;
    if k == 1 {
        assert(0 * span == 0) by (nonlinear_arith);
        assert(1 * span == span) by (nonlinear_arith);
    }
    lemma_pow2_unfold(v0.exponent as nat);
    lemma_pow2_unfold((v0.exponent - 1) as nat);
    lemma_pow2_pos((v0.exponent - 2) as nat);
    lemma_survivors_later(v0, v, (v1.tract.reap - v.tract.reap) as nat);
    lemma_survivors_more(v0, (v1.tract.reap - v0.tract.reap) as nat, windows_used(v0, k) as nat);
    assert(remains(v0, v1, v0.tract.plow as int)) by {
        assert forall|p: u64|
            p < v0.tract.len && #[trigger] tract::in_strip(
                p as int,
                v1.tract.reap as int,
                v0.tract.plow as int,
                len,
            ) implies {
            &&& v1.ground()[p as int] == v0.ground()[p as int]
            &&& v1.live.contains_key(p) ==> v0.live.contains_key(p) && v1.live[p] == v0.live[p]
        } by {
            let q = p as int;
            tract::lemma_strip_tail(
                q,
                v.tract.reap as int,
                v1.tract.reap as int,
                v0.tract.plow as int,
                len,
            );
            assert(tract::in_strip(q, v1.tract.reap as int, v.tract.plow as int, len));
        }
    }
    assert forall|x: int|
        0 <= x && v0.head().gen + k - FENCE_K < x <= v1.head().gen implies roof(v0, k)
        <= #[trigger] budget_at(v1, x) by {
        if x < v1.head().gen {
            assert(budget_at(v1, x) == budget_at(v, x));
        }
    }
}

/// Whether a fence lets a vault, on the layout whose spine stays, append less than one window and two
/// reserves.
pub open spec fn wedged(v: VaultView, fence: Option<u64>) -> bool {
    v.root is None && (fence matches Some(f) && f - v.tract.plow < window_span(v) + 2 * RESERVE)
}

/// The smallest of some numbers is at least what they all are.
proof fn lemma_least_at_least(s: Seq<u64>, b: int)
    requires
        forall|i: int| 0 <= i < s.len() ==> b <= #[trigger] s[i],
    ensures
        least(s) matches Some(x) ==> b <= x,
    decreases s.len(),
{
    if s.len() > 0 {
        assert forall|i: int| 0 <= i < s.drop_last().len() implies b <= #[trigger] s.drop_last()[i] by {
            assert(s.drop_last()[i] == s[i]);
        }
        lemma_least_at_least(s.drop_last(), b);
    }
}

/// Once all windows are reaped, the fence is at the roof.
proof fn lemma_rescued(v0: VaultView, k: int, v: VaultView)
    requires
        rescued_by(v0, k),
        underway(v0, k, k, v),
    ensures
        fence_of(budgets(v)) matches Some(f) ==> v.tract.plow + window_span(v) + 2 * RESERVE <= f,
{
    let s = budgets(v);
    let g = v.head().gen as int;
    assert forall|i: int| 0 <= i < s.len() implies roof(v0, k) <= #[trigger] s[i] by {
        assert(s[i] == budget_at(v, g - i));
    }
    lemma_least_at_least(s, roof(v0, k));
    lemma_survivors_more(v0, (v.tract.reap - v0.tract.reap) as nat, windows_used(v0, k) as nat);
}

/// Whether nothing that is occupied is live, and there are generations enough to reap it all: an idle
/// vault on the layout whose spine stays.
pub open spec fn nothing_live(v: VaultView) -> bool {
    &&& idle(v)
    &&& v.root is None
    &&& dead_ahead(v, v.tract.plow - v.tract.reap)
    &&& v.head().gen + v.tract.len / REAP_WINDOW_MIN + 8 < u64::MAX
}

impl<A: BlockDev, B: BlockDev> Vault<A, B> {
    /// How large a window at the reap can be, that its survivors and the reserve fit in clean space.
    /// A window of dead blocks alone appends nothing, so it needs no clean space at all.
    fn rescue_window(&self) -> (w: u64)
        requires
            self@.tract.wf(),
        ensures
            w <= self@.tract.plow - self@.tract.reap,
            w <= window_span(self@),
            forall|n: nat| n <= w ==> #[trigger] stageable(self@, n),
            w < self@.tract.plow - self@.tract.reap && w < REAP_WINDOW_MIN ==> !stageable(
                self@,
                (w + 1) as nat,
            ),
    {
        let occupied: u64 = self.tract.plow - self.tract.reap;
        let clean: u64 = self.tract.clean_blocks();
        let mut max_w: u64 = self.reap_window();
        if occupied < max_w {
            max_w = occupied;
        }
        let mut w: u64 = 0;
        let mut surv: u64 = 0;
        let mut more = true;
        while w < max_w && more
            invariant
                w <= max_w,
                max_w <= occupied,
                max_w <= window_span(self@),
                occupied == self.tract.plow - self.tract.reap,
                self@.tract.wf(),
                clean == self@.tract.len - (self@.tract.plow - self@.tract.reap),
                surv <= w,
                surv == survivors(self@, w as nat),
                forall|n: nat| n <= w ==> #[trigger] stageable(self@, n),
                !more ==> !stageable(self@, (w + 1) as nat),
            decreases max_w - w, (if more { 1int } else { 0int }),
        {
            let pos: u64 = (self.tract.reap + w) % self.tract.len;
            let held: u64 = if self.live.has(pos) {
                surv + 1
            } else {
                surv
            };
            assert(held == survivors(self@, (w + 1) as nat));
            if held > 0 && (held > clean || RESERVE > clean - held) {
                more = false;
            } else {
                surv = held;
                w = w + 1;
            }
        }
        w
    }

    /// Reaps one window with the fence waived, as large as its survivors allow. False where there is
    /// no room to stage them; nothing is then provisional.
    fn rescue_once(&mut self, now: i64) -> (r: Result<bool>)
        requires
            old(self)@.well(),
        ensures
            standing::tended(old(self)@, final(self)@),
            final(self)@.tract.len == old(self)@.tract.len,
            idle(old(self)@) && old(self)@.tract.reap < old(self)@.tract.plow && dead_ahead(
                old(self)@,
                window_used(old(self)@),
            ) ==> {
                &&& r matches Ok(true)
                &&& final(self)@.settled()
                &&& final(self)@.tract.len == old(self)@.tract.len
                &&& old(self)@.tract.reap < final(self)@.tract.reap
                &&& final(self)@.tract.plow == old(self)@.tract.plow
                &&& final(self)@.live == old(self)@.live
                &&& final(self)@.head().gen == old(self)@.head().gen + 1
            },
            moves(waived(old(self)@), window_used(old(self)@)) && old(self)@.tract.reap < old(
                self,
            )@.tract.plow ==> {
                &&& (r matches Ok(true)) || (r matches Err(e) && e@ == no_root_hash())
                &&& final(self)@.tract.len == old(self)@.tract.len
                &&& old(self)@.tract.reap < final(self)@.tract.reap <= old(self)@.tract.reap
                    + window_used(old(self)@)
                &&& final(self)@.tract.plow <= old(self)@.tract.plow + toll(
                    old(self)@,
                    (final(self)@.tract.reap - old(self)@.tract.reap) as nat,
                )
                &&& r is Ok ==> {
                    &&& records(final(self)@)
                    &&& final(self)@.good()
                    &&& old(self)@.tract.plow <= final(self)@.tract.plow
                    &&& remains(old(self)@, final(self)@, old(self)@.tract.plow as int)
                }
                &&& r is Ok && old(self)@.root is None ==> final(self).guard() == fence_of(
                    budgets(final(self)@),
                )
                &&& r is Ok && old(self)@.root is None && 0 < old(self)@.exponent <= 32 ==> slid(
                    old(self)@,
                    final(self)@,
                )
            },
            mooring::moored(old(self)@) && (!by_device(r) || old(self)@.sure) ==> mooring::moored(
                final(self)@,
            ),
    {
        let ghost v0 = self@;
        let w: u64 = self.rescue_window();
        let ghost moving = moves(waived(v0), window_used(v0)) && v0.tract.reap < v0.tract.plow;
        let ghost clear = idle(v0) && v0.tract.reap < v0.tract.plow && dead_ahead(
            v0,
            window_used(v0),
        );
        proof {
            if clear {
                tract::lemma_strip_offset(v0.tract.reap as int, 0, v0.tract.len as int);
                let p = (v0.tract.reap % v0.tract.len) as u64;
                assert(tract::in_strip(
                    p as int,
                    v0.tract.reap as int,
                    v0.tract.reap + window_used(v0),
                    v0.tract.len as int,
                ));
                assert(survivors(v0, 0) == 0);
                assert(survivors(v0, 1) == 0);
                assert(stageable(v0, 1));
            }
            if moving {
                lemma_survivors_same(v0, waived(v0), window_used(v0) as nat);
                lemma_survivors_more(v0, 1, window_used(v0) as nat);
                assert(survivors(v0, 0) == 0);
                assert(survivors(v0, 1) <= 1);
                assert(stageable(v0, 1));
                lemma_survivors_same(v0, waived(v0), w as nat);
                assert(waived(v0).ground() =~= v0.ground());
                lemma_parts_same(v0, waived(v0), w as nat);
            }
        }
        if w == 0 {
            return Ok(false);
        }
        self.tract.fence_limit = Some(self.shield);
        let ghost v1 = self@;
        proof {
            lemma_waived(v0);
            assert(v1 == waived(v0));
            if moving {
                lemma_idle(v1);
                lemma_moves_within(v1, window_used(v0), w as int);
            }
            if clear {
                lemma_idle(v1);
                assert forall|p: u64| p < v1.tract.len && #[trigger] tract::in_strip(
                    p as int,
                    v1.tract.reap as int,
                    v1.tract.reap + w,
                    v1.tract.len as int,
                ) implies !v1.live.contains_key(p) by {
                    assert(tract::in_strip(
                        p as int,
                        v0.tract.reap as int,
                        v0.tract.reap + window_used(v0),
                        v0.tract.len as int,
                    ));
                }
            }
        }
        // Whatever is provisional after a growth is settled first.
        let ready = self.settle(now);
        let ghost v2 = self@;
        proof {
            standing::lemma_tended_twice(v0, v1, v2);
        }
        let ready = match ready {
            Ok(x) => x,
            Err(e) => return Err(e),
        };
        if ready {
            let done = self.retire(w, now);
            proof {
                standing::lemma_tended_twice(v0, v2, self@);
                if moving && v0.root is None && 0 < v0.exponent <= 32 && done is Ok {
                    lemma_slid_after(v0, v1, self@);
                }
            }
            match done {
                Ok(true) => return Ok(true),
                Ok(false) => {},
                Err(e) => return Err(e),
            }
        }
        let ghost v3 = self@;
        let back = self.reset();
        proof {
            standing::lemma_tended_twice(v0, v3, self@);
        }
        match back {
            Ok(()) => Ok(false),
            Err(e) => Err(e),
        }
    }

    /// The exit of the fence deadlock: a head whose budget cannot stage even one reap window, so that
    /// cleaning needs budget and budget needs cleaning.
    ///
    /// Two waivers break the cycle. The fence is waived per window, down to what the committed head
    /// needs: what that gives up is rollback to older generations, never the committed state. And
    /// windows are sized by the survivors there are, not by the worst case.
    ///
    /// Returns the windows reaped. TractFull means that live data leaves no room to stage: grow or
    /// refuse.
    pub fn rescue(&mut self, now: i64) -> (r: Result<u64>)
        requires
            old(self)@.well(),
        ensures
            standing::tended(old(self)@, final(self)@),
            r matches Ok(0) ==> final(self)@.tract.plow == final(self)@.tract.reap,
            old(self)@.sure && old(self)@.index.added.len() == 0 && old(self)@.index.removed.len()
                == 0 && old(self)@.tract.plow == old(self)@.tract.reap ==> (r matches Ok(0)),
            nothing_live(old(self)@) ==> (r matches Ok(n) && final(self)@.head().gen == old(
                self,
            )@.head().gen + n),
            can_rescue(old(self)@) ==> {
                &&& (r matches Ok(n) && 1 <= n <= FENCE_K && final(self)@.head().gen == old(
                    self,
                )@.head().gen + n) || (r matches Err(e) && e@ == no_root_hash())
                &&& final(self)@.tract.len == old(self)@.tract.len
                &&& old(self)@.tract.reap < final(self)@.tract.reap
            },
            mooring::moored(old(self)@) && (!by_device(r) || old(self)@.sure) ==> mooring::moored(
                final(self)@,
            ),
    {
        self.rescue_within(true, now)
    }

    /// Rescues, with or without leave to grow the tract once where the reap stands on live blocks
    /// that cannot be staged.
    #[verifier::rlimit(60)]
    fn rescue_within(&mut self, may_grow: bool, now: i64) -> (r: Result<u64>)
        requires
            old(self)@.well(),
        ensures
            standing::tended(old(self)@, final(self)@),
            !may_grow ==> final(self)@.tract.len == old(self)@.tract.len,
            r matches Ok(0) ==> final(self)@.tract.plow == final(self)@.tract.reap,
            old(self)@.sure && old(self)@.index.added.len() == 0 && old(self)@.index.removed.len()
                == 0 && old(self)@.tract.plow == old(self)@.tract.reap ==> (r matches Ok(0)),
            nothing_live(old(self)@) ==> (r matches Ok(n) && final(self)@.head().gen == old(
                self,
            )@.head().gen + n),
            can_rescue(old(self)@) ==> {
                &&& (r matches Ok(n) && 1 <= n <= FENCE_K && final(self)@.head().gen == old(
                    self,
                )@.head().gen + n) || (r matches Err(e) && e@ == no_root_hash())
                &&& final(self)@.tract.len == old(self)@.tract.len
                &&& old(self)@.tract.reap < final(self)@.tract.reap
            },
            mooring::moored(old(self)@) && (!by_device(r) || old(self)@.sure) ==> mooring::moored(
                final(self)@,
            ),
    {
        let ghost v0 = self@;
        let ghost k = choose|k: int| #[trigger] rescued_by(v0, k);
        proof {
            if can_rescue(v0) {
                lemma_idle(v0);
                assert(0 * window_span(v0) == 0) by (nonlinear_arith);
            }
        }
        let ready = self.settle(now)?;
        if !ready {
            let ghost v1 = self@;
            self.reset()?;
            proof {
                standing::lemma_tended_twice(v0, v1, self@);
            }
        }
        let mut windows: u64 = 0;
        let mut airlock_grown = false;
        let laps: u64 = self.tract.len / REAP_WINDOW_MIN;
        let bound: u64 = if laps > 8 {
            laps
        } else {
            8
        };
        let mut i: u64 = 0;
        let mut going = true;
        proof {
            if nothing_live(v0) {
                lemma_idle(v0);
            }
        }
        while i < bound && going
            invariant
                nothing_live(v0) ==> {
                    &&& idle(self@)
                    &&& self@.root is None
                    &&& dead_ahead(self@, self@.tract.plow - self@.tract.reap)
                    &&& self@.head().gen + (bound - i) < u64::MAX
                    &&& self@.head().gen == v0.head().gen + windows
                },
                can_rescue(v0) ==> {
                    &&& rescued_by(v0, k)
                    &&& windows <= k
                    &&& if going {
                        i == windows
                    } else {
                        windows > 0
                    }
                    &&& underway(v0, k, windows as int, self@)
                    &&& windows > 0 ==> self.guard() == fence_of(budgets(self@))
                },
                v0 == old(self)@,
                v0.well(),
                i <= bound,
                8 <= bound,
                windows <= i,
                windows == 0 ==> if going {
                    i == (if airlock_grown {
                        1int
                    } else {
                        0
                    })
                } else {
                    self@.tract.plow == self@.tract.reap
                },
                v0.sure && v0.index.added.len() == 0 && v0.index.removed.len() == 0
                    && v0.tract.plow == v0.tract.reap ==> self@ == v0 && windows == 0
                    && !airlock_grown,
                standing::tended(v0, self@),
                !may_grow ==> self@.tract.len == v0.tract.len,
                mooring::moored(v0) ==> mooring::moored(self@),
            decreases bound - i,
        {
            i = i + 1;
            let ghost v1 = self@;
            proof {
                if can_rescue(v0) {
                    if windows < k {
                        lemma_next_window(v0, k, windows as int, v1);
                    } else {
                        lemma_rescued(v0, k, v1);
                    }
                }
            }
            let comfortable = match self.fence {
                Some(f) => f.saturating_sub(self.tract.plow) >= self.reap_window().saturating_add(
                    2 * RESERVE,
                ),
                None => true,
            };
            if self.tract.plow == self.tract.reap || (comfortable && windows > 0) {
                going = false;
            } else {
                proof {
                    if nothing_live(v0) {
                        lemma_dead_within(v1, v1.tract.plow - v1.tract.reap, window_used(v1));
                    }
                }
                let done = self.rescue_once(now);
                proof {
                    standing::lemma_tended_twice(v0, v1, self@);
                    if can_rescue(v0) && done is Ok {
                        lemma_parts_more(
                            v1,
                            (self@.tract.reap - v1.tract.reap) as nat,
                            window_used(v1) as nat,
                        );
                        lemma_got_on(v0, k, windows as int, v1, self@);
                    }
                    if nothing_live(v0) {
                        lemma_dead_after(v1, self@);
                    }
                }
                let reaped = match done {
                    Ok(x) => x,
                    Err(e) => return Err(e),
                };
                if reaped {
                    windows = windows + 1;
                } else {
                    // The reap stands on live blocks with no room to stage them. A modest growth is
                    // the key that fits, once; a second stall is a tract full of live data.
                    if airlock_grown || !may_grow {
                        return Err(Error::TractFull);
                    }
                    let ghost v5 = self@;
                    let more: u64 = self.reap_window() * 4;
                    let len: u64 = self.tract.len.saturating_add(more);
                    let grown = self.grow(len, now);
                    proof {
                        standing::lemma_tended_twice(v0, v5, self@);
                    }
                    if let Err(e) = grown {
                        return Err(e);
                    }
                    airlock_grown = true;
                }
            }
        }
        let ghost v6 = self@;
        proof {
            self.lemma_ring_well();
        }
        let done = self.refence();
        proof {
            assert(self@.ground() =~= v6.ground());
            assert(standing::tended(v6, self@));
            standing::lemma_tended_twice(v0, v6, self@);
        }
        match done {
            Ok(()) => Ok(windows),
            Err(e) => Err(e),
        }
    }
}

/// What a lookup says, against what the vault holds.
///
/// Where the first device is damaged on the way of the key, the second's copies stand in for the
/// blocks whose seals fail: on two devices that do not fail, the key then answers what it would answer
/// with those blocks in place.
pub open spec fn answers(
    v: VaultView,
    second: Option<Seq<Seq<u8>>>,
    both: bool,
    key: Seq<u8>,
    r: Result<Option<Vec<u8>>>,
) -> bool {
    let first = v.index.path(v.ground(), key).found;
    &&& hamt::recovers(
        hamt::bytes_seen(r),
        first,
        hamt::healed(
            v.ground(),
            v.tract.on(mended_by(v.disk, second)),
            v.tract.on(mended_to(v.disk, second)),
            v.index,
            key,
        ),
        v.sure && (first is Ok || both),
    )
    &&& first is Ok ==> {
        &&& r matches Ok(Some(x)) ==> v.contents().contains_pair(key, x@)
        &&& r matches Ok(None) ==> !v.contents().contains_key(key)
    }
    &&& v.hale() && v.sure ==> r is Ok
}

/// A disk, with the copy of another of every block whose seal fails.
pub open spec fn mended_by(disk: Seq<Seq<u8>>, second: Option<Seq<Seq<u8>>>) -> Seq<Seq<u8>> {
    match second {
        Some(b) => mirror::mended(disk, b),
        None => disk,
    }
}

/// Another disk, with the copy of the first of every block whose seal fails.
pub open spec fn mended_to(disk: Seq<Seq<u8>>, second: Option<Seq<Seq<u8>>>) -> Seq<Seq<u8>> {
    match second {
        Some(b) => mirror::mended(b, disk),
        None => disk,
    }
}

/// A sound path finds a value or finds that there is none.
pub proof fn lemma_sound_found(
    t: Seq<Seq<u8>>,
    arena: Seq<doc::NodeView>,
    slot: Option<doc::ChildView>,
    k: Seq<u8>,
    d: int,
)
    requires
        trie::walk(t, arena, slot, k, d).whole,
    ensures
        trie::walk(t, arena, slot, k, d).found is Ok,
    decreases 52 - d,
{
    match slot {
        Some(doc::ChildView::Dirty(j)) => {
            if 0 <= d < 52 && 0 <= j < arena.len() {
                lemma_sound_found(
                    t,
                    arena,
                    arena[j].kids[key::chunk_of(k, d) as int],
                    k,
                    d + 1,
                );
            }
        },
        Some(doc::ChildView::At { hash, lba }) => {
            if let Ok(Some(doc::DocView::Node(n))) = trie::doc_at(t, lba, hash) {
                if 0 <= d < 52 {
                    lemma_sound_found(
                        t,
                        arena,
                        n.kids[key::chunk_of(k, d) as int],
                        k,
                        d + 1,
                    );
                }
            }
        },
        None => {},
    }
}

impl<A: BlockDev, B: BlockDev> Vault<A, B> {
    /// The value under a key.
    pub fn get(&mut self, key: &[u8; 32]) -> (r: Result<Option<Vec<u8>>>)
        requires
            old(self)@.well(),
        ensures
            final(self)@ == old(self)@,
            final(self).second() == old(self).second(),
            answers(old(self)@, old(self).other(), old(self).both(), key@, r),
    {
        proof {
            if self@.hale() {
                assert(self@.index.path(self@.ground(), key@).sound());
                lemma_sound_found(
                    self@.ground(),
                    self@.index.arena,
                    self@.index.root,
                    key@,
                    0,
                );
            }
        }
        self.hamt.lookup(self.ring.mirror(), &self.tract, key)
    }

    /// Whether a value is already the committed one under a key. Matching a provisional copy would
    /// claim durability that a crash could revoke.
    fn holds_committed(&mut self, key: &[u8; 32], value: &[u8]) -> (r: Result<bool>)
        requires
            old(self)@.well(),
        ensures
            final(self)@ == old(self)@,
            final(self).second() == old(self).second(),
            r matches Ok(true) ==> old(self)@.contents().contains_pair(key@, value@) && old(
                self,
            )@.durable().contains_pair(key@, value@),
            r matches Ok(false) ==> old(self)@.guarded() ==> !(old(self)@.contents().contains_pair(
                key@,
                value@,
            ) && old(self)@.durable().contains_pair(key@, value@)),
            old(self)@.hale() && old(self)@.sure ==> r is Ok,
    {
        let ghost v0 = self@;
        proof {
            if v0.hale() {
                assert(v0.index.path(v0.ground(), key@).sound());
                lemma_sound_found(
                    v0.ground(),
                    v0.index.arena,
                    v0.index.root,
                    key@,
                    0,
                );
            }
        }
        match self.hamt.lookup_first(self.ring.mirror(), &self.tract, key)? {
            Some(x) => {
                if !same_bytes(x.as_slice(), value) {
                    return Ok(false);
                }
            },
            None => return Ok(false),
        }
        let (hash, lba, len) = match self.ring.head() {
            None => return Ok(false),
            Some(h) => (h.hamt_hash, h.hamt_lba, h.tract_blocks),
        };
        if len > self.tract.len {
            return Ok(false);
        }
        let mut index = Hamt::from_root(hash, lba);
        let last = Tract {
            base: self.tract.base,
            len,
            plow: self.tract.plow,
            reap: self.tract.reap,
            fence_limit: self.tract.fence_limit,
        };
        proof {
            if v0.hale() {
                let c = standing::index_of(v0.head());
                standing::lemma_ground_longer(
                    v0.disk,
                    v0.tract.base as int,
                    len as nat,
                    v0.tract.len as nat,
                    c,
                );
                assert(c.path(v0.ground(), key@).sound());
                lemma_sound_found(v0.ground(), c.arena, c.root, key@, 0);
            }
        }
        match index.lookup_first(self.ring.mirror(), &last, key)? {
            Some(x) => Ok(same_bytes(x.as_slice(), value)),
            None => Ok(false),
        }
    }

    /// Every key of the committed state.
    pub fn live_keys(&mut self) -> (r: Result<Vec<[u8; 32]>>)
        requires
            old(self)@.well(),
        ensures
            final(self)@ == old(self)@,
            ({
                let c = standing::index_of(old(self)@.head());
                match r {
                    Ok(ks) => roster::keys_of(old(self)@.ground(), c.root) matches Ok(all)
                        && roster::keys_view(ks@) == all,
                    Err(e) => roster::keys_of(old(self)@.ground(), c.root) == Err::<
                        Seq<Seq<u8>>,
                        ErrorView,
                    >(e@) || (block::device_error(e@) && !old(self)@.sure),
                }
            }),
            old(self)@.guarded() && old(self)@.sure ==> r is Ok,
            r matches Ok(ks) ==> old(self)@.guarded() ==> forall|k: Seq<u8>|
                k.len() == 32 ==> (#[trigger] roster::keys_view(ks@).contains(k) <==> old(
                    self,
                )@.durable().contains_key(k)),
    {
        let ghost v0 = self@;
        let (hash, lba) = match self.ring.head() {
            None => return Err(corrupt_err("keys of a pre-genesis vault")),
            Some(h) => (h.hamt_hash, h.hamt_lba),
        };
        let mut index = Hamt::from_root(hash, lba);
        let mut out: Vec<[u8; 32]> = Vec::new();
        let done = index.walk_keys(self.ring.mirror(), &self.tract, &mut out);
        proof {
            if v0.guarded() {
                roster::law_sound_index_lists_its_keys(v0.ground(), hash@, lba);
            }
        }
        match done {
            Ok(()) => {},
            Err(e) => return Err(e),
        }
        proof {
            let c = standing::index_of(v0.head());
            let all = roster::keys_of(v0.ground(), c.root)->Ok_0;
            assert(roster::keys_view(out@) =~= all);
            if v0.guarded() {
                standing::lemma_ground_longer(
                    v0.disk,
                    v0.tract.base as int,
                    v0.head().tract as nat,
                    v0.tract.len as nat,
                    c,
                );
                assert forall|k: Seq<u8>| k.len() == 32 implies (
                #[trigger] roster::keys_view(out@).contains(k)
                    <==> v0.durable().contains_key(k)) by {
                    assert(c.path(v0.ground(), k).sound());
                    roster::law_keys_are_those_found(v0.ground(), hash@, lba, k);
                }
            }
        }
        Ok(out)
    }

    pub fn generation(&self) -> (g: Option<u64>)
        ensures
            match g {
                Some(x) => self@.top is Some && x == self@.head().gen,
                None => self@.top is None,
            },
    {
        match self.ring.head() {
            Some(h) => Some(h.gen),
            None => None,
        }
    }

    pub fn live_blocks(&self) -> (n: usize)
        ensures
            live::has_size(self@.live.dom(), n as nat),
    {
        self.live.len()
    }

    pub fn tract_blocks(&self) -> (n: u64)
        ensures
            n == self@.tract.len,
    {
        self.tract.len
    }

    /// Monotone append total: the laps are this over the tract's length.
    pub fn tract_blocks_plowed(&self) -> (n: u64)
        ensures
            n == self@.tract.plow,
    {
        self.tract.plow
    }

    /// Monotone cleaning total.
    pub fn tract_blocks_reaped(&self) -> (n: u64)
        ensures
            n == self@.tract.reap,
    {
        self.tract.reap
    }

    /// Whether a device was missing at open, died or failed verification.
    pub closed spec fn is_degraded(&self) -> bool {
        self.ring.mir().is_degraded()
    }

    pub fn degraded(&mut self) -> (r: bool)
        ensures
            final(self)@ == old(self)@,
            r == old(self).is_degraded(),
    {
        self.ring.mirror().degraded()
    }
}

/// Whether some values are those a vault answered or held durable, with or without one more.
pub open spec fn among(v0: VaultView, m: Map<Seq<u8>, Seq<u8>>, key: Seq<u8>, value: Seq<u8>) -> bool {
    ||| m == v0.contents()
    ||| m == v0.durable()
    ||| m == v0.contents().insert(key, value)
    ||| m == v0.durable().insert(key, value)
}

/// Whether some values are those a vault answered or held durable, and one more.
pub open spec fn with_it(v0: VaultView, m: Map<Seq<u8>, Seq<u8>>, key: Seq<u8>, value: Seq<u8>) -> bool {
    ||| m == v0.contents().insert(key, value)
    ||| m == v0.durable().insert(key, value)
}

/// What putting a value in, without a commit of it, came to.
pub open spec fn put_in(
    v0: VaultView,
    v1: VaultView,
    key: Seq<u8>,
    value: Seq<u8>,
    r: Result<bool>,
) -> bool {
    &&& standing::kept(v0, v1)
    &&& mooring::moored(v0) && (!by_device(r) || v0.sure) ==> mooring::moored(v1)
    &&& match r {
        Ok(lost) => v0.hale() ==> {
            &&& v1.hale()
            &&& with_it(v0, v1.contents(), key, value)
            &&& !lost ==> v1.contents() == v0.contents().insert(key, value)
            &&& v1.durable() == v0.durable() || v1.durable() == v0.contents()
        },
        Err(_) => standing::tended(v0, v1),
    }
}

/// Whether a value of `n` bytes gets in for sure, after at most `d` rungs of the ladder: there is room
/// for it; or the fence refuses it, and a commit, which goes through, leaves a vault into which it
/// gets; or the tract is full, and reaping a window, which goes through, leaves such a vault.
pub open spec fn can_put(v: VaultView, key: Seq<u8>, n: nat, d: nat) -> bool
    decreases d,
{
    ||| has_room(v, key, n)
    ||| d > 0 && v.hale() && v.sure && (value::value_refusal(&v.tract, n) matches Some(e)
        && e is Fenced) && committable(v) && forall|w: VaultView| #[trigger]
        slides_to(v, w) ==> can_put(w, key, n, (d - 1) as nat)
    ||| d > 0 && v.hale() && v.sure && value::value_refusal(&v.tract, n) == Some(
        ErrorView::TractFull,
    ) && (reaps_dead(v) || reaps_live(v)) && forall|w: VaultView| #[trigger]
        reaps_to(v, w) ==> can_put(w, key, n, (d - 1) as nat)
}

/// What a commit that slides the fence may leave.
pub open spec fn slides_to(v0: VaultView, v1: VaultView) -> bool {
    commit_done(v0, v1, Ok(()))
}

/// What reaping a window may leave.
pub open spec fn reaps_to(v0: VaultView, v1: VaultView) -> bool {
    &&& freed(v0, v1)
    &&& v1.tract.len == v0.tract.len
    &&& v1.tract.reap > v0.tract.reap
    &&& records(v1)
    &&& v0.hale() ==> v1.durable() == v0.contents()
    &&& reaps_dead(v0) ==> v1.tract.reap == v0.tract.reap + window_ahead(v0)
    &&& windowed(v0, v1)
}

/// How many rungs the ladder of a put has: a lap of windows, and some for the fence.
pub open spec fn rungs(v: VaultView) -> int {
    v.tract.len as int / window_span(v) + FENCE_K + 11
}

/// Whether a value of `n` bytes was appended, and no more than its path of nodes went dirty.
pub open spec fn landed(v0: VaultView, v1: VaultView, key: Seq<u8>, n: nat) -> bool {
    &&& v1.tract == (Tract {
        plow: (v0.tract.plow + value::body_blocks(n) + 1) as u64,
        ..v0.tract
    })
    &&& v0.tract.plow + value::body_blocks(n) + 1 <= u64::MAX
    &&& v1.top == v0.top
    &&& v1.root == v0.root
    &&& v1.index.dirt() <= v0.index.dirt() + 53
    &&& v1.live == v0.live
    &&& hamt::arrived(
        v0.index.added,
        v1.index.added,
        v0.tract.plow as int,
        v1.tract.plow as int,
        v0.tract.len as int,
    )
    &&& v0.good() ==> hamt::put_tight(v0.ground(), v0.index, v1.ground(), v1.index, key)
    &&& v0.good() ==> v1.index.dirt() == v0.index.dirt() + edit::soiled(
        v0.ground(),
        v0.index.arena,
        v0.index.root,
        key,
        0,
    )
}

/// An attempt to put a value in, and what it did.
proof fn lemma_attempted(v0: VaultView, v1: VaultView, v2: VaultView, key: Seq<u8>, value: Seq<u8>)
    requires
        key.len() == 32,
        standing::tended(v0, v1),
        worked(v1, v2),
        v2.index.path(v2.ground(), key).found == Ok::<Option<Seq<u8>>, ErrorView>(Some(value)),
        v1.good() ==> keep::same_answers_but(
            v1.ground(),
            v1.index,
            v2.ground(),
            v2.index,
            key,
        ),
    ensures
        standing::kept(v0, v2),
        v0.hale() ==> v2.hale() && v2.contents() == v1.contents().insert(key, value)
            && v2.durable() == v1.durable(),
{
    lemma_worked(v1, v2);
    if v0.hale() {
        standing::lemma_book_put(
            v1.ground(),
            v1.index,
            v2.ground(),
            v2.index,
            key,
            value,
        );
    }
}

impl<A: BlockDev, B: BlockDev> Vault<A, B> {
    /// Makes room where neither a commit nor an ordinary reap could: discards what is provisional,
    /// so that blocks are moved against a pristine index, and rescues. A tract full of live data is
    /// refused: growing it is the caller's.
    fn make_room(&mut self, now: i64) -> (r: Result<()>)
        requires
            old(self)@.well(),
        ensures
            standing::tended(old(self)@, final(self)@),
            final(self)@.tract.len == old(self)@.tract.len,
            mooring::moored(old(self)@) && (!by_device(r) || old(self)@.sure) ==> mooring::moored(
                final(self)@,
            ),
            old(self)@.guarded() && old(self)@.sure && old(self)@.tract.plow + old(self)@.tract.len
                <= u64::MAX && (forall|v: VaultView|
                v.well() && v.hale() && #[trigger] reloaded(old(self)@, v) ==> can_rescue(v)) ==> (
            r is Ok || (r matches Err(e) && e@ == no_root_hash())),
    {
        let ghost v0 = self@;
        let back = self.reset();
        let ghost v1 = self@;
        if let Err(e) = back {
            return Err(e);
        }
        let done = self.rescue_within(false, now);
        proof {
            standing::lemma_tended_twice(v0, v1, self@);
        }
        match done {
            Ok(_) => Ok(()),
            Err(e) => Err(e),
        }
    }

    /// One attempt to put a value in; where there is no room, makes some. Says whether the value is
    /// in, and whether provisional state was discarded.
    fn try_put(&mut self, key: &[u8; 32], value: &[u8], now: i64) -> (r: Result<(bool, bool)>)
        requires
            old(self)@.well(),
        ensures
            standing::kept(old(self)@, final(self)@),
            final(self)@.tract.len == old(self)@.tract.len,
            mooring::moored(old(self)@) && (!by_device(r) || old(self)@.sure) ==> mooring::moored(
                final(self)@,
            ),
            r matches Ok((true, _)) ==> landed(old(self)@, final(self)@, key@, value@.len()),
            r matches Ok((_, lost)) ==> !lost ==> windowed(old(self)@, final(self)@),
            match r {
                Ok((true, lost)) => !lost && (old(self)@.hale() ==> final(self)@.hale()
                    && final(self)@.contents() == old(self)@.contents().insert(key@, value@)
                    && final(self)@.durable() == old(self)@.durable()),
                Ok((false, lost)) => standing::tended(old(self)@, final(self)@) && (!lost ==> (old(
                    self,
                )@.hale() ==> final(self)@.contents() == old(self)@.contents())),
                Err(_) => standing::tended(old(self)@, final(self)@),
            },
            value::value_refusal(&old(self)@.tract, value@.len()) is None && old(
                self,
            )@.good() && old(self)@.sure ==> (r matches Ok((true, _))),
            (value::value_refusal(&old(self)@.tract, value@.len()) matches Some(e) && e is Fenced)
                && committable(old(self)@) ==> ((r matches Ok((false, false))) && slides_to(
                old(self)@,
                final(self)@,
            )) || (r matches Err(e) && e@ == no_root_hash()),
            value::value_refusal(&old(self)@.tract, value@.len()) == Some(ErrorView::TractFull) && (
            reaps_dead(old(self)@) || reaps_live(old(self)@)) ==> ((r matches Ok((false, false)))
                && reaps_to(old(self)@, final(self)@)) || (r matches Err(e) && e@
                == no_root_hash()),
    {
        let ghost v0 = self@;
        proof {
            self.lemma_ring_well();
        }
        let attempt = self.hamt.put(self.ring.mirror(), &mut self.tract, key, value);
        let ghost v1 = self@;
        proof {
            assert(worked(v0, v1));
            lemma_worked(v0, v1);
            lemma_window_worked(v0, v1);
            if value::value_refusal(&v0.tract, value@.len()) is Some {
                assert(v1 == v0);
            }
            if attempt is Ok {
                lemma_attempted(v0, v0, v1, key@, value@);
            } else if v0.good() {
                assert(keep::same_answers(v0.ground(), v0.index, v1.ground(), v1.index));
                standing::lemma_book_same(v0.ground(), v0.index, v1.ground(), v1.index);
            }
        }
        match attempt {
            Ok(()) => return Ok((true, false)),
            Err(Error::Fenced(_)) => {
                // Slides old entries out of the window, so that the fence rises.
                let slid = self.commit(now);
                let ghost v2 = self@;
                proof {
                    standing::lemma_tended_twice(v0, v1, v2);
                    lemma_windowed_twice(v0, v1, v2);
                }
                match slid {
                    Ok(()) => return Ok((false, false)),
                    Err(e) => if !is_room(&e) {
                        return Err(e);
                    },
                }
            },
            Err(Error::TractFull) => {
                let reaped = self.reap_one_window(now);
                let ghost v2 = self@;
                proof {
                    standing::lemma_tended_twice(v0, v1, v2);
                    lemma_windowed_twice(v0, v1, v2);
                }
                match reaped {
                    Ok(true) => return Ok((false, false)),
                    Ok(false) => {},
                    Err(e) => return Err(e),
                }
            },
            Err(e) => return Err(e),
        }
        let ghost v3 = self@;
        let made = self.make_room(now);
        proof {
            standing::lemma_tended_twice(v0, v3, self@);
        }
        match made {
            Ok(()) => Ok((false, true)),
            Err(e) => Err(e),
        }
    }

    /// Puts a value in without the final commit: the entry is provisional until the next. A refused
    /// append has no side effects, so the ladder makes room and tries again: a fence is slid by
    /// commits, a full tract reaped. A ladder that cleaned a whole lap and never landed the value is
    /// a working set that has outgrown its tract: that is refused with TractFull, and growing is
    /// left to the caller. Says whether provisional state was discarded on the way.
    fn put_no_commit(&mut self, key: &[u8; 32], value: &[u8], now: i64) -> (r: Result<bool>)
        requires
            old(self)@.well(),
        ensures
            put_in(old(self)@, final(self)@, key@, value@, r),
            final(self)@.tract.len == old(self)@.tract.len,
            r is Ok ==> value::body_blocks(value@.len()) < old(self)@.tract.len,
            r matches Ok(false) ==> windowed(old(self)@, final(self)@),
            value::value_refusal(&old(self)@.tract, value@.len()) is None && old(
                self,
            )@.hale() && old(self)@.sure ==> (r matches Ok(false)) && landed(
                old(self)@,
                final(self)@,
                key@,
                value@.len(),
            ),
            forall|d: nat| #[trigger]
                can_put(old(self)@, key@, value@.len(), d) && d < rungs(old(self)@) ==> (r
                    matches Err(e) && e@ == no_root_hash()) || ((r matches Ok(false))
                    && exists|u: VaultView| #[trigger]
                    freed(old(self)@, u) && has_room(u, key@, value@.len()) && landed(
                        u,
                        final(self)@,
                        key@,
                        value@.len(),
                    )),
    {
        let ghost v0 = self@;
        let mut lost = false;
        let mut rounds: u64 = 0;
        let bound: u64 = (self.tract.len / self.reap_window()).saturating_add(FENCE_K + 11);
        proof {
            vstd::arithmetic::div_mod::lemma_div_is_ordered_by_denominator(
                v0.tract.len as int,
                16,
                window_span(v0),
            );
            lemma_window_same(v0, v0);
        }
        while rounds < bound
            invariant
                v0 == old(self)@,
                v0.well(),
                !lost ==> windowed(v0, self@),
                rounds <= bound,
                0 < bound,
                standing::tended(v0, self@),
                self@.tract.len == v0.tract.len,
                !lost ==> (v0.hale() ==> self@.contents() == v0.contents()),
                mooring::moored(v0) ==> mooring::moored(self@),
                rounds == 0 ==> self@ == v0 && !lost,
                rounds > 0 ==> !(value::value_refusal(&v0.tract, value@.len()) is None
                    && v0.hale() && v0.sure),
                bound == rungs(v0),
                forall|d: nat| #[trigger]
                    can_put(v0, key@, value@.len(), d) && d < bound ==> rounds <= d && !lost && freed(
                        v0,
                        self@,
                    ) && can_put(self@, key@, value@.len(), (d - rounds) as nat),
            decreases bound - rounds,
        {
            let ghost v1 = self@;
            let step = self.try_put(key, value, now);
            let ghost v2 = self@;
            proof {
                if !lost && (step matches Ok((_, l)) && !l) {
                    lemma_windowed_twice(v0, v1, v2);
                }
                if !(step matches Ok((true, _))) {
                    standing::lemma_tended_twice(v0, v1, v2);
                }
                assert forall|d: nat| #[trigger]
                    can_put(v0, key@, value@.len(), d) && d < bound implies ({
                    ||| step matches Err(e) && e@ == no_root_hash()
                    ||| (step matches Ok((true, _))) && has_room(v1, key@, value@.len())
                    ||| (step matches Ok((false, false))) && rounds < d && freed(v0, v2) && can_put(
                        v2,
                        key@,
                        value@.len(),
                        (d - rounds - 1) as nat,
                    )
                }) by {
                    let n = value@.len();
                    assert(can_put(v1, key@, n, (d - rounds) as nat));
                    if !has_room(v1, key@, n) {
                        if value::value_refusal(&v1.tract, n) == Some(ErrorView::TractFull) {
                            if step is Ok {
                                assert(reaps_to(v1, v2));
                            }
                        } else if step is Ok {
                            assert(slides_to(v1, v2));
                        }
                    }
                }
            }
            match step {
                Ok((done, dropped)) => {
                    if done {
                        return Ok(lost);
                    }
                    if dropped {
                        lost = true;
                    }
                },
                Err(e) => return Err(e),
            }
            rounds = rounds + 1;
        }
        Err(Error::TractFull)
    }
}

/// What a put came to. The tract is as long as it was. Success is durable: what the vault answers is
/// what it answered, and the value under its key, and all of that is committed; a value that already
/// was changes nothing. Where the vault answered more than was durable, what was not may have been
/// discarded. After an error nothing else is lost.
pub open spec fn put_done(
    v0: VaultView,
    v1: VaultView,
    key: Seq<u8>,
    value: Seq<u8>,
    r: Result<()>,
) -> bool {
    &&& standing::kept(v0, v1)
    &&& v1.tract.len == v0.tract.len
    &&& r is Ok ==> v1 == v0 || value::body_blocks(value.len()) < v0.tract.len
    &&& mooring::moored(v0) && (!by_device(r) || v0.sure) ==> mooring::moored(v1)
    &&& v0.hale() ==> {
        &&& v1.hale()
        &&& match r {
            Ok(()) => with_it(v0, v1.contents(), key, value) && (v1.durable() == v1.contents() || (
            v1 == v0 && v0.durable().contains_pair(key, value))),
            Err(_) => among(v0, v1.contents(), key, value) && among(
                v0,
                v1.durable(),
                key,
                value,
            ),
        }
    }
}

/// What one commit made of a vault, which now answers `m`, durably: one generation more, and at most `n`
/// blocks appended.
pub open spec fn filed(v0: VaultView, v: VaultView, m: Map<Seq<u8>, Seq<u8>>, n: nat) -> bool {
    &&& v.hale()
    &&& v.contents() == m
    &&& v.durable() == m
    &&& v.head().gen == v0.head().gen + 1
    &&& v.tract.len == v0.tract.len
    &&& v.tract.reap == v0.tract.reap
    &&& v0.tract.plow <= v.tract.plow <= v0.tract.plow + n
}

/// What the sweep after a commit came to: nothing to do while dead space is at most a quarter of the
/// tract, else a window, which goes through for sure if it is dead or what is live of it can be
/// moved. `ok` says whether it succeeded, `unhashed` whether it met the one root hash that stands for
/// the empty index.
pub open spec fn swept(v: VaultView, v1: VaultView, ok: bool, unhashed: bool) -> bool {
    &&& freed(v, v1)
    &&& windowed(v, v1)
    &&& dead_space(v) <= v.tract.len / 4 ==> ok && v1 == v
    &&& dead_space(v) > v.tract.len / 4 && reaps_dead(v) ==> ok && v1.tract.reap == v.tract.reap
        + window_ahead(v)
    &&& dead_space(v) > v.tract.len / 4 && reaps_live(v) ==> (ok || unhashed) && v1.tract.reap
        > v.tract.reap
}

/// How many blocks it takes to put in a value of `n` bytes and commit it: the value, its leaf, the
/// nodes of its path and what is dirty.
pub open spec fn price(v: VaultView, key: Seq<u8>, n: nat) -> nat {
    value::body_blocks(n) + 1 + edit::soiled(
        v.ground(),
        v.index.arena,
        v.index.root,
        key,
        0,
    ) + v.index.dirt()
}

/// Whether a value of `n` bytes has room for sure: a vault in working order, on devices that do not
/// fail, can append all that it takes before the fence.
pub open spec fn has_room(v: VaultView, key: Seq<u8>, n: nat) -> bool {
    &&& v.hale()
    &&& v.sure
    &&& value::value_refusal(&v.tract, n) is None
    &&& v.tract.refusal(price(v, key, n)) is None
    &&& v.head().gen < u64::MAX
    &&& v.root matches Some(x) ==> x.gen < u64::MAX
}

/// Putting the same value in twice is putting it in once.
proof fn lemma_put_twice(m: Map<Seq<u8>, Seq<u8>>, key: Seq<u8>, value: Seq<u8>)
    ensures
        m.insert(key, value).insert(key, value) == m.insert(key, value),
        m.contains_pair(key, value) ==> m.insert(key, value) == m,
{
    assert(m.insert(key, value).insert(key, value) =~= m.insert(key, value));
    if m.contains_pair(key, value) {
        assert(m.insert(key, value) =~= m);
    }
}

/// Twice a length, as far as numbers go.
pub open spec fn twice(n: u64) -> u64 {
    if n + n <= u64::MAX {
        (n + n) as u64
    } else {
        u64::MAX
    }
}

impl<A: BlockDev, B: BlockDev> Vault<A, B> {
    /// Grows the tract to twice its length.
    fn double(&mut self, now: i64) -> (r: Result<()>)
        requires
            old(self)@.well(),
        ensures
            grow_done(old(self)@, final(self)@, twice(old(self)@.tract.len), r),
    {
        let len: u64 = self.tract.len.saturating_add(self.tract.len);
        self.grow(len, now)
    }

    /// Puts the value in and commits.
    fn put_and_commit(&mut self, key: &[u8; 32], value: &[u8], now: i64) -> (r: Result<()>)
        requires
            old(self)@.well(),
        ensures
            put_done(old(self)@, final(self)@, key@, value@, r),
            r is Ok && old(self)@.hale() ==> final(self)@.durable() == final(self)@.contents(),
            r is Ok ==> value::body_blocks(value@.len()) < old(self)@.tract.len,
            r is Ok ==> final(self)@.head().gen > old(self)@.head().gen,
            has_room(old(self)@, key@, value@.len()) ==> (r is Ok && final(self)@.contents() == old(
                self,
            )@.contents().insert(key@, value@)) || (r matches Err(e) && e@ == no_root_hash()),
    {
        let ghost v0 = self@;
        let put = self.put_no_commit(key, value, now);
        let ghost v1 = self@;
        if let Err(e) = put {
            return Err(e);
        }
        proof {
            if has_room(v0, key@, value@.len()) {
                assert(roomy(v1));
            }
        }
        self.commit(now)
    }

    /// Puts the value in and commits, for a second time: once room was made for it.
    fn replay(&mut self, key: &[u8; 32], value: &[u8], now: i64) -> (r: Result<()>)
        requires
            old(self)@.well(),
        ensures
            put_done(old(self)@, final(self)@, key@, value@, r),
            r is Ok && old(self)@.hale() ==> final(self)@.durable() == final(self)@.contents(),
            r is Ok ==> value::body_blocks(value@.len()) < old(self)@.tract.len,
            r is Ok ==> final(self)@.head().gen > old(self)@.head().gen,
    {
        let ghost v0 = self@;
        let made = self.make_room(now);
        let ghost v1 = self@;
        if let Err(e) = made {
            return Err(e);
        }
        let done = self.put_and_commit(key, value, now);
        proof {
            if v0.hale() {
                lemma_put_twice(v1.contents(), key@, value@);
                lemma_put_twice(v1.durable(), key@, value@);
            }
        }
        done
    }

    /// Inserts or overwrites, durable on return. A value that is already the committed one changes
    /// nothing. Only a tract that stays full after a whole lap of reaping is refused, with TractFull
    /// or Fenced: growing it is the caller's, who may call [`Vault::grow`].
    #[verifier::rlimit(40)]
    pub fn put(&mut self, key: &[u8; 32], value: &[u8], now: i64) -> (r: Result<()>)
        requires
            old(self)@.well(),
        ensures
            put_done(old(self)@, final(self)@, key@, value@, r),
            old(self)@.hale() && old(self)@.sure && old(self)@.contents().contains_pair(
                key@,
                value@,
            ) && old(self)@.durable().contains_pair(key@, value@) ==> r is Ok && final(self)@
                == old(self)@ && final(self).second() == old(self).second(),
            has_room(old(self)@, key@, value@.len()) ==> final(self)@.durable() == final(self)@.contents()
                && final(self)@.contents() == old(self)@.contents().insert(key@, value@) || (
            r matches Err(e) && e@ == no_root_hash()) || final(self)@ == old(self)@ && r is Ok,
            has_room(old(self)@, key@, value@.len()) && old(self)@.tract.plow + price(
                old(self)@,
                key@,
                value@.len(),
            ) - old(self)@.tract.reap <= old(self)@.tract.len / 4
                ==> r is Ok || (r matches Err(e) && e@ == no_root_hash()),
            has_room(old(self)@, key@, value@.len()) ==> {
                ||| r matches Err(e) && e@ == no_root_hash()
                ||| r is Ok && final(self)@ == old(self)@
                ||| exists|v: VaultView| #[trigger]
                    filed(
                        old(self)@,
                        v,
                        old(self)@.contents().insert(key@, value@),
                        price(old(self)@, key@, value@.len()),
                    ) && records(v) && (plain(old(self)@) && accounted(old(self)@) ==> accounted(v))
                        && swept(
                        v,
                        final(self)@,
                        r is Ok,
                        r matches Err(e) && e@ == no_root_hash(),
                    )
            },
            has_room(old(self)@, key@, value@.len()) ==> (r matches Err(e) ==> !(e@ is Fenced) && !(
            e@ is TractFull)),
            forall|d: nat| #[trigger]
                can_put(old(self)@, key@, value@.len(), d) && d < rungs(old(self)@) ==> {
                    ||| r matches Err(e) && e@ == no_root_hash()
                    ||| r is Ok && final(self)@ == old(self)@
                    ||| exists|u: VaultView, v: VaultView|
                        freed(old(self)@, u) && #[trigger] filed(
                            u,
                            v,
                            old(self)@.contents().insert(key@, value@),
                            price(u, key@, value@.len()),
                        ) && swept(
                            v,
                            final(self)@,
                            r is Ok,
                            r matches Err(e) && e@ == no_root_hash(),
                        )
                },
            r is Ok ==> final(self)@ == old(self)@ || final(self)@.head().gen > old(
                self,
            )@.head().gen,
            forall|d: nat| #[trigger]
                can_put(old(self)@, key@, value@.len(), d) && d < rungs(old(self)@) && !(r
                    matches Err(e) && e@ == no_root_hash()) ==> windowed(old(self)@, final(self)@),
    {
        let ghost v0 = self@;
        proof {
            lemma_window_same(v0, v0);
            lemma_put_twice(v0.contents(), key@, value@);
            lemma_put_twice(v0.durable(), key@, value@);
        }
        let held = match self.holds_committed(key, value) {
            Ok(x) => x,
            Err(e) => return Err(e),
        };
        if held {
            return Ok(());
        }
        let put = self.put_no_commit(key, value, now);
        let ghost v1 = self@;
        if let Err(e) = put {
            return Err(e);
        }
        let ghost easy = exists|d: nat| #[trigger]
            can_put(v0, key@, value@.len(), d) && d < rungs(v0);
        let ghost u = choose|u: VaultView| #[trigger]
            freed(v0, u) && has_room(u, key@, value@.len()) && landed(u, v1, key@, value@.len());
        proof {
            if easy {
                assert(freed(v0, u) && has_room(u, key@, value@.len()) && landed(
                    u,
                    v1,
                    key@,
                    value@.len(),
                ));
                assert(roomy(v1));
            }
        }
        proof {
            if has_room(v0, key@, value@.len()) && plain(v0) && accounted(v0) {
                lemma_put_accounted(v0, v1, key@, value@.len());
            }
        }
        let landed = self.commit(now);
        let ghost v2 = self@;
        proof {
            if has_room(v0, key@, value@.len()) {
                assert(roomy(v1));
            }
        }
        match landed {
            Ok(()) => {},
            Err(e) => {
                if !is_room(&e) {
                    return Err(e);
                }
                // The flush found no room. The value is still at hand: room is made, which discards
                // what is provisional, and once more.
                let again = self.replay(key, value, now);
                proof {
                    if v0.hale() {
                        lemma_put_twice(v2.contents(), key@, value@);
                        lemma_put_twice(v2.durable(), key@, value@);
                    }
                }
                if let Err(e) = again {
                    return Err(e);
                }
            },
        }
        let ghost v3 = self@;
        proof {
            if v0.hale() {
                assert(v3.durable() == v3.contents());
                assert(with_it(v0, v3.contents(), key@, value@));
            }
        }
        let tidy = self.maybe_reap(now);
        proof {
            if easy {
                lemma_windowed_twice(v0, v1, v2);
                lemma_windowed_twice(v0, v3, self@);
            }
            if has_room(v0, key@, value@.len()) {
                assert(filed(
                    v0,
                    v3,
                    v0.contents().insert(key@, value@),
                    price(v0, key@, value@.len()),
                ));
                assert(swept(
                    v3,
                    self@,
                    tidy is Ok,
                    tidy matches Err(e) && e@ == no_root_hash(),
                ));
            }
            if easy {
                assert(filed(
                    u,
                    v3,
                    v0.contents().insert(key@, value@),
                    price(u, key@, value@.len()),
                ));
                assert(swept(
                    v3,
                    self@,
                    tidy is Ok,
                    tidy matches Err(e) && e@ == no_root_hash(),
                ));
            }
        }
        tidy
    }
}

/// What zeroing the leaf of a key does to the index that holds it.
proof fn lemma_zeroed_guard(v0: VaultView, v1: VaultView, key: Seq<u8>)
    requires
        v0.well(),
        v0.hale(),
        v0.settled(),
        key.len() == 32,
        hamt::zeroes_leaf(v0.ground(), v0.index, v1.ground(), key),
        v1.tract == v0.tract,
        v1.top == v0.top,
        v1.shield == v0.shield,
        v1.disk.len() == v0.disk.len(),
    ensures
        v1.guarded(),
        v1.durable() == v0.durable().remove(key),
{
    let c = v0.index;
    let t0 = v0.ground();
    let t1 = v1.ground();
    let (lba, hash) = c.path(t0, key).leaf->Ok_0->0;
    let leaf = trie::doc_at(t0, lba, hash)->Ok_0->0;
    let ps = cut::leaf_blocks(lba, leaf);
    assert(c.path(t0, key).sound());
    hamt::lemma_leaf_found(t0, c.arena, c.root, key, 0);
    assert(ps.contains(lba));
    assert forall|k: Seq<u8>| k.len() == 32 implies {
        let a = c.path(t0, k);
        let u = #[trigger] c.path(t1, k);
        &&& u.sound()
        &&& u.found == (if k == key {
            Ok::<Option<Seq<u8>>, ErrorView>(None)
        } else {
            a.found
        })
        &&& forall|p: u64| #[trigger] u.reads.contains(p) ==> a.reads.contains(p)
    } by {
        assert(c.path(t0, k).sound());
        cut::lemma_zero_walk(t0, t1, c.arena, c.root, lba, hash, key, leaf, ps, k, 0);
        if k != key {
            cut::lemma_stop_other(t0, c.arena, c.root, k, 0);
        }
    }
    assert forall|k: Seq<u8>, p: u64|
        k.len() == 32 && (#[trigger] c.path(t1, k).reads.contains(p)) implies p < v0.head().tract
        && p < t1.len() && !tract::in_strip(
        p as int,
        v0.tract.plow as int,
        v0.shield as int,
        t1.len() as int,
    ) by {
        assert(c.path(t0, k).reads.contains(p));
    }
    assert(keep::same_answers_but(t0, c, t1, c, key)) by {
        assert forall|k: Seq<u8>| k.len() == 32 && k != key implies (#[trigger] c.path(t1, k)).found
            == c.path(t0, k).found by {}
    }
    standing::lemma_book_cut(t0, c, t1, c, key);
    assert(tract::ground(v0.disk, v0.tract.base as int, v0.head().tract as nat) =~= t0);
    assert(tract::ground(v1.disk, v0.tract.base as int, v0.head().tract as nat) =~= t1);
}

/// Whether the blocks of the value under a key, its leaf and its furrows, were zeroed, and no others
/// written.
pub open spec fn erased(v0: VaultView, v: VaultView, key: Seq<u8>) -> bool {
    &&& hamt::zeroes_leaf(v0.ground(), v0.index, v.ground(), key)
    &&& tract::kept_around(v0.disk, v.disk, v0.tract.base as int, v0.tract.len as int)
    &&& v0.twin ==> v.twin
    &&& v == (VaultView { disk: v.disk, twin: v.twin, index: v.index, ..v0 })
}

/// What a deletion came to.
pub open spec fn delete_done(v0: VaultView, v1: VaultView, key: Seq<u8>, r: Result<bool>) -> bool {
    &&& standing::kept(v0, v1)
    &&& mooring::moored(v0) && (!by_device(r) || v0.sure) ==> mooring::moored(v1)
    &&& r matches Ok(false) ==> v1 == v0
    &&& v0.good() ==> {
        &&& r matches Ok(found) ==> found == v0.contents().contains_key(key)
        &&& r matches Ok(true) ==> v1.hale() && v1.contents() == v0.contents().remove(key)
            && v1.durable() == v1.contents()
        &&& v0.sure ==> v1.good() && v1.contents() == v0.contents().remove(key)
    }
    &&& v0.hale() && v0.settled() && (r is Ok || v0.sure) ==> v1.hale() && v1.durable()
        == v0.durable().remove(key)
    &&& v0.good() && v0.sure && !v0.contents().contains_key(key) ==> (r matches Ok(false))
    &&& can_delete(v0, key) && v0.contents().contains_key(key) ==> {
        ||| r matches Err(e) && e@ == no_root_hash()
        ||| {
            &&& v1.hale()
            &&& v1.durable() == v0.contents().remove(key)
            &&& v0.tract.plow + unlinking(v0, key) - v0.tract.reap <= v0.tract.len / 4 ==> (r
                matches Ok(true))
            &&& exists|v: VaultView| #[trigger]
                filed(v0, v, v0.contents().remove(key), unlinking(v0, key)) && swept(
                    v,
                    v1,
                    r is Ok,
                    r matches Err(e) && e@ == no_root_hash(),
                )
        }
    }
    &&& r matches Ok(true) ==> v1.head().gen > v0.head().gen
    &&& v0.good() && (r matches Ok(true)) ==> exists|v: VaultView, u: VaultView| #[trigger]
        erased(v0, v, key) && #[trigger] commit_done(v, u, Ok(())) && swept(u, v1, true, false)
}

/// How many blocks it takes at most to commit a deletion: the nodes of the key's path and what is dirty.
pub open spec fn unlinking(v: VaultView, key: Seq<u8>) -> nat {
    edit::thawed(v.ground(), v.index.arena, v.index.root, key, 0) + v.index.dirt()
}

/// Whether a deletion has room for sure: a vault in working order, on devices that do not fail, can
/// append a path of nodes and what is dirty before the fence.
pub open spec fn can_delete(v: VaultView, key: Seq<u8>) -> bool {
    &&& v.good()
    &&& v.sure
    &&& v.tract.refusal(unlinking(v, key)) is None
    &&& v.head().gen < u64::MAX
    &&& v.root matches Some(x) ==> x.gen < u64::MAX
}

impl<A: BlockDev, B: BlockDev> Vault<A, B> {
    /// Deletes, durable on return. Returns whether the key was there.
    #[verifier::rlimit(40)]
    pub fn delete(&mut self, key: &[u8; 32], now: i64) -> (r: Result<bool>)
        requires
            old(self)@.well(),
        ensures
            delete_done(old(self)@, final(self)@, key@, r),
    {
        let ghost v0 = self@;
        proof {
            self.lemma_ring_well();
            if v0.good() {
                assert(v0.index.path(v0.ground(), key@).sound());
                hamt::lemma_found_leaf(
                    v0.ground(),
                    v0.index.arena,
                    v0.index.root,
                    key@,
                    0,
                );
            }
            if !v0.contents().contains_key(key@) {
                assert(v0.contents().remove(key@) =~= v0.contents());
            }
            if v0.settled() {
                assert(tract::ground(v0.disk, v0.tract.base as int, v0.head().tract as nat)
                    =~= v0.ground());
                assert(v0.durable() == v0.contents());
            }
        }
        let found = self.hamt.delete(self.ring.mirror(), &mut self.tract, key);
        let ghost v1 = self@;
        proof {
            assert(v1.well());
            if mooring::moored(v0) {
                assert(mooring::same_below(v0.disk, v1.disk, v0.tract.base as int));
                mooring::lemma_moored_below(v0, v1);
            }
        }
        let existed = match found {
            Ok(x) => x,
            Err(e) => return Err(e),
        };
        if !existed {
            return Ok(false);
        }
        proof {
            if v0.good() {
                standing::lemma_book_cut(v0.ground(), v0.index, v1.ground(), v1.index, key@);
                assert(keep::still_covered(v0.ground(), v0.index, v1.ground(), v1.index));
                assert(keep::covered(v0.ground(), v0.index, v0.live));
                assert(keep::covered(v1.ground(), v1.index, v0.live));
                assert(v1.good());
            }
            if v0.hale() && v0.settled() {
                lemma_zeroed_guard(v0, v1, key@);
            }
        }
        let landed = self.commit(now);
        let ghost v2 = self@;
        if let Err(e) = landed {
            return Err(e);
        }
        let tidy = self.maybe_reap(now);
        proof {
            if v0.good() {
                assert(erased(v0, v1, key@));
                assert(commit_done(v1, v2, Ok(())));
            }
            if can_delete(v0, key@) && v0.contents().contains_key(key@) {
                assert(filed(v0, v2, v0.contents().remove(key@), unlinking(v0, key@)));
                assert(swept(
                    v2,
                    self@,
                    tidy is Ok,
                    tidy matches Err(e) && e@ == no_root_hash(),
                ));
            }
        }
        match tidy {
            Ok(()) => Ok(true),
            Err(e) => Err(e),
        }
    }

    /// Writes a value in the older layout, one address per furrow, and commits it. Migration tests
    /// build old state with it.
    pub fn put_legacy_direct_for_tests(
        &mut self,
        key: &[u8; 32],
        value: &[u8],
        now: i64,
    ) -> (r: Result<()>)
        requires
            old(self)@.well(),
            value@.len() <= 250 * 3927,
        ensures
            standing::kept(old(self)@, final(self)@),
            old(self)@.hale() ==> final(self)@.hale() && (r is Ok ==> final(self)@.contents()
                == old(self)@.contents().insert(key@, value@) && final(self)@.durable()
                == final(self)@.contents()),
            old(self)@.hale() && old(self)@.sure && old(self)@.head().gen < u64::MAX && (old(
                self,
            )@.root matches Some(x) ==> x.gen < u64::MAX) && old(self)@.tract.refusal(
                extent::furrow_count(value@.len()) + 54 + old(self)@.index.dirt(),
            ) is None ==> r is Ok || (r matches Err(e) && e@ == no_root_hash()),
    {
        let ghost v0 = self@;
        proof {
            self.lemma_ring_well();
        }
        let put = self.hamt.put_legacy_direct_for_tests(
            self.ring.mirror(),
            &mut self.tract,
            key,
            value,
        );
        let ghost v1 = self@;
        proof {
            assert(worked(v0, v1));
            lemma_worked(v0, v1);
            if put is Ok {
                lemma_attempted(v0, v0, v1, key@, value@);
            }
        }
        if let Err(e) = put {
            return Err(e);
        }
        self.commit(now)
    }
}

/// The entries of a batch.
pub open spec fn pairs(items: Seq<(&[u8; 32], &[u8])>) -> Seq<(Seq<u8>, Seq<u8>)> {
    Seq::new(items.len(), |i: int| (items[i].0@, items[i].1@))
}

/// Some values, and then those of a batch, the later ones over the earlier.
pub open spec fn written(m: Map<Seq<u8>, Seq<u8>>, items: Seq<(Seq<u8>, Seq<u8>)>) -> Map<
    Seq<u8>,
    Seq<u8>,
>
    decreases items.len(),
{
    if items.len() == 0 {
        m
    } else {
        written(m, items.drop_last()).insert(items.last().0, items.last().1)
    }
}

/// Whether a batch has an entry under a key.
pub open spec fn names_key(items: Seq<(Seq<u8>, Seq<u8>)>, k: Seq<u8>) -> bool {
    exists|i: int| 0 <= i < items.len() && (#[trigger] items[i]).0 == k
}

/// Whether some values are others but for keys of a batch.
pub open spec fn same_but(
    m: Map<Seq<u8>, Seq<u8>>,
    n: Map<Seq<u8>, Seq<u8>>,
    items: Seq<(Seq<u8>, Seq<u8>)>,
) -> bool {
    forall|k: Seq<u8>|
        !names_key(items, k) ==> (#[trigger] m.contains_key(k) == n.contains_key(k)) && (
        n.contains_key(k) ==> m[k] == n[k])
}

/// Whether some values are those a vault answered or held durable, but for keys of a batch.
pub open spec fn near(
    v0: VaultView,
    m: Map<Seq<u8>, Seq<u8>>,
    items: Seq<(Seq<u8>, Seq<u8>)>,
) -> bool {
    same_but(m, v0.contents(), items) || same_but(m, v0.durable(), items)
}

/// Whether some values are those a vault answered or held durable, and those of a batch.
pub open spec fn with_all(
    v0: VaultView,
    m: Map<Seq<u8>, Seq<u8>>,
    items: Seq<(Seq<u8>, Seq<u8>)>,
) -> bool {
    m == written(v0.contents(), items) || m == written(v0.durable(), items)
}

/// The entries of a batch that are not already the committed ones.
pub open spec fn fresh(v0: VaultView, items: Seq<(Seq<u8>, Seq<u8>)>) -> Seq<(Seq<u8>, Seq<u8>)>
    decreases items.len(),
{
    if items.len() == 0 {
        Seq::<(Seq<u8>, Seq<u8>)>::empty()
    } else {
        let x = items.last();
        if v0.contents().contains_pair(x.0, x.1) && v0.durable().contains_pair(x.0, x.1) {
            fresh(v0, items.drop_last())
        } else {
            fresh(v0, items.drop_last()).push(x)
        }
    }
}

/// What a batch writes under a key depends on the batch alone; under another, nothing changes.
proof fn lemma_written(
    m: Map<Seq<u8>, Seq<u8>>,
    n: Map<Seq<u8>, Seq<u8>>,
    items: Seq<(Seq<u8>, Seq<u8>)>,
    k: Seq<u8>,
)
    ensures
        names_key(items, k) ==> written(m, items).contains_key(k) && written(n, items).contains_key(
            k,
        ) && written(m, items)[k] == written(n, items)[k],
        !names_key(items, k) ==> written(m, items).contains_key(k) == m.contains_key(k) && (
        m.contains_key(k) ==> written(m, items)[k] == m[k]),
    decreases items.len(),
{
    if items.len() > 0 {
        let front = items.drop_last();
        lemma_written(m, n, front, k);
        if items.last().0 == k {
            assert(items[items.len() - 1].0 == k);
        } else if names_key(items, k) {
            let i = choose|i: int| 0 <= i < items.len() && (#[trigger] items[i]).0 == k;
            assert(front[i].0 == k);
        } else if names_key(front, k) {
            let i = choose|i: int| 0 <= i < front.len() && (#[trigger] front[i]).0 == k;
            assert(items[i].0 == k);
        }
    }
}

proof fn lemma_written_same(
    m: Map<Seq<u8>, Seq<u8>>,
    n: Map<Seq<u8>, Seq<u8>>,
    items: Seq<(Seq<u8>, Seq<u8>)>,
)
    requires
        same_but(m, n, items),
    ensures
        written(m, items) == written(n, items),
{
    let a = written(m, items);
    let b = written(n, items);
    assert forall|k: Seq<u8>| #[trigger] a.contains_key(k) == b.contains_key(k) && (b.contains_key(
        k,
    ) ==> a[k] == b[k]) by {
        lemma_written(m, n, items, k);
        lemma_written(n, m, items, k);
        assert(!names_key(items, k) ==> m.contains_key(k) == n.contains_key(k));
    }
    assert(a =~= b);
}

/// One entry of a batch leaves all but its keys.
proof fn lemma_one_written(
    m: Map<Seq<u8>, Seq<u8>>,
    n: Map<Seq<u8>, Seq<u8>>,
    items: Seq<(Seq<u8>, Seq<u8>)>,
    i: int,
)
    requires
        0 <= i < items.len(),
        same_but(m, n, items),
    ensures
        same_but(m.insert(items[i].0, items[i].1), n, items),
{
    let a = m.insert(items[i].0, items[i].1);
    assert forall|k: Seq<u8>| !names_key(items, k) implies (#[trigger] a.contains_key(k)
        == n.contains_key(k)) && (n.contains_key(k) ==> a[k] == n[k]) by {
        assert(items[i].0 != k);
        assert(m.contains_key(k) == n.contains_key(k));
    }
}

proof fn lemma_near_one(
    v0: VaultView,
    m: Map<Seq<u8>, Seq<u8>>,
    items: Seq<(Seq<u8>, Seq<u8>)>,
    i: int,
)
    requires
        0 <= i < items.len(),
        near(v0, m, items),
    ensures
        near(v0, m.insert(items[i].0, items[i].1), items),
{
    if same_but(m, v0.contents(), items) {
        lemma_one_written(m, v0.contents(), items, i);
    } else {
        lemma_one_written(m, v0.durable(), items, i);
    }
}

proof fn lemma_near_all(
    v0: VaultView,
    m: Map<Seq<u8>, Seq<u8>>,
    items: Seq<(Seq<u8>, Seq<u8>)>,
)
    requires
        near(v0, m, items),
    ensures
        with_all(v0, written(m, items), items),
{
    if same_but(m, v0.contents(), items) {
        lemma_written_same(m, v0.contents(), items);
    } else {
        lemma_written_same(m, v0.durable(), items);
    }
}

/// How often a batch starts over before it gives up.
pub const RESTARTS: u64 = 64;

/// The entries of a batch at some places.
pub open spec fn picked(items: Seq<(Seq<u8>, Seq<u8>)>, at: Seq<usize>) -> Seq<
    (Seq<u8>, Seq<u8>),
> {
    Seq::new(at.len(), |j: int| items[at[j] as int])
}

/// How many blocks the entries of a batch take at most: values, leaves and paths of nodes.
pub open spec fn bulk(items: Seq<(Seq<u8>, Seq<u8>)>) -> nat
    decreases items.len(),
{
    if items.len() == 0 {
        0
    } else {
        bulk(items.drop_last()) + value::body_blocks(items.last().1.len()) + 54
    }
}

/// Whether a batch has room for sure: a vault in working order, on devices that do not fail, can
/// append all of it and what is dirty before the fence.
pub open spec fn has_room_for(v: VaultView, items: Seq<(Seq<u8>, Seq<u8>)>) -> bool {
    &&& v.hale()
    &&& v.sure
    &&& v.tract.refusal(bulk(items) + v.index.dirt()) is None
    &&& v.head().gen < u64::MAX
    &&& v.root matches Some(x) ==> x.gen < u64::MAX
}

/// A batch takes more blocks than its beginning.
proof fn lemma_bulk(items: Seq<(Seq<u8>, Seq<u8>)>, i: int)
    requires
        0 <= i <= items.len(),
    ensures
        bulk(items.take(i)) <= bulk(items),
    decreases items.len(),
{
    if i == items.len() {
        assert(items.take(i) =~= items);
    } else {
        assert(items.drop_last().take(i) =~= items.take(i));
        lemma_bulk(items.drop_last(), i);
    }
}

/// Whether some of a batch was appended, and no more than its paths of nodes went dirty.
pub open spec fn batch_landed(v0: VaultView, v1: VaultView, items: Seq<(Seq<u8>, Seq<u8>)>) -> bool {
    &&& v1.tract == (Tract { plow: v1.tract.plow, ..v0.tract })
    &&& v0.tract.plow <= v1.tract.plow
    &&& v1.tract.plow + v1.index.dirt() <= v0.tract.plow + v0.index.dirt() + bulk(items)
    &&& v1.top == v0.top
    &&& v1.root == v0.root
    &&& v1.contents() == written(v0.contents(), items)
}

/// What putting a batch in came to, committed or not.
pub open spec fn batch_in(
    v0: VaultView,
    v1: VaultView,
    items: Seq<(Seq<u8>, Seq<u8>)>,
    r: Result<()>,
) -> bool {
    &&& standing::kept(v0, v1)
    &&& v1.tract.len == v0.tract.len
    &&& mooring::moored(v0) && (!by_device(r) || v0.sure) ==> mooring::moored(v1)
    &&& v0.hale() ==> {
        &&& v1.hale()
        &&& near(v0, v1.durable(), items)
        &&& near(v0, v1.contents(), items)
        &&& r is Ok ==> with_all(v0, v1.contents(), items)
    }
}

/// A batch without what it has under a key.
pub open spec fn without(items: Seq<(Seq<u8>, Seq<u8>)>, k: Seq<u8>) -> Seq<(Seq<u8>, Seq<u8>)>
    decreases items.len(),
{
    if items.len() == 0 {
        items
    } else if items.last().0 == k {
        without(items.drop_last(), k)
    } else {
        without(items.drop_last(), k).push(items.last())
    }
}

/// A batch with the last entry under each key alone: what it has before that is never read.
pub open spec fn lasts(items: Seq<(Seq<u8>, Seq<u8>)>) -> Seq<(Seq<u8>, Seq<u8>)>
    decreases items.len(),
{
    if items.len() == 0 {
        items
    } else {
        without(lasts(items.drop_last()), items.last().0).push(items.last())
    }
}

/// Entries under a key that is written anyway can be left out.
proof fn lemma_without(m: Map<Seq<u8>, Seq<u8>>, items: Seq<(Seq<u8>, Seq<u8>)>, k: Seq<u8>, v: Seq<u8>)
    ensures
        written(m, without(items, k)).insert(k, v) == written(m, items).insert(k, v),
        bulk(without(items, k)) <= bulk(items),
    decreases items.len(),
{
    if items.len() > 0 {
        let front = items.drop_last();
        let x = items.last();
        lemma_without(m, front, k, v);
        if x.0 == k {
            assert(written(m, items).insert(k, v) =~= written(m, front).insert(k, v));
        } else {
            let w = without(front, k);
            assert(w.push(x).drop_last() =~= w);
            let a = written(m, w).insert(x.0, x.1).insert(k, v);
            let b = written(m, front).insert(x.0, x.1).insert(k, v);
            assert(a =~= written(m, w).insert(k, v).insert(x.0, x.1));
            assert(b =~= written(m, front).insert(k, v).insert(x.0, x.1));
        }
    }
}

/// Which keys are left of a batch without one.
proof fn lemma_without_names(items: Seq<(Seq<u8>, Seq<u8>)>, k: Seq<u8>, y: Seq<u8>)
    ensures
        names_key(without(items, k), y) ==> names_key(items, y),
        y != k && names_key(items, y) ==> names_key(without(items, k), y),
    decreases items.len(),
{
    if items.len() > 0 {
        let front = items.drop_last();
        lemma_without_names(front, k, y);
        lemma_names_push(front, items.last(), y);
        assert(front.push(items.last()) =~= items);
        if items.last().0 != k {
            lemma_names_push(without(front, k), items.last(), y);
        }
    }
}

proof fn lemma_names_push(items: Seq<(Seq<u8>, Seq<u8>)>, x: (Seq<u8>, Seq<u8>), y: Seq<u8>)
    ensures
        names_key(items.push(x), y) == (names_key(items, y) || x.0 == y),
{
    let all = items.push(x);
    if names_key(all, y) {
        let i = choose|i: int| 0 <= i < all.len() && (#[trigger] all[i]).0 == y;
        if i < items.len() {
            assert(items[i].0 == y);
        }
    }
    if names_key(items, y) {
        let i = choose|i: int| 0 <= i < items.len() && (#[trigger] items[i]).0 == y;
        assert(all[i].0 == y);
    }
    if x.0 == y {
        assert(all[items.len() as int].0 == y);
    }
}

/// The last entries of a batch write what the batch writes, under the same keys, in no more blocks.
proof fn lemma_lasts(items: Seq<(Seq<u8>, Seq<u8>)>)
    ensures
        forall|m: Map<Seq<u8>, Seq<u8>>| #[trigger] written(m, lasts(items)) == written(m, items),
        forall|k: Seq<u8>| #[trigger] names_key(lasts(items), k) == names_key(items, k),
        bulk(lasts(items)) <= bulk(items),
    decreases items.len(),
{
    if items.len() > 0 {
        let front = items.drop_last();
        let x = items.last();
        let w = without(lasts(front), x.0);
        lemma_lasts(front);
        assert(w.push(x).drop_last() =~= w);
        assert(front.push(x) =~= items);
        assert forall|m: Map<Seq<u8>, Seq<u8>>| #[trigger]
            written(m, lasts(items)) == written(m, items) by {
            lemma_without(m, lasts(front), x.0, x.1);
            assert(written(m, lasts(front)) == written(m, front));
        }
        assert forall|k: Seq<u8>| #[trigger] names_key(lasts(items), k) == names_key(items, k) by {
            lemma_without_names(lasts(front), x.0, k);
            lemma_names_push(w, x, k);
            lemma_names_push(front, x, k);
            assert(names_key(lasts(front), k) == names_key(front, k));
        }
        lemma_without(Map::<Seq<u8>, Seq<u8>>::empty(), lasts(front), x.0, x.1);
    }
}

/// What putting the last entries in came to is what putting the batch in came to.
proof fn lemma_lasts_in(
    v0: VaultView,
    v1: VaultView,
    items: Seq<(Seq<u8>, Seq<u8>)>,
    r: Result<()>,
)
    requires
        batch_in(v0, v1, lasts(items), r),
    ensures
        batch_in(v0, v1, items, r),
        batch_landed(v0, v1, lasts(items)) ==> batch_landed(v0, v1, items),
{
    lemma_lasts(items);
    assert(written(v0.contents(), lasts(items)) == written(v0.contents(), items));
    assert(written(v0.durable(), lasts(items)) == written(v0.durable(), items));
    assert forall|m: Map<Seq<u8>, Seq<u8>>, n: Map<Seq<u8>, Seq<u8>>| #[trigger]
        same_but(m, n, lasts(items)) implies same_but(m, n, items) by {
        assert forall|k: Seq<u8>| !names_key(items, k) implies (#[trigger] m.contains_key(k)
            == n.contains_key(k)) && (n.contains_key(k) ==> m[k] == n[k]) by {
            assert(names_key(lasts(items), k) == names_key(items, k));
            assert(!names_key(lasts(items), k));
            assert(m.contains_key(k) == n.contains_key(k));
        }
    }
}

/// The places of a batch's entries that are not under a key.
fn leave_out(items: &[(&[u8; 32], &[u8])], at: &Vec<usize>, key: &[u8; 32]) -> (r: Vec<usize>)
    requires
        forall|j: int| 0 <= j < at@.len() ==> (#[trigger] at@[j]) < items@.len(),
    ensures
        picked(pairs(items@), r@) == without(picked(pairs(items@), at@), key@),
        forall|j: int| 0 <= j < r@.len() ==> (#[trigger] r@[j]) < items@.len(),
{
    let ghost all = pairs(items@);
    let ghost from = picked(all, at@);
    let mut r: Vec<usize> = Vec::new();
    let mut i: usize = 0;
    assert(picked(all, r@) =~= without(from.take(0), key@));
    while i < at.len()
        invariant
            i <= at@.len(),
            all == pairs(items@),
            from == picked(all, at@),
            forall|j: int| 0 <= j < at@.len() ==> (#[trigger] at@[j]) < items@.len(),
            forall|j: int| 0 <= j < r@.len() ==> (#[trigger] r@[j]) < items@.len(),
            picked(all, r@) == without(from.take(i as int), key@),
        decreases at@.len() - i,
    {
        let x = items[at[i]];
        let ghost was = r@;
        proof {
            let next = from.take(i + 1);
            assert(next.drop_last() =~= from.take(i as int));
            assert(next.last() == (x.0@, x.1@));
        }
        if !block::same32(x.0, key) {
            r.push(at[i]);
            assert(picked(all, r@) =~= picked(all, was).push(all[at@[i as int] as int]));
        }
        i = i + 1;
    }
    assert(from.take(i as int) =~= from);
    r
}

/// The places of the last entry under each key, of entries at some places.
fn last_places(items: &[(&[u8; 32], &[u8])], at: &Vec<usize>) -> (r: Vec<usize>)
    requires
        forall|j: int| 0 <= j < at@.len() ==> (#[trigger] at@[j]) < items@.len(),
    ensures
        picked(pairs(items@), r@) == lasts(picked(pairs(items@), at@)),
        forall|j: int| 0 <= j < r@.len() ==> (#[trigger] r@[j]) < items@.len(),
{
    let ghost all = pairs(items@);
    let ghost from = picked(all, at@);
    let mut r: Vec<usize> = Vec::new();
    let mut i: usize = 0;
    assert(picked(all, r@) =~= lasts(from.take(0)));
    while i < at.len()
        invariant
            i <= at@.len(),
            all == pairs(items@),
            from == picked(all, at@),
            forall|j: int| 0 <= j < at@.len() ==> (#[trigger] at@[j]) < items@.len(),
            forall|j: int| 0 <= j < r@.len() ==> (#[trigger] r@[j]) < items@.len(),
            picked(all, r@) == lasts(from.take(i as int)),
        decreases at@.len() - i,
    {
        let x = items[at[i]];
        proof {
            let next = from.take(i + 1);
            assert(next.drop_last() =~= from.take(i as int));
            assert(next.last() == (x.0@, x.1@));
        }
        r = leave_out(items, &r, x.0);
        let ghost was = r@;
        r.push(at[i]);
        assert(picked(all, r@) =~= picked(all, was).push(all[at@[i as int] as int]));
        i = i + 1;
    }
    assert(from.take(i as int) =~= from);
    r
}

impl<A: BlockDev, B: BlockDev> Vault<A, B> {
    /// Puts the entries of a batch in, without the final commit. Of several under one key the last
    /// alone is put: a leaf that the batch itself supersedes would count as live until the next
    /// opening.
    fn put_last(&mut self, items: &[(&[u8; 32], &[u8])], at: &Vec<usize>, now: i64) -> (r: Result<
        (),
    >)
        requires
            old(self)@.well(),
            forall|j: int| 0 <= j < at@.len() ==> (#[trigger] at@[j]) < items@.len(),
        ensures
            batch_in(old(self)@, final(self)@, picked(pairs(items@), at@), r),
            has_room_for(old(self)@, picked(pairs(items@), at@)) ==> r is Ok && batch_landed(
                old(self)@,
                final(self)@,
                picked(pairs(items@), at@),
            ),
    {
        let ghost v0 = self@;
        let ghost all = picked(pairs(items@), at@);
        let ends = last_places(items, at);
        proof {
            lemma_lasts(all);
        }
        let done = self.put_all(items, &ends, now);
        proof {
            lemma_lasts_in(v0, self@, all, done);
        }
        done
    }

    /// Puts the entries of a batch in, without the final commit. Where room had to be made by
    /// discarding what was provisional, it starts over.
    #[verifier::rlimit(60)]
    fn put_all(&mut self, items: &[(&[u8; 32], &[u8])], at: &Vec<usize>, now: i64) -> (r: Result<
        (),
    >)
        requires
            old(self)@.well(),
            forall|j: int| 0 <= j < at@.len() ==> (#[trigger] at@[j]) < items@.len(),
        ensures
            batch_in(old(self)@, final(self)@, picked(pairs(items@), at@), r),
            has_room_for(old(self)@, picked(pairs(items@), at@)) ==> r is Ok && batch_landed(
                old(self)@,
                final(self)@,
                picked(pairs(items@), at@),
            ),
    {
        let ghost v0 = self@;
        let ghost all = picked(pairs(items@), at@);
        let ghost mut from = v0.contents();
        let mut i: usize = 0;
        let mut restarts: u64 = 0;
        assert(all.take(0) =~= Seq::<(Seq<u8>, Seq<u8>)>::empty());
        while i < at.len()
            invariant
                v0 == old(self)@,
                v0.well(),
                all == picked(pairs(items@), at@),
                i <= at@.len(),
                restarts <= RESTARTS,
                forall|j: int| 0 <= j < at@.len() ==> (#[trigger] at@[j]) < items@.len(),
                standing::kept(v0, self@),
                self@.tract.len == v0.tract.len,
                mooring::moored(v0) ==> mooring::moored(self@),
                v0.hale() ==> {
                    &&& self@.hale()
                    &&& near(v0, from, all)
                    &&& near(v0, self@.durable(), all)
                    &&& near(v0, self@.contents(), all)
                    &&& self@.contents() == written(from, all.take(i as int))
                },
                has_room_for(v0, all) ==> restarts == 0 && batch_landed(
                    v0,
                    self@,
                    all.take(i as int),
                ),
            decreases RESTARTS - restarts, at@.len() - i,
        {
            let ghost v1 = self@;
            let x = items[at[i]];
            proof {
                assert(all[i as int] == (x.0@, x.1@));
                let next = all.take(i + 1);
                assert(next.drop_last() =~= all.take(i as int));
                assert(next.last() == all[i as int]);
                assert(all.take(0) =~= Seq::<(Seq<u8>, Seq<u8>)>::empty());
                if v0.hale() {
                    lemma_near_one(v0, v1.contents(), all, i as int);
                    lemma_near_one(v0, v1.durable(), all, i as int);
                }
                lemma_bulk(all, i + 1);
            }
            match self.put_no_commit(x.0, x.1, now) {
                Ok(lost) => {
                    if lost {
                        if restarts == RESTARTS {
                            return Err(Error::TractFull);
                        }
                        restarts = restarts + 1;
                        proof {
                            from = self@.contents();
                        }
                        i = 0;
                    } else {
                        i = i + 1;
                    }
                },
                Err(e) => return Err(e),
            }
        }
        proof {
            assert(all.take(i as int) =~= all);
            if v0.hale() {
                lemma_near_all(v0, from, all);
            }
        }
        Ok(())
    }

    /// Inserts or overwrites many entries under one commit, durable on return. Entries that are
    /// already the committed ones are left out; nothing else is committed then.
    #[verifier::rlimit(60)]
    pub fn put_batch(&mut self, items: &[(&[u8; 32], &[u8])], now: i64) -> (r: Result<()>)
        requires
            old(self)@.well(),
        ensures
            ({
                let news = fresh(old(self)@, pairs(items@));
                &&& standing::kept(old(self)@, final(self)@)
                &&& final(self)@.tract.len == old(self)@.tract.len
                &&& mooring::moored(old(self)@) && (!by_device(r) || old(self)@.sure)
                    ==> mooring::moored(final(self)@)
                &&& old(self)@.hale() ==> {
                    &&& final(self)@.hale()
                    &&& match r {
                        Ok(()) => news.len() == 0 && final(self)@ == old(self)@ || (with_all(
                            old(self)@,
                            final(self)@.contents(),
                            news,
                        ) && final(self)@.durable() == final(self)@.contents()),
                        Err(_) => near(old(self)@, final(self)@.contents(), news) && near(
                            old(self)@,
                            final(self)@.durable(),
                            news,
                        ),
                    }
                    &&& news.len() == 0 && old(self)@.sure ==> r is Ok && final(self)@
                        == old(self)@ && final(self).second() == old(self).second()
                }
                &&& has_room_for(old(self)@, news) && news.len() > 0 ==> {
                    ||| r matches Err(e) && e@ == no_root_hash()
                    ||| {
                        &&& final(self)@.durable() == written(old(self)@.contents(), news)
                        &&& old(self)@.tract.plow + bulk(news) + old(self)@.index.dirt() - old(
                            self,
                        )@.tract.reap <= old(self)@.tract.len / 4 ==> r is Ok
                        &&& exists|v: VaultView| #[trigger]
                            filed(
                                old(self)@,
                                v,
                                written(old(self)@.contents(), news),
                                bulk(news) + old(self)@.index.dirt(),
                            ) && swept(
                                v,
                                final(self)@,
                                r is Ok,
                                r matches Err(e) && e@ == no_root_hash(),
                            )
                    }
                }
            }),
            r is Ok ==> final(self)@ == old(self)@ || final(self)@.head().gen > old(
                self,
            )@.head().gen,
    {
        let ghost v0 = self@;
        let ghost all = pairs(items@);
        let ghost news = fresh(v0, all);
        let mut at: Vec<usize> = Vec::new();
        let mut i: usize = 0;
        proof {
            assert(all.take(0) =~= Seq::<(Seq<u8>, Seq<u8>)>::empty());
            assert(picked(all, at@) =~= Seq::<(Seq<u8>, Seq<u8>)>::empty());
            assert(same_but(v0.contents(), v0.contents(), news));
            assert(same_but(v0.durable(), v0.durable(), news));
        }
        while i < items.len()
            invariant
                v0 == old(self)@,
                v0.well(),
                self@ == v0,
                self.second() == old(self).second(),
                all == pairs(items@),
                news == fresh(v0, all),
                same_but(v0.contents(), v0.contents(), news),
                same_but(v0.durable(), v0.durable(), news),
                i <= items@.len(),
                forall|j: int| 0 <= j < at@.len() ==> (#[trigger] at@[j]) < items@.len(),
                v0.hale() ==> picked(all, at@) == fresh(v0, all.take(i as int)),
            decreases items@.len() - i,
        {
            let x = items[i];
            let held = match self.holds_committed(x.0, x.1) {
                Ok(y) => y,
                Err(e) => return Err(e),
            };
            let ghost was = at@;
            proof {
                let next = all.take(i + 1);
                assert(next.drop_last() =~= all.take(i as int));
                assert(next.last() == (x.0@, x.1@));
            }
            if !held {
                at.push(i);
                assert(picked(all, at@) =~= picked(all, was).push(all[i as int]));
            }
            i = i + 1;
        }
        assert(all.take(i as int) =~= all);
        if at.len() == 0 {
            proof {
                if v0.hale() {
                    assert(news.len() == 0);
                }
            }
            return Ok(());
        }
        let put = self.put_last(items, &at, now);
        let ghost v1 = self@;
        if let Err(e) = put {
            return Err(e);
        }
        proof {
            if has_room_for(v0, news) {
                assert(roomy(v1));
            }
        }
        let landed = self.commit(now);
        let ghost v2 = self@;
        match landed {
            Ok(()) => {},
            Err(e) => {
                if !is_room(&e) {
                    return Err(e);
                }
                let made = self.make_room(now);
                let ghost v3 = self@;
                if let Err(e) = made {
                    return Err(e);
                }
                let again = self.put_last(items, &at, now);
                let ghost v4 = self@;
                proof {
                    if v0.hale() {
                        lemma_near_through(v0, v3, v4.contents(), news);
                        lemma_near_through(v0, v3, v4.durable(), news);
                        if again is Ok {
                            lemma_all_through(v0, v3, v4.contents(), news);
                        }
                    }
                }
                if let Err(e) = again {
                    return Err(e);
                }
                let closed = self.commit(now);
                if let Err(e) = closed {
                    return Err(e);
                }
            },
        }
        let ghost v5 = self@;
        proof {
            if v0.hale() {
                assert(v5.durable() == v5.contents());
                assert(with_all(v0, v5.contents(), news));
                assert(near(v0, v5.contents(), news));
            }
        }
        let tidy = self.maybe_reap(now);
        proof {
            if has_room_for(v0, news) {
                assert(filed(
                    v0,
                    v5,
                    written(v0.contents(), news),
                    bulk(news) + v0.index.dirt(),
                ));
                assert(swept(
                    v5,
                    self@,
                    tidy is Ok,
                    tidy matches Err(e) && e@ == no_root_hash(),
                ));
            }
        }
        tidy
    }
}

/// What is near to what is near is near.
proof fn lemma_near_through(
    v0: VaultView,
    v1: VaultView,
    m: Map<Seq<u8>, Seq<u8>>,
    items: Seq<(Seq<u8>, Seq<u8>)>,
)
    requires
        near(v0, v1.contents(), items),
        near(v0, v1.durable(), items),
        near(v1, m, items),
    ensures
        near(v0, m, items),
{
    let n = if same_but(m, v1.contents(), items) {
        v1.contents()
    } else {
        v1.durable()
    };
    let b = if same_but(n, v0.contents(), items) {
        v0.contents()
    } else {
        v0.durable()
    };
    assert forall|k: Seq<u8>| !names_key(items, k) implies (#[trigger] m.contains_key(k)
        == b.contains_key(k)) && (b.contains_key(k) ==> m[k] == b[k]) by {
        assert(m.contains_key(k) == n.contains_key(k));
        assert(n.contains_key(k) == b.contains_key(k));
    }
    assert(same_but(m, b, items));
}

/// A batch written over what is near is the batch written.
proof fn lemma_all_through(
    v0: VaultView,
    v1: VaultView,
    m: Map<Seq<u8>, Seq<u8>>,
    items: Seq<(Seq<u8>, Seq<u8>)>,
)
    requires
        near(v0, v1.contents(), items),
        near(v0, v1.durable(), items),
        with_all(v1, m, items),
    ensures
        with_all(v0, m, items),
{
    lemma_near_all(v0, v1.contents(), items);
    lemma_near_all(v0, v1.durable(), items);
}

/// What `Vault::open_repairing` took out: stale pointers, whose target was zeroed, with no data
/// behind them, and dangling ones, whose target was reused or is corrupt: the value is lost.
#[derive(Debug)]
pub struct RepairReport {
    pub stale: Vec<StalePointer>,
    pub dangling: Vec<DanglingPointer>,
}

impl Default for RepairReport {
    fn default() -> (r: Self)
        ensures
            r.stale@.len() == 0,
            r.dangling@.len() == 0,
    {
        RepairReport { stale: Vec::new(), dangling: Vec::new() }
    }
}

/// The blocks of the tract that a spine entry describes.
pub open spec fn ground_of(disk: Seq<Seq<u8>>, base: int, e: SpineView) -> Seq<Seq<u8>> {
    tract::ground(disk, base, e.tract as nat)
}

/// Whether a vault is the one that a spine entry on a disk commits to: where every path of that index
/// is sound, it is in working order and answers what the entry commits to.
pub open spec fn restores(disk: Seq<Seq<u8>>, v: VaultView, e: SpineView) -> bool {
    keep::sound(
        ground_of(disk, v.tract.base as int, e),
        standing::index_of(e),
    ) ==> {
        &&& v.hale()
        &&& v.contents() == standing::committed(disk, v.tract.base as int, e)
        &&& v.durable() == v.contents()
    }
}

/// Whether a vault was opened from a disk that leads to `top` by `r`. Its head and its length are those
/// of `top`, unless that left it wedged and it was healed.
pub open spec fn opened_by(
    disk: Seq<Seq<u8>>,
    v: VaultView,
    r: Option<RootView>,
    top: (u64, SpineView),
) -> bool {
    &&& mooring::leads_to(disk, v.exponent, v.tract.base as int, r, top)
    &&& restores(disk, v, top.1)
    &&& top.1.gen <= v.head().gen
    &&& top.1.tract <= v.tract.len
    &&& v.top == Some(top) && v.tract.len == top.1.tract || exists|v0: VaultView|
        (#[trigger] seats(disk, v0, v, r, top)) && wedged(v0, fence_of(budgets(v0)))
}

/// Whether a vault is what the head `top` of a disk seats, before it is healed and is then `v`.
pub open spec fn seats(
    disk: Seq<Seq<u8>>,
    v0: VaultView,
    v: VaultView,
    r: Option<RootView>,
    top: (u64, SpineView),
) -> bool {
    &&& v0.disk == disk
    &&& v0.exponent == v.exponent
    &&& v0.tract.base == v.tract.base
    &&& v0.top == Some(top)
    &&& v0.root == r
    &&& v0.start == (match r {
        None => 0,
        Some(x) => if mooring::lodged(disk, x.at as int, x.ring, Some(top)) {
            x.at
        } else {
            x.was
        },
    })
    &&& v0.tract.len == top.1.tract
    &&& survey_of(disk, v.tract.base as int, top.1, false) matches Ok(s) && v0.live
        == keep::filled(Map::<u64, Seq<u8>>::empty(), s.live)
    &&& load::suited(v0.live, top.1.plow, top.1.tract, v0.tract.plow, v0.tract.reap)
}

/// Whether a vault was opened from a disk.
pub open spec fn opened(disk: Seq<Seq<u8>>, v: VaultView) -> bool {
    exists|r: Option<RootView>, top: (u64, SpineView)| #[trigger] opened_by(disk, v, r, top)
}

/// Whether a vault is moored if the disk that it was opened from was that of a moored one.
pub open spec fn stays_moored(disk: Seq<Seq<u8>>, v: VaultView) -> bool {
    forall|w: VaultView| #[trigger]
        mooring::moored(w) && w.well() && w.disk == disk ==> mooring::moored(v)
}

/// What a walk of the index that a spine entry commits to comes to.
pub open spec fn survey_of(
    disk: Seq<Seq<u8>>,
    base: int,
    e: SpineView,
    repair: bool,
) -> core::result::Result<survey::Survey, ErrorView> {
    survey::survey_root(ground_of(disk, base, e), standing::index_of(e).root, repair)
}

/// Whether the nodes of an index stand where they belong, and no value is of another size than it
/// says.
pub open spec fn undamaged_sizes(t: Seq<Seq<u8>>, c: hamt::Index) -> bool {
    keep::placed(t, c) && forall|k: Seq<u8>|
        k.len() == 32 ==> load::fits_size(#[trigger] c.path(t, k))
}

/// What is left of a damaged vault: every key whose path was sound answers what it answered, and
/// where no value is of another size than it says, the vault is in working order.
pub open spec fn repaired(disk: Seq<Seq<u8>>, v: VaultView, e: SpineView) -> bool {
    let t = ground_of(disk, v.tract.base as int, e);
    let c = standing::index_of(e);
    undamaged_sizes(t, c) ==> {
        &&& v.good()
        &&& forall|k: Seq<u8>|
            k.len() == 32 && (#[trigger] c.path(t, k)).sound() ==> (v.contents().contains_key(k)
                <==> (c.path(t, k).found matches Ok(Some(_)))) && (v.contents().contains_key(k)
                ==> c.path(t, k).found == Ok::<Option<Seq<u8>>, ErrorView>(
                Some(v.contents()[k]),
            ))
    }
}

/// What a vault that was just assembled has to write and how far it may append, over the walk of its
/// committed index.
pub open spec fn seated(v: VaultView, s: survey::Survey) -> bool {
    let h = v.head();
    &&& v.index.dirt() <= 52 * load::snips_of(s).len()
    &&& v.tract.fence_limit == Some(fenced_by(fence_of(budgets(v)), v.shield))
    &&& v.shield <= v.tract.reap + v.tract.len
    &&& forall|n: int| #[trigger]
        load::clear_for(s, h.plow as int, h.tract as int, n) ==> (v.tract.plow + n
            <= u64::MAX ==> v.tract.plow + n <= v.shield) && (h.plow + n >= h.tract
            ==> v.tract.plow == h.plow)
}

impl<A: BlockDev, B: BlockDev> Vault<A, B> {
    /// Assembles a vault from its ring: geometry, index and live set come from the committed head.
    #[verifier::rlimit(60)]
    fn assemble(ring: Ring<A, B>, tract_base: u64, root: Option<RootEntry>, repair: bool) -> (r:
        Result<(Self, RepairReport)>)
        requires
            ring.wf(),
            ring.start() + ring.slots() <= tract_base,
            ring.mir().has_device(),
            root matches Some(x) ==> x@.sane() && x@.ring == ring.exponent() && x@.band()
                == tract_base && 4 <= ring.start(),
        ensures
            match r {
                Ok((v, report)) => {
                    &&& ring.top() matches Some((_, h)) && v@.well() && v@.tract.base == tract_base
                        && v@.disk == ring.disk() && v@.top == ring.top() && v@.start
                        == ring.start() && v@.exponent == ring.exponent() && v@.root == root_view(
                        root,
                    ) && v@.sure == ring.mir().reliable() && v@.tract.len == h.tract && (
                    survey_of(
                        ring.disk(),
                        tract_base as int,
                        h,
                        repair,
                    ) matches Ok(s) && survey::stale_view(report.stale@) == s.stale
                        && survey::dangling_view(report.dangling@) == s.dangling) && (
                    repair ==> repaired(ring.disk(), v@, h)) && restores(ring.disk(), v@, h)
                        && seated(v@, survey_of(
                        ring.disk(),
                        tract_base as int,
                        h,
                        repair,
                    )->Ok_0) && v.guard() == fence_of(budgets(v@)) && v@.live == keep::filled(
                        Map::<u64, Seq<u8>>::empty(),
                        survey_of(ring.disk(), tract_base as int, h, repair)->Ok_0.live,
                    ) && load::suited(v@.live, h.plow, h.tract, v@.tract.plow, v@.tract.reap)
                        && tract_base + h.tract <= ring.mir().count()
                },
                Err(e) => match ring.top() {
                    None => e@ == error::corrupt(
                        "bootstrap found entries but head search found none",
                    ),
                    Some((_, h)) => {
                        &&& h.tract > 0 && ring.mir().count() < tract_base + h.tract ==> e@
                            is Corrupt
                        &&& {
                        ||| h.tract == 0 || tract_base + h.tract > u64::MAX
                        ||| !ring.mir().reliable()
                        ||| ring.disk().len() < tract_base + h.tract
                        ||| ring.mir().second() is Some && ring.mir().second()->0.len() < tract_base
                            + h.tract
                        ||| h.plow + h.tract > u64::MAX
                        ||| survey_of(ring.disk(), tract_base as int, h, repair) == Err::<
                            survey::Survey,
                            ErrorView,
                        >(e@) && (repair || !keep::sound(
                            ground_of(ring.disk(), tract_base as int, h),
                            standing::index_of(h),
                        ))
                        ||| survey_of(ring.disk(), tract_base as int, h, repair) matches Ok(s)
                            && !load::trimmable(
                            ground_of(ring.disk(), tract_base as int, h),
                            standing::index_of(h),
                            s,
                        ) && !keep::sound(
                            ground_of(ring.disk(), tract_base as int, h),
                            standing::index_of(h),
                        )
                        }
                    },
                },
            },
    {
        let mut ring = ring;
        let ghost d0 = ring.disk();
        let (hash, lba, len, plow) = match ring.head() {
            None => {
                return Err(corrupt_err("bootstrap found entries but head search found none"));
            },
            Some(h) => (h.hamt_hash, h.hamt_lba, h.tract_blocks, h.plow),
        };
        if len == 0 || len > u64::MAX - tract_base {
            return Err(corrupt_err("committed geometry is out of range"));
        }
        let need: u64 = tract_base + len;
        let count: u64 = ring.mirror().block_count();
        if count < need {
            return Err(
                corrupt_num("device truncated: committed geometry needs ", need, " blocks"),
            );
        }
        let last = Tract { base: tract_base, len, plow, reap: 0, fence_limit: None };
        let found = seat(ring.mirror(), &last, hash, lba, repair);
        let x = match found {
            Ok(x) => x,
            Err(e) => return Err(e),
        };
        let mut v = Vault {
            ring,
            tract: Tract {
                base: tract_base,
                len,
                plow: x.plow,
                reap: x.reap,
                fence_limit: Some(x.shield),
            },
            hamt: x.loaded.hamt,
            live: x.loaded.live,
            root,
            shield: x.shield,
            fence: None,
        };
        let ghost v1 = v@;
        proof {
            let h = v1.head();
            let t = last.on(d0);
            let c = standing::index_of(h);
            assert(v1.ground() =~= t);
            assert(ground_of(d0, tract_base as int, h) =~= t);
            assert(v1.well());
            let s = survey_of(d0, tract_base as int, h, repair)->Ok_0;
            if keep::sound(t, c) {
                lemma_loaded_reads(t, c, s, v1.index, v1.live);
                lemma_seated(v1, s);
            }
            if repair && undamaged_sizes(t, c) {
                assert forall|k: Seq<u8>, p: u64|
                    k.len() == 32 && (#[trigger] v1.index.path(t, k).reads.contains(p)) implies p
                    < t.len() && v1.live.contains_key(p) by {
                    assert(keep::covered(t, v1.index, v1.live));
                }
                assert(v1.good());
                assert forall|k: Seq<u8>|
                    k.len() == 32 && (#[trigger] c.path(t, k)).sound() implies (
                v1.contents().contains_key(k) <==> (c.path(t, k).found matches Ok(Some(_)))) && (
                v1.contents().contains_key(k) ==> c.path(t, k).found == Ok::<
                    Option<Seq<u8>>,
                    ErrorView,
                >(Some(v1.contents()[k]))) by {
                    assert(v1.index.path(t, k).found == c.path(t, k).found);
                }
            }
        }
        let done = v.refence();
        proof {
            assert(v@.ground() =~= v1.ground());
        }
        if let Err(e) = done {
            return Err(e);
        }
        assert(budgets(v@) =~= budgets(v1));
        Ok((v, RepairReport { stale: x.loaded.stale, dangling: x.loaded.dangling }))
    }

    /// Heals a head that was restored with less budget than one reap window and the reserve: nothing
    /// that ordinary ladders do can slide it. Dead space is reaped; a tract full of live data is
    /// grown. Best effort both ways: a vault that cannot heal still opens readable.
    fn unwedge(&mut self)
        requires
            old(self)@.well(),
        ensures
            standing::tended(old(self)@, final(self)@),
            !wedged(old(self)@, old(self).guard()) ==> final(self)@ == old(self)@,
            wedged(old(self)@, old(self).guard()) && can_rescue(old(self)@) ==> old(
                self,
            )@.tract.reap < final(self)@.tract.reap && final(self)@.tract.len == old(
                self,
            )@.tract.len,
            mooring::moored(old(self)@) && old(self)@.sure ==> mooring::moored(final(self)@),
    {
        let ghost v0 = self@;
        let wedged = match (&self.root, self.fence) {
            (None, Some(f)) => f.saturating_sub(self.tract.plow) < self.reap_window().saturating_add(
                8,
            ),
            _ => false,
        };
        if !wedged {
            return;
        }
        let now: i64 = match self.ring.head() {
            Some(h) => if h.eagle_time < i64::MAX {
                h.eagle_time + 1
            } else {
                h.eagle_time
            },
            None => 1,
        };
        let done = self.rescue(now);
        let ghost v1 = self@;
        if let Err(Error::TractFull) = done {
            let _grown = self.double(now);
            proof {
                standing::lemma_tended_twice(v0, v1, self@);
            }
        }
    }
}

/// Whether a device holds a sealed block anywhere.
pub open spec fn has_sealed(disk: Option<Seq<Seq<u8>>>) -> bool {
    disk matches Some(d) && exists|i: int|
        0 <= i < d.len() && seal::seal_of(#[trigger] d[i]) is Some
}

/// Whether a vault has just been founded: it is in working order and holds nothing.
pub open spec fn newborn(v: VaultView, ring: u8, now: i64) -> bool {
    &&& v.well()
    &&& v.hale()
    &&& v.settled()
    &&& v.exponent == ring
    &&& v.contents() == Map::<Seq<u8>, Seq<u8>>::empty()
    &&& v.durable() == Map::<Seq<u8>, Seq<u8>>::empty()
    &&& plain(v)
    &&& accounted(v)
    &&& v.head() == (SpineView {
        gen: 0,
        prev: block::zeros32(),
        ring,
        tract: v.tract.len,
        hamt: block::zeros32(),
        hamtat: 0,
        plow: 0,
        reap: Some(0u64),
        live: 0,
        time: now,
    })
}

/// A vault over a founding entry is newborn.
proof fn lemma_newborn(v: VaultView, ring: u8, now: i64)
    requires
        v.well(),
        v.exponent == ring,
        v.index == hamt::committed_index(block::zeros32(), 0),
        v.live == Map::<u64, Seq<u8>>::empty(),
        v.head() == (SpineView {
            gen: 0,
            prev: block::zeros32(),
            ring,
            tract: v.tract.len,
            hamt: block::zeros32(),
            hamtat: 0,
            plow: 0,
            reap: Some(0u64),
            live: 0,
            time: now,
        }),
    ensures
        newborn(v, ring, now),
{
    let t = v.ground();
    let c = v.index;
    assert(c.root is None);
    assert forall|k: Seq<u8>| #[trigger] c.path(t, k) == trie::absent(
        Set::<u64>::empty(),
        true,
        None,
    ) by {}
    assert(tract::ground(v.disk, v.tract.base as int, v.head().tract as nat) =~= t);
    assert(standing::book(t, c) =~= Map::<Seq<u8>, Seq<u8>>::empty());
    assert(v.index == standing::index_of(v.head()));
}

/// Reads the newest root entry of the device that decides.
fn first_root<A: BlockDev, B: BlockDev>(mirror: &mut Mirror<A, B>) -> (r: Result<
    Option<RootEntry>,
>)
    ensures
        final(mirror).first() == old(mirror).first(),
        final(mirror).second() == old(mirror).second(),
        final(mirror).first_reliable() == old(mirror).first_reliable(),
        final(mirror).second_reliable() == old(mirror).second_reliable(),
        final(mirror).is_degraded() == old(mirror).is_degraded(),
        match r {
            Ok(x) => root::is_newest_root(old(mirror).disk(), root_view(x)),
            Err(e) => block::device_error(e@) && !old(mirror).reliable(),
        },
{
    let (a, b) = mirror.devices();
    match (a, b) {
        (Some(a), _) => read_root(a),
        (None, Some(b)) => read_root(b),
        (None, None) => {
            assert forall|s: int| (#[trigger] root::root_at(old(mirror).disk(), s)) is None by {}
            Ok(None)
        },
    }
}

/// Whether either device holds a sealed block.
fn any_sealed<A: BlockDev, B: BlockDev>(mirror: &mut Mirror<A, B>) -> (r: Result<bool>)
    ensures
        final(mirror).first() == old(mirror).first(),
        final(mirror).second() == old(mirror).second(),
        final(mirror).first_reliable() == old(mirror).first_reliable(),
        final(mirror).second_reliable() == old(mirror).second_reliable(),
        final(mirror).is_degraded() == old(mirror).is_degraded(),
        r matches Ok(x) ==> x == (has_sealed(old(mirror).first()) || has_sealed(
            old(mirror).second(),
        )),
        r matches Err(e) ==> block::device_error(e@),
        (old(mirror).first() is Some ==> old(mirror).first_reliable()) && (old(mirror).second()
            is Some ==> old(mirror).second_reliable()) ==> r is Ok,
{
    let (a, b) = mirror.devices();
    let mut found = false;
    if let Some(a) = a {
        match any_sealed_block(a) {
            Ok(x) => {
                found = x;
            },
            Err(e) => return Err(e),
        }
    }
    if let Some(b) = b {
        match any_sealed_block(b) {
            Ok(x) => {
                found = found || x;
            },
            Err(e) => return Err(e),
        }
    }
    Ok(found)
}

/// Finds the spine of a migrating vault: at the root's residence, or at the one before where that
/// one is empty.
fn find_spine<A: BlockDev, B: BlockDev>(mirror: Mirror<A, B>, root: &RootEntry) -> (r: Result<
    Ring<A, B>,
>)
    requires
        root@.sane(),
    ensures
        match r {
            Ok(ring) => {
                &&& ring.wf()
                &&& ring.exponent() == root.ring_log2
                &&& ring.start() == root.at || ring.start() == root.was
                &&& ring.mir().carries_on(&mirror)
                &&& ring.mir().first() == mirror.first()
                &&& ring.mir().second() == mirror.second()
                &&& ring.top() is None ==> mooring::vacant(
                    mirror.disk(),
                    root.at as int,
                    root.ring_log2,
                ) && mooring::vacant(mirror.disk(), root.was as int, root.ring_log2)
                &&& ring.top() matches Some(top) ==> (ring.start() == root.at && mooring::lodged(
                    mirror.disk(),
                    root.at as int,
                    root.ring_log2,
                    Some(top),
                )) || (ring.start() == root.was && root.at != root.was && mooring::vacant(
                    mirror.disk(),
                    root.at as int,
                    root.ring_log2,
                ) && mooring::lodged(
                    mirror.disk(),
                    root.was as int,
                    root.ring_log2,
                    Some(top),
                ))
            },
            Err(e) => block::device_error(e@) && !(mirror.reliable() && root@.band()
                <= mirror.disk().len()),
        },
{
    proof {
        lemma_pow2_pos(root.ring_log2 as nat);
    }
    let ring = match Ring::open_at(mirror, root.ring_log2, root.at) {
        Ok(x) => x,
        Err(e) => return Err(e),
    };
    if ring.head().is_none() && root.was != root.at {
        let mirror = ring.into_mirror();
        return Ring::open_at(mirror, root.ring_log2, root.was);
    }
    Ok(ring)
}

/// A vault that was assembled from what the disk leads to, and then healed, was opened from it.
proof fn lemma_opened(
    disk: Seq<Seq<u8>>,
    v: VaultView,
    v1: VaultView,
    r: Option<RootView>,
    top: (u64, SpineView),
)
    requires
        v.disk == disk,
        v.well(),
        v.top == Some(top),
        v.root == r,
        mooring::leads_to(disk, v.exponent, v.tract.base as int, r, top),
        v.start == 0 || (r matches Some(x) && (v.start == x.at || v.start == x.was)),
        r is None ==> v.start == 0,
        r matches Some(x) ==> x.at != x.was || v.start == x.at,
        r matches Some(x) ==> (v.start == x.at && mooring::lodged(
            disk,
            x.at as int,
            x.ring,
            Some(top),
        )) || (x.at != x.was && mooring::vacant(disk, x.at as int, x.ring) && mooring::lodged(
            disk,
            x.was as int,
            x.ring,
            Some(top),
        )),
        restores(disk, v, top.1),
        v.tract.len == top.1.tract,
        survey_of(disk, v.tract.base as int, top.1, false) matches Ok(s) && v.live == keep::filled(
            Map::<u64, Seq<u8>>::empty(),
            s.live,
        ),
        load::suited(v.live, top.1.plow, top.1.tract, v.tract.plow, v.tract.reap),
        !wedged(v, fence_of(budgets(v))) ==> v1 == v,
        standing::tended(v, v1),
        mooring::moored(v) && v.sure ==> mooring::moored(v1),
    ensures
        opened(disk, v1),
        v.sure ==> stays_moored(disk, v1),
{
    assert(restores(disk, v1, top.1)) by {
        if keep::sound(ground_of(disk, v.tract.base as int, top.1), standing::index_of(top.1)) {
            assert(v.hale());
        }
    }
    if wedged(v, fence_of(budgets(v))) {
        if let Some(x) = r {
            assert(v.root is None);
        }
        assert(seats(disk, v, v1, r, top));
    }
    assert(opened_by(disk, v1, r, top));
    assert forall|w: VaultView| #[trigger] mooring::moored(w) && w.well() && w.disk == disk
        && v.sure implies mooring::moored(v1) by {
        mooring::lemma_led_home(w, v.exponent, v.tract.base as int, r, top);
        assert(mooring::moored(v));
    }
}

/// Whether a mirror holds what a vault left: its disk leads to the head, and the devices hold the
/// tract and do not fail.
pub open spec fn left_by<A: BlockDev, B: BlockDev>(mirror: &Mirror<A, B>, w: VaultView) -> bool {
    let h = w.head();
    let base = w.tract.base as int;
    &&& mooring::moored(w)
    &&& w.well()
    &&& w.disk == mirror.disk()
    &&& mirror.reliable()
    &&& 0 < h.tract <= w.tract.len
    &&& mirror.second() is Some ==> base + h.tract <= mirror.second()->0.len()
    &&& h.plow + h.tract <= u64::MAX
}

/// Whether a mirror holds what a vault left that must open again: the committed index is undamaged.
pub open spec fn openable<A: BlockDev, B: BlockDev>(mirror: &Mirror<A, B>, w: VaultView) -> bool {
    let h = w.head();
    let base = w.tract.base as int;
    &&& left_by(mirror, w)
    &&& keep::sound(ground_of(w.disk, base, h), standing::index_of(h))
}

/// Where an opening finds the spine that a disk leads to: a residence that holds no entry is passed
/// over.
pub open spec fn spine_at(w: VaultView) -> u64 {
    match w.root {
        None => 0,
        Some(r) => if mooring::vacant(w.disk, r.at as int, r.ring) {
            r.was
        } else {
            r.at
        },
    }
}

/// Whether a mirror holds what a vault left that must open with repair: what is damaged in the
/// committed index can be taken out, and there is room, for as many paths of nodes, to commit the
/// rest before the fence and before anything that the head leads to.
pub open spec fn repairable<A: BlockDev, B: BlockDev>(mirror: &Mirror<A, B>, w: VaultView) -> bool {
    let h = w.head();
    let base = w.tract.base as int;
    &&& left_by(mirror, w)
    &&& h.gen < u64::MAX
    &&& w.root matches Some(x) ==> x.gen < u64::MAX
    &&& survey_of(w.disk, base, h, true) matches Ok(s) && {
        let n = 52 * load::snips_of(s).len();
        &&& load::trimmable(ground_of(w.disk, base, h), standing::index_of(h), s)
        &&& n == 0 || (load::clear_for(s, h.plow as int, h.tract as int, n as int)
            && h.plow + n >= h.tract && (fence_of(
            budgets(VaultView { start: spine_at(w), ..w }),
        ) matches Some(f) ==> h.plow + n <= f))
    }
}

/// Whether a mirror leads to a head at block 0 that commits to more blocks than a device has.
pub open spec fn truncated<A: BlockDev, B: BlockDev>(
    mirror: &Mirror<A, B>,
    ring: u8,
    top: (u64, SpineView),
) -> bool {
    &&& mirror.reliable()
    &&& root::is_newest_root(mirror.disk(), None)
    &&& ring::boots(mirror.disk(), ring)
    &&& mooring::storied(mirror.disk(), ring)
    &&& mooring::lodged(mirror.disk(), 0, ring, Some(top))
    &&& pow2(ring as nat) <= mirror.disk().len()
    &&& 0 < top.1.tract
    &&& 16 <= mirror.count() || mirror.count() == mirror.disk().len()
    &&& mirror.count() < pow2(ring as nat) + top.1.tract
}

impl<A: BlockDev, B: BlockDev> Vault<A, B> {
    /// Resumes a migrating vault.
    fn resume_migrating(mirror: Mirror<A, B>, root: RootEntry) -> (r: Result<Self>)
        requires
            root::is_newest_root(mirror.disk(), Some(root@)),
            mirror.has_device(),
        ensures
            r matches Ok(v) ==> v@.well() && v@.sure == mirror.reliable() && v@.root is Some
                && opened(mirror.disk(), v@) && (mirror.reliable() ==> stays_moored(
                mirror.disk(),
                v@,
            )),
            forall|w: VaultView| #[trigger] openable(&mirror, w) ==> r is Ok,
    {
        proof {
            assert forall|w: VaultView| #[trigger] openable(&mirror, w) implies w.root == Some(
                root@,
            ) && mooring::tidy(root@) && root@.band() == w.tract.base by {
                mooring::lemma_one_root(mirror.disk(), Some(root@), w.root);
            }
        }
        if !root.is_sane() {
            return Err(corrupt_err("root entry names residences out of range"));
        }
        let ring = match find_spine(mirror, &root) {
            Ok(x) => x,
            Err(e) => return Err(e),
        };
        let n: u64 = slot_count(root.ring_log2);
        let tract_base: u64 = ROOT_SLOTS + root.residences * n;
        proof {
            assert forall|w: VaultView| #[trigger] openable(&mirror, w) implies ring.top()
                == w.top by {
                mooring::lemma_found_again(
                    w,
                    root@,
                    ring.start(),
                    ring.top(),
                );
            }
        }
        let (mut v, _report) = match Self::assemble(ring, tract_base, Some(root), false) {
            Ok(x) => x,
            Err(e) => return Err(e),
        };
        let ghost v0 = v@;
        v.unwedge();
        proof {
            lemma_opened(mirror.disk(), v0, v@, Some(root@), v0.top->0);
        }
        Ok(v)
    }

    /// Resumes a vault whose spine is at block 0.
    fn resume(mirror: Mirror<A, B>, ring_log2: u8) -> (r: Result<Self>)
        requires
            root::is_newest_root(mirror.disk(), None),
            ring::boots(mirror.disk(), ring_log2),
            mirror.has_device(),
        ensures
            r matches Ok(v) ==> v@.well() && v@.sure == mirror.reliable() && opened(
                mirror.disk(),
                v@,
            ) && (mirror.reliable() ==> stays_moored(mirror.disk(), v@)),
            forall|w: VaultView| #[trigger] openable(&mirror, w) ==> r is Ok,
            forall|x: u8, top: (u64, SpineView)| #[trigger]
                truncated(&mirror, x, top) ==> (r matches Err(e) && e@ is Corrupt),
    {
        proof {
            assert forall|x: u8, top: (u64, SpineView)| #[trigger]
                truncated(&mirror, x, top) implies x == ring_log2 by {
                mooring::lemma_one_boot(mirror.disk(), ring_log2, x);
            }
            assert forall|w: VaultView| #[trigger] openable(&mirror, w) implies w.root is None
                && w.exponent == ring_log2 && w.tract.base == pow2(ring_log2 as nat) by {
                mooring::lemma_one_root(mirror.disk(), None, w.root);
                mooring::lemma_one_boot(mirror.disk(), ring_log2, w.exponent);
            }
            lemma_boots(mirror.disk(), ring_log2);
            lemma_pow2_pos(ring_log2 as nat);
        }
        let ring = match Ring::open(mirror, ring_log2) {
            Ok(x) => x,
            Err(e) => return Err(e),
        };
        let ghost top = ring.top();
        proof {
            assert forall|w: VaultView| #[trigger] openable(&mirror, w) implies top == w.top by {
                mooring::lemma_found_fixed(w, top);
            }
            assert forall|x: u8, t: (u64, SpineView)| #[trigger]
                truncated(&mirror, x, t) implies top == Some(t) by {
                assert(ring::class_at(mirror.disk(), 0, x, t.0 as int) is Valid);
                mooring::lemma_one_newest(mirror.disk(), 0, x, top, Some(t));
            }
        }
        let n: u64 = slot_count(ring_log2);
        let (mut v, _report) = match Self::assemble(ring, n, None, false) {
            Ok(x) => x,
            Err(e) => return Err(e),
        };
        let ghost v0 = v@;
        v.unwedge();
        proof {
            lemma_fixed_leads(mirror.disk(), ring_log2, top);
            lemma_opened(mirror.disk(), v0, v@, None, v0.top->0);
        }
        Ok(v)
    }
}

/// A disk that boots names a sane exponent.
proof fn lemma_boots(disk: Seq<Seq<u8>>, ring: u8)
    requires
        ring::boots(disk, ring),
    ensures
        0 < ring <= 32,
{
    let s = choose|s: int| #[trigger] ring::boots_at(disk, s, ring);
    spine::lemma_spine_ring(disk[s]);
}

/// What opening a ring at block 0 finds is what the disk leads to.
proof fn lemma_fixed_leads(disk: Seq<Seq<u8>>, ring: u8, top: Option<(u64, SpineView)>)
    requires
        root::is_newest_root(disk, None),
        ring::boots(disk, ring),
        top matches Some((s, e)) && s < pow2(ring as nat) && ring::class_at(
            disk,
            0,
            ring,
            s as int,
        ) == spine::ClassView::Valid(e),
        mooring::storied(disk, ring) ==> ring::is_newest(
            disk,
            0,
            ring,
            0,
            pow2(ring as nat) - 1,
            top,
        ),
    ensures
        mooring::leads_to(disk, ring, pow2(ring as nat) as int, None, top->0),
{
}

/// Whether a vault can be founded on a mirror, with its tract at `n`: no device holds a sealed block
/// or fails, and each is longer than that.
pub open spec fn foundable<A: BlockDev, B: BlockDev>(mirror: &Mirror<A, B>, n: int) -> bool {
    &&& mirror.has_device()
    &&& !has_sealed(mirror.first())
    &&& !has_sealed(mirror.second())
    &&& mirror.first() matches Some(d) ==> mirror.first_reliable() && n < d.len()
    &&& mirror.second() matches Some(d) ==> mirror.second_reliable() && n < d.len()
}

/// Whether no device of a mirror holds a sealed block or fails.
pub open spec fn barren<A: BlockDev, B: BlockDev>(mirror: &Mirror<A, B>) -> bool {
    &&& mirror.has_device()
    &&& !has_sealed(mirror.first())
    &&& !has_sealed(mirror.second())
    &&& mirror.first() is Some ==> mirror.first_reliable()
    &&& mirror.second() is Some ==> mirror.second_reliable()
}

/// Whether a mirror holds a vault that cannot be opened and must not be formatted: no root entry, no
/// entry in the low slots, but a sealed block.
pub open spec fn refuses<A: BlockDev, B: BlockDev>(mirror: &Mirror<A, B>) -> bool {
    &&& root::is_newest_root(mirror.disk(), None)
    &&& mooring::boots_not(mirror.disk())
    &&& has_sealed(mirror.first()) || has_sealed(mirror.second())
    &&& mirror.first() is Some ==> mirror.first_reliable()
    &&& mirror.second() is Some ==> mirror.second_reliable()
}

/// Where a vault can be founded nothing else opens.
proof fn lemma_what_opens<A: BlockDev, B: BlockDev>(mirror: &Mirror<A, B>)
    ensures
        !has_sealed(mirror.first()) && !has_sealed(mirror.second()) ==> root::is_newest_root(
            mirror.disk(),
            None,
        ) && mooring::boots_not(mirror.disk()),
{
    if !has_sealed(mirror.first()) && !has_sealed(mirror.second()) {
        mooring::lemma_blank(mirror.disk());
    }
}

/// What founding a vault on devices of `count` blocks came to: the tract is all but the ring.
pub open spec fn founded(v: VaultView, ring: u8, count: nat, now: i64) -> bool {
    &&& newborn(v, ring, now)
    &&& v.tract.len == count - pow2(ring as nat)
    &&& 2 <= ring <= 32 ==> mooring::moored(v)
}

/// A ring without entries has no newest one.
proof fn lemma_cleared_top(
    d0: Seq<Seq<u8>>,
    d1: Seq<Seq<u8>>,
    base: int,
    ring: u8,
    top: Option<(u64, SpineView)>,
)
    requires
        ring::cleared(d0, d1, base, base + pow2(ring as nat)),
        0 <= base,
        top matches Some((s, e)) ==> s < pow2(ring as nat) && ring::class_at(
            d1,
            base,
            ring,
            s as int,
        ) == spine::ClassView::Valid(e),
    ensures
        top is None,
        ring::barren(d1, base, ring, 0, pow2(ring as nat) - 1),
{
    assert forall|s: int| 0 <= s <= pow2(ring as nat) - 1 implies !((#[trigger] ring::class_at(
        d1,
        base,
        ring,
        s,
    )) is Valid) by {
        assert(d1[base + s] == block::zeros());
    }
}

impl<A: BlockDev, B: BlockDev> Vault<A, B> {
    /// Founds a vault: clears the ring and appends generation 0.
    fn genesis(mirror: Mirror<A, B>, ring_log2: u8, now: i64) -> (r: Result<Self>)
        requires
            ring_log2 < 64,
            mirror.has_device(),
        ensures
            match r {
                Ok(v) => founded(v@, ring_log2, mirror.count(), now) && v@.sure == mirror.reliable()
                    && v@.root is None,
                Err(e) => block::device_error(e@) && !(mirror.reliable() && pow2(
                    ring_log2 as nat,
                ) < mirror.disk().len() && (mirror.second() is Some ==> pow2(ring_log2 as nat)
                    < mirror.second()->0.len())),
            },
    {
        let mut mirror = mirror;
        let ghost d0 = mirror.disk();
        let n: u64 = slot_count(ring_log2);
        let total: u64 = mirror.block_count();
        if total <= n {
            return Err(corrupt_num2("device too small: ", total, " blocks \u{2264} ring ", n, ""));
        }
        match zero_ring(&mut mirror, ring_log2) {
            Ok(()) => {},
            Err(e) => return Err(e),
        }
        let ghost d1 = mirror.disk();
        let mut ring = match Ring::open(mirror, ring_log2) {
            Ok(x) => x,
            Err(e) => return Err(e),
        };
        proof {
            lemma_cleared_top(d0, d1, 0, ring_log2, ring.top());
            lemma_pow2_pos(ring_log2 as nat);
            vstd::arithmetic::div_mod::lemma_small_mod(0, pow2(ring_log2 as nat));
        }
        let tract_blocks: u64 = total - n;
        let entry = SpineEntry {
            gen: 0,
            prev_hash: zero32(),
            ring_log2,
            tract_blocks,
            hamt_hash: zero32(),
            hamt_lba: 0,
            plow: 0,
            reap: Some(0),
            live: 0,
            eagle_time: now,
        };
        match ring.append(&entry) {
            Ok(()) => {},
            Err(e) => return Err(e),
        }
        let v = Vault {
            ring,
            tract: Tract {
                base: n,
                len: tract_blocks,
                plow: 0,
                reap: 0,
                fence_limit: Some(tract_blocks),
            },
            hamt: Hamt::empty(),
            live: LiveSet::default(),
            root: None,
            shield: tract_blocks,
            fence: None,
        };
        proof {
            lemma_newborn(v@, ring_log2, now);
            if 2 <= ring_log2 <= 32 {
                mooring::lemma_founded_fixed(v@, d0, d1, entry@);
            }
        }
        Ok(v)
    }

    /// Opens an existing vault or founds one on a fresh device. The ring exponent given sizes a
    /// foundation only: an existing vault's geometry comes from its head.
    pub fn open(mirror: Mirror<A, B>, ring_log2: u8, now: i64) -> (r: Result<Self>)
        requires
            ring_log2 < 64,
            mirror.has_device(),
        ensures
            r matches Ok(v) ==> {
                &&& v@.well()
                &&& v@.sure == mirror.reliable()
                &&& opened(mirror.disk(), v@) && (mirror.reliable() ==> stays_moored(
                    mirror.disk(),
                    v@,
                )) || (founded(v@, ring_log2, mirror.count(), now) && !has_sealed(mirror.first())
                    && !has_sealed(mirror.second()))
            },
            forall|w: VaultView| #[trigger] openable(&mirror, w) ==> r is Ok,
            foundable(&mirror, pow2(ring_log2 as nat) as int) ==> (r matches Ok(v) && founded(
                v@,
                ring_log2,
                mirror.count(),
                now,
            )),
            refuses(&mirror) ==> (r matches Err(e) && e@ == error::corrupt(
                "sealed blocks exist but no spine bootstraps: real vault needing recovery \u{2014} refusing to format",
            )),
            forall|x: u8, top: (u64, SpineView)| #[trigger]
                truncated(&mirror, x, top) ==> (r matches Err(e) && e@ is Corrupt),
    {
        let ghost m0 = mirror;
        let mut mirror = mirror;
        proof {
            lemma_what_opens(&m0);
        }
        let root = match first_root(&mut mirror) {
            Ok(x) => x,
            Err(e) => return Err(e),
        };
        let ghost m1 = mirror;
        proof {
            assert forall|w: VaultView| #[trigger] openable(&m0, w) implies openable(
                &m1,
                w,
            ) by {}
        }
        if let Some(root) = root {
            proof {
                if root::is_newest_root(m0.disk(), None) {
                    mooring::lemma_one_root(m0.disk(), Some(root@), None);
                }
            }
            return Self::resume_migrating(mirror, root);
        }
        let booted = match Ring::bootstrap_n(&mut mirror) {
            Ok(x) => x,
            Err(e) => return Err(e),
        };
        let ghost m2 = mirror;
        proof {
            assert forall|w: VaultView| #[trigger] openable(&m0, w) implies openable(
                &m2,
                w,
            ) && booted is Some by {
                if booted is None {
                    mooring::lemma_one_root(m0.disk(), None, w.root);
                    let s = mooring::lemma_low_slot(w);
                    assert(!(spine::boot_class(m0.disk()[s], s as u64) is Valid));
                }
            }
            assert forall|x: u8, top: (u64, SpineView)| #[trigger]
                truncated(&m0, x, top) implies truncated(&m2, x, top) && booted is Some by {
                mooring::lemma_boots_or_not(m0.disk(), x);
                if booted is None {
                    assert(mooring::boots_not(m0.disk()));
                }
            }
            if let Some(x) = booted {
                mooring::lemma_boots_or_not(m0.disk(), x);
            }
        }
        match booted {
            Some(r) => Self::resume(mirror, r),
            None => {
                // Trash or real is decided by the whole device, both sides: a valid block is its own
                // proof.
                let found = match any_sealed(&mut mirror) {
                    Ok(x) => x,
                    Err(e) => return Err(e),
                };
                if found {
                    return Err(
                        corrupt_err(
                            "sealed blocks exist but no spine bootstraps: real vault needing recovery \u{2014} refusing to format",
                        ),
                    );
                }
                Self::genesis(mirror, ring_log2, now)
            },
        }
    }
}

/// What repairing a damaged vault came to: what the disk leads to was walked, its lists are the
/// report, and the index without those pointers is committed. Every key whose path was sound
/// answers what it answered.
pub open spec fn repaired_by(
    disk: Seq<Seq<u8>>,
    v: VaultView,
    report: RepairReport,
    r: Option<RootView>,
    top: (u64, SpineView),
) -> bool {
    &&& mooring::leads_to(disk, v.exponent, v.tract.base as int, r, top)
    &&& survey_of(disk, v.tract.base as int, top.1, true) matches Ok(s)
        && survey::stale_view(report.stale@) == s.stale && survey::dangling_view(
        report.dangling@,
    ) == s.dangling
    &&& repaired(disk, v, top.1)
    &&& top.1.gen < v.head().gen
    &&& undamaged_sizes(
        ground_of(disk, v.tract.base as int, top.1),
        standing::index_of(top.1),
    ) ==> v.hale() && v.durable() == v.contents()
}

/// Whether the report of a repair is true.
pub open spec fn salvages(disk: Seq<Seq<u8>>, v: VaultView, report: RepairReport) -> bool {
    exists|r: Option<RootView>, top: (u64, SpineView)| #[trigger]
        repaired_by(disk, v, report, r, top)
}

/// A repaired vault, committed and healed, is still the repaired one.
proof fn lemma_repaired(
    disk: Seq<Seq<u8>>,
    v0: VaultView,
    v1: VaultView,
    report: RepairReport,
    r: Option<RootView>,
    top: (u64, SpineView),
)
    requires
        mooring::leads_to(disk, v0.exponent, v0.tract.base as int, r, top),
        survey_of(disk, v0.tract.base as int, top.1, true) matches Ok(s)
            && survey::stale_view(report.stale@) == s.stale && survey::dangling_view(
            report.dangling@,
        ) == s.dangling,
        repaired(disk, v0, top.1),
        v0.top == Some(top),
        v0.head().gen < v1.head().gen,
        standing::kept(v0, v1),
        v0.good() ==> v1.hale() && v1.contents() == v0.contents() && v1.durable() == v0.contents(),
    ensures
        salvages(disk, v1, report),
{
    assert(repaired(disk, v1, top.1));
    assert(repaired_by(disk, v1, report, r, top));
}

impl<A: BlockDev, B: BlockDev> Vault<A, B> {
    /// Commits a repaired index, and heals the vault.
    fn finish_repair(self, now: i64) -> (r: Result<Self>)
        requires
            self@.well(),
        ensures
            r matches Ok(v) ==> v@.well() && standing::kept(self@, v@) && self@.head().gen
                < v@.head().gen && (self@.good()
                ==> v@.hale() && v@.contents() == self@.contents() && v@.durable()
                == self@.contents()),
            roomy(self@) ==> r is Ok || (r matches Err(e) && e@ == no_root_hash()),
            r matches Ok(v) ==> mooring::moored(self@) && self@.sure ==> mooring::moored(v@),
    {
        let mut v = self;
        match v.commit(now) {
            Ok(()) => {},
            Err(e) => return Err(e),
        }
        v.unwedge();
        Ok(v)
    }

    /// Opens with repair: walks the committed index tolerantly, takes out every pointer whose target
    /// is zeroed, reused or corrupt, commits the index without them, and reports exactly what was
    /// dropped. Never the default: an ordinary opening refuses damage.
    pub fn open_repairing(mirror: Mirror<A, B>, ring_log2: u8, now: i64) -> (r: Result<
        (Self, RepairReport),
    >)
        requires
            mirror.has_device(),
        ensures
            r matches Ok((v, report)) ==> v@.well() && salvages(mirror.disk(), v@, report),
            root::is_newest_root(mirror.disk(), None) && mooring::boots_not(mirror.disk())
                && mirror.reliable() ==> (r matches Err(e) && e@ == error::corrupt(
                "nothing bootstraps: not a vault (repair needs an existing spine)",
            )),
            forall|w: VaultView| #[trigger]
                repairable(&mirror, w) ==> (r matches Ok((v, _)) && mooring::moored(v@)) || (
                r matches Err(e) && e@ == no_root_hash()),
    {
        let ghost m0 = mirror;
        let mut mirror = mirror;
        let root = match first_root(&mut mirror) {
            Ok(x) => x,
            Err(e) => return Err(e),
        };
        if let Some(root) = root {
            proof {
                if root::is_newest_root(m0.disk(), None) {
                    mooring::lemma_one_root(m0.disk(), Some(root@), None);
                }
                assert forall|w: VaultView| #[trigger] repairable(&m0, w) implies w.root == Some(
                    root@,
                ) && mooring::tidy(root@) && root@.band() == w.tract.base by {
                    mooring::lemma_one_root(m0.disk(), Some(root@), w.root);
                }
            }
            if !root.is_sane() {
                return Err(corrupt_err("root entry names residences out of range"));
            }
            let ring = match find_spine(mirror, &root) {
                Ok(x) => x,
                Err(e) => return Err(e),
            };
            let n: u64 = slot_count(root.ring_log2);
            let tract_base: u64 = ROOT_SLOTS + root.residences * n;
            proof {
                assert forall|w: VaultView| #[trigger] repairable(&m0, w) implies repairable(
                    &ring.mir(),
                    w,
                ) && ring.top() == w.top && ring.start() == spine_at(w) by {
                    mooring::lemma_found_again(w, root@, ring.start(), ring.top());
                    if mooring::lodged(m0.disk(), root.at as int, root.ring_log2, ring.top()) {
                        mooring::lemma_not_vacant(
                            m0.disk(),
                            root.at as int,
                            root.ring_log2,
                            ring.top(),
                        );
                    }
                }
            }
            return Self::repair_from(ring, tract_base, Some(root), now);
        }
        let booted = match Ring::bootstrap_n(&mut mirror) {
            Ok(x) => x,
            Err(e) => return Err(e),
        };
        let ghost m2 = mirror;
        proof {
            assert forall|w: VaultView| #[trigger] repairable(&m0, w) implies repairable(&m2, w)
                && booted is Some && w.root is None && w.exponent == booted->0 && w.tract.base
                == pow2(w.exponent as nat) by {
                mooring::lemma_one_root(m0.disk(), None, w.root);
                if booted is None {
                    let s = mooring::lemma_low_slot(w);
                    assert(!(spine::boot_class(m0.disk()[s], s as u64) is Valid));
                } else {
                    mooring::lemma_one_boot(m0.disk(), booted->0, w.exponent);
                }
            }
        }
        match booted {
            None => Err(
                corrupt_err("nothing bootstraps: not a vault (repair needs an existing spine)"),
            ),
            Some(r) => {
                proof {
                    lemma_boots(m0.disk(), r);
                    mooring::lemma_boots_or_not(m0.disk(), r);
                    lemma_pow2_pos(r as nat);
                }
                let ring = match Ring::open(mirror, r) {
                    Ok(x) => x,
                    Err(e) => return Err(e),
                };
                proof {
                    if ring.top() is Some {
                        lemma_fixed_leads(m0.disk(), r, ring.top());
                    }
                    assert forall|w: VaultView| #[trigger] repairable(&m0, w) implies repairable(
                        &ring.mir(),
                        w,
                    ) && ring.top() == w.top by {
                        mooring::lemma_found_fixed(w, ring.top());
                    }
                }
                let n: u64 = slot_count(r);
                Self::repair_from(ring, n, None, now)
            },
        }
    }

    /// Repairs the vault whose ring this is.
    fn repair_from(ring: Ring<A, B>, tract_base: u64, root: Option<RootEntry>, now: i64) -> (r:
        Result<(Self, RepairReport)>)
        requires
            ring.wf(),
            ring.start() + ring.slots() <= tract_base,
            ring.mir().has_device(),
            root matches Some(x) ==> x@.sane() && x@.ring == ring.exponent() && x@.band()
                == tract_base && 4 <= ring.start(),
            ring.top() matches Some(top) ==> mooring::leads_to(
                ring.disk(),
                ring.exponent(),
                tract_base as int,
                root_view(root),
                top,
            ),
        ensures
            r matches Ok((v, report)) ==> v@.well() && salvages(ring.disk(), v@, report),
            forall|w: VaultView| #[trigger]
                repairable(&ring.mir(), w) && w.top == ring.top() && spine_at(w) == ring.start()
                    && w.exponent == ring.exponent() && w.tract.base == tract_base && w.root
                    == root_view(root) ==> (r matches Ok((v, _)) && mooring::moored(v@)) || (
                r matches Err(e) && e@ == no_root_hash()),
    {
        let ghost disk = ring.disk();
        let ghost top = ring.top();
        let (v, report) = match Self::assemble(ring, tract_base, root, true) {
            Ok(x) => x,
            Err(e) => return Err(e),
        };
        let ghost v0 = v@;
        proof {
            assert forall|w: VaultView| #[trigger]
                repairable(&ring.mir(), w) && w.top == ring.top() && spine_at(w) == ring.start()
                    && w.exponent == ring.exponent() && w.tract.base == tract_base && w.root
                    == root_view(root) implies roomy(v0) && mooring::moored(v0) by {
                let h = w.head();
                let s = survey_of(w.disk, tract_base as int, h, true)->Ok_0;
                let n = 52 * load::snips_of(s).len();
                assert(budgets(v0) =~= budgets(VaultView { start: spine_at(w), ..w }));
                if v0.index.dirt() > 0 {
                    assert(n > 0);
                    assert(load::clear_for(s, h.plow as int, h.tract as int, n as int));
                }
            }
        }
        let done = v.finish_repair(now);
        let v = match done {
            Ok(x) => x,
            Err(e) => return Err(e),
        };
        proof {
            lemma_repaired(disk, v0, v@, report, root_view(root), top->0);
        }
        Ok((v, report))
    }
}

/// Whether the four root slots are cleared.
pub open spec fn slots_cleared(d0: Seq<Seq<u8>>, d1: Seq<Seq<u8>>, n: int) -> bool {
    &&& d1.len() == d0.len()
    &&& forall|i: int|
        0 <= i < d0.len() ==> #[trigger] d1[i] == (if i < n {
            block::zeros()
        } else {
            d0[i]
        })
}

impl<A: BlockDev, B: BlockDev> Vault<A, B> {
    /// Founds a migrating vault: clears the root slots and the first residence, writes the root entry
    /// that names it, and appends generation 0.
    #[verifier::rlimit(40)]
    fn found_migrating(
        mirror: Mirror<A, B>,
        ring_log2: u8,
        residences: u64,
        residency: u64,
        now: i64,
    ) -> (r: Result<Self>)
        requires
            ring_log2 < 64,
            mirror.has_device(),
            residences >= 2,
            residency > 0,
        ensures
            match r {
                Ok(v) => founded_band(
                    v@,
                    ring_log2,
                    residences,
                    residency,
                    mirror.count(),
                    now,
                ) && v@.sure == mirror.reliable(),
                Err(e) => block::device_error(e@) && (mirror.count() <= 4 + residences * pow2(
                    ring_log2 as nat,
                ) ==> e@ is Corrupt) && !(0 < ring_log2 <= 32 && mirror.reliable()
                    && 4 + residences * pow2(ring_log2 as nat) < mirror.disk().len() && (
                mirror.second() is Some ==> 4 + residences * pow2(ring_log2 as nat)
                    < mirror.second()->0.len())),
            },
    {
        let mut m = mirror;
        let ghost d0 = m.disk();
        if ring_log2 == 0 || ring_log2 > 32 {
            return Err(corrupt_err("ring exponent out of range"));
        }
        let n: u64 = slot_count(ring_log2);
        let total: u64 = m.block_count();
        let tract_base: u64 = match residences.checked_mul(n) {
            Some(x) => x.saturating_add(ROOT_SLOTS),
            None => u64::MAX,
        };
        if total <= tract_base {
            return Err(
                corrupt_num2(
                    "device too small: ",
                    total,
                    " blocks \u{2264} root + band ",
                    tract_base,
                    "",
                ),
            );
        }
        assert(2 * n <= residences * n) by (nonlinear_arith)
            requires
                residences >= 2,
                n > 0,
        ;
        let ghost m0 = m;
        let z = zero_block();
        let mut slot: u64 = 0;
        while slot < ROOT_SLOTS
            invariant
                slot <= ROOT_SLOTS,
                z@ == block::zeros(),
                ROOT_SLOTS < d0.len(),
                d0 == m0.disk(),
                slots_cleared(d0, m.disk(), slot as int),
                m.carries_on(&m0),
                m0.has_device(),
                m0 == mirror,
                4 + residences * pow2(ring_log2 as nat) < m0.count(),
            decreases ROOT_SLOTS - slot,
        {
            assert(m.reliable() == m0.reliable());
            match m.write_verified(slot, &z) {
                Ok(()) => {},
                Err(e) => return Err(e),
            }
            slot = slot + 1;
        }
        let ghost d1 = m.disk();
        let ghost m1 = m;
        assert(m1.reliable() == m0.reliable());
        match zero_ring_at(&mut m, ring_log2, ROOT_SLOTS) {
            Ok(()) => {},
            Err(e) => return Err(e),
        }
        let ghost d2 = m.disk();
        let root = RootEntry {
            gen: 0,
            prev_hash: zero32(),
            ring_log2,
            at: ROOT_SLOTS,
            was: ROOT_SLOTS,
            since: 0,
            residences,
            residency,
            eagle_time: now,
        };
        match append_root(&mut m, &root) {
            Ok(()) => {},
            Err(e) => return Err(e),
        }
        let ghost d3 = m.disk();
        let mut ring = match Ring::open_at(m, ring_log2, ROOT_SLOTS) {
            Ok(x) => x,
            Err(e) => return Err(e),
        };
        proof {
            lemma_pow2_pos(ring_log2 as nat);
            vstd::arithmetic::div_mod::lemma_small_mod(0, pow2(ring_log2 as nat));
            assert(ring.top() is None) by {
                if let Some((s, e)) = ring.top() {
                    assert(d3[4 + s as int] == block::zeros());
                    assert(ring::class_at(d3, 4, ring_log2, s as int) is Empty);
                }
            }
        }
        let tract_blocks: u64 = total - tract_base;
        let entry = SpineEntry {
            gen: 0,
            prev_hash: zero32(),
            ring_log2,
            tract_blocks,
            hamt_hash: zero32(),
            hamt_lba: 0,
            plow: 0,
            reap: Some(0),
            live: 0,
            eagle_time: now,
        };
        match ring.append(&entry) {
            Ok(()) => {},
            Err(e) => return Err(e),
        }
        let v = Vault {
            ring,
            tract: Tract {
                base: tract_base,
                len: tract_blocks,
                plow: 0,
                reap: 0,
                fence_limit: Some(tract_blocks),
            },
            hamt: Hamt::empty(),
            live: LiveSet::default(),
            root: Some(root),
            shield: tract_blocks,
            fence: None,
        };
        proof {
            vstd::arithmetic::div_mod::lemma_small_mod(0, pow2(ring_log2 as nat));
            assert((root.at - 4) % (pow2(ring_log2 as nat) as int) == 0);
            assert(root@.sane());
            lemma_newborn(v@, ring_log2, now);
            assert forall|i: int| 0 <= i < 4 + v@.slots() implies #[trigger] d2[i]
                == block::zeros() by {}
            mooring::lemma_founded_band(v@, d2, root@, entry@);
        }
        Ok(v)
    }

    /// Opens an existing vault or founds a migrating one: root slots at block 0, a band of
    /// `residences` residences of the spine after them, and the tract beyond. The spine hops to the
    /// next residence every `residency` rotations. An existing vault's layout describes itself.
    pub fn open_migrating(
        mirror: Mirror<A, B>,
        ring_log2: u8,
        residences: u64,
        residency: u64,
        now: i64,
    ) -> (r: Result<Self>)
        requires
            ring_log2 < 64,
            mirror.has_device(),
        ensures
            r matches Ok(v) ==> {
                &&& v@.well()
                &&& v@.sure == mirror.reliable()
                &&& v@.root is Some
                &&& opened(mirror.disk(), v@) && (mirror.reliable() ==> stays_moored(
                    mirror.disk(),
                    v@,
                )) || (founded_band(
                    v@,
                    ring_log2,
                    residences,
                    residency,
                    mirror.count(),
                    now,
                ) && !has_sealed(mirror.first()) && !has_sealed(mirror.second()))
            },
            forall|w: VaultView| #[trigger] openable(&mirror, w) && w.root is Some ==> r is Ok,
            forall|w: VaultView| #[trigger] openable(&mirror, w) && w.root is None ==> (r matches Err(
                e,
            ) && e@ == error::corrupt(
                "legacy fixed-ring vault: cannot adopt the migrating layout in place",
            )),
            foundable(&mirror, 4 + residences * pow2(ring_log2 as nat)) && residences >= 2
                && residency > 0 && 0 < ring_log2 <= 32 ==> (r matches Ok(v) && founded_band(
                v@,
                ring_log2,
                residences,
                residency,
                mirror.count(),
                now,
            )),
            root::is_newest_root(mirror.disk(), None) && mirror.reliable() && (mirror.count() >= 16
                || mirror.count() == mirror.disk().len())
                && (exists|x: u8|
                ring::boots(mirror.disk(), x)) ==> (r matches Err(e) && e@ == error::corrupt(
                "legacy fixed-ring vault: cannot adopt the migrating layout in place",
            )),
            barren(&mirror) && mirror.count() <= 4 + residences * pow2(ring_log2 as nat) ==> (
            r matches Err(e) && e@ is Corrupt),
            refuses(&mirror) ==> (r matches Err(e) && e@ == error::corrupt(
                "sealed blocks exist but nothing bootstraps: real vault needing recovery \u{2014} refusing to format",
            )),
            barren(&mirror) && (residences < 2 || residency == 0) ==> (r matches Err(e) && e@
                == error::corrupt("migrating layout needs \u{2265}2 residences and residency \u{2265}1")),
    {
        let ghost m0 = mirror;
        let mut mirror = mirror;
        proof {
            lemma_what_opens(&m0);
        }
        let root = match first_root(&mut mirror) {
            Ok(x) => x,
            Err(e) => return Err(e),
        };
        let ghost m1 = mirror;
        proof {
            assert forall|w: VaultView| #[trigger] openable(&m0, w) implies openable(
                &m1,
                w,
            ) && (w.root is Some == root is Some) by {
                mooring::lemma_one_root(m0.disk(), root_view(root), w.root);
            }
        }
        if let Some(root) = root {
            proof {
                if root::is_newest_root(m0.disk(), None) {
                    mooring::lemma_one_root(m0.disk(), Some(root@), None);
                }
            }
            return Self::resume_migrating(mirror, root);
        }
        let booted = match Ring::bootstrap_n(&mut mirror) {
            Ok(x) => x,
            Err(e) => return Err(e),
        };
        proof {
            assert forall|w: VaultView| #[trigger] openable(&m0, w) implies booted is Some by {
                if booted is None {
                    mooring::lemma_one_root(m0.disk(), None, w.root);
                    let s = mooring::lemma_low_slot(w);
                    assert(!(spine::boot_class(m0.disk()[s], s as u64) is Valid));
                }
            }
            if (m0.count() >= 16 || m0.count() == m0.disk().len()) && booted is None {
                assert(mooring::boots_not(m0.disk()));
            }
            if exists|x: u8| ring::boots(m0.disk(), x) {
                let x = choose|x: u8| ring::boots(m0.disk(), x);
                mooring::lemma_boots_or_not(m0.disk(), x);
            }
            if let Some(x) = booted {
                mooring::lemma_boots_or_not(m0.disk(), x);
            }
        }
        if booted.is_some() {
            return Err(
                corrupt_err("legacy fixed-ring vault: cannot adopt the migrating layout in place"),
            );
        }
        let found = match any_sealed(&mut mirror) {
            Ok(x) => x,
            Err(e) => return Err(e),
        };
        if found {
            return Err(
                corrupt_err(
                    "sealed blocks exist but nothing bootstraps: real vault needing recovery \u{2014} refusing to format",
                ),
            );
        }
        if residences < 2 || residency == 0 {
            return Err(
                corrupt_err("migrating layout needs \u{2265}2 residences and residency \u{2265}1"),
            );
        }
        Self::found_migrating(mirror, ring_log2, residences, residency, now)
    }
}

/// What founding a migrating vault on devices of `count` blocks came to: the tract is all but the root
/// slots and the band.
pub open spec fn founded_band(
    v: VaultView,
    ring: u8,
    residences: u64,
    residency: u64,
    count: nat,
    now: i64,
) -> bool {
    &&& newborn(v, ring, now)
    &&& v.tract.len == count - 4 - residences * pow2(ring as nat)
    &&& mooring::moored(v)
    &&& v.root == Some(
        RootView {
            gen: 0,
            prev: block::zeros32(),
            ring,
            at: 4,
            was: 4,
            since: 0,
            residences,
            residency,
            time: now,
        },
    )
}

}
