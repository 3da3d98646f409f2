//! The ring: generation-numbered commit objects, binary-searched for their head.
//!
//! Generation g lives at slot `g mod N` of the ring's region. The newest entry is found by bisecting
//! on the rotated maximum; a corrupt slot is ambiguous, so the search branches into both halves
//! around it and prunes nothing.
use vstd::prelude::*;
use vstd::arithmetic::div_mod::*;
use vstd::arithmetic::power2::*;
use crate::block;
use crate::block::{same32, zero32, zero_block, BlockDev};
use crate::error;
use crate::error::{corrupt_err, corrupt_num, corrupt_num2, ErrorView, Result};
use crate::mirror::Mirror;
use crate::seal;
use crate::spine;
use crate::spine::{boot_classify, slot_count, ClassView, SpineView};
use crate::text;

pub use crate::names::SCHEMA;
pub use crate::root::{append_root, read_root, RootEntry, ROOT_SLOTS};
pub use crate::seal::MAGIC;
pub use crate::spine::{block_is_sealed, classify, Classified, SpineEntry};

verus! {

/// Ring exponent of hosts: N = 256.
pub const HOST_RING_LOG2: u8 = 8;

/// Rollback fence depth: the last K generations stay fully restorable.
pub const FENCE_K: u64 = 4;

/// What a slot of the ring at `base` holds.
pub open spec fn class_at(disk: Seq<Seq<u8>>, base: int, ring: u8, slot: int) -> ClassView {
    if 0 <= base + slot < disk.len() {
        spine::class_of(disk[base + slot], slot as u64, Some(ring))
    } else {
        ClassView::Corrupt
    }
}

/// The newest generation up to `g` that belongs at slot `s` of `n`; negative before the first lap.
pub open spec fn expected(g: int, n: int, s: int) -> int {
    if s <= g % n {
        g - g % n + s
    } else {
        g - g % n - n + s
    }
}

/// Whether a slot holds what a ring holds whose newest generation is `g` and whose oldest was
/// `first`: the expected generation, or nothing yet, or damage. The slot after the newest one may
/// have been cleared by a write that did not finish.
pub open spec fn slot_fits(
    disk: Seq<Seq<u8>>,
    base: int,
    ring: u8,
    first: int,
    g: int,
    s: int,
) -> bool {
    let n = pow2(ring as nat) as int;
    match class_at(disk, base, ring, s) {
        ClassView::Corrupt => true,
        ClassView::Valid(e) => e.gen == expected(g, n, s) && e.gen >= first,
        ClassView::Empty => expected(g, n, s) < first || s == (g + 1) % n,
    }
}

/// Whether a ring holds the generations `first` to `g` the way appends leave them, damage aside.
pub open spec fn history(disk: Seq<Seq<u8>>, base: int, ring: u8, first: int, g: int) -> bool {
    forall|s: int|
        0 <= s < pow2(ring as nat) ==> #[trigger] slot_fits(disk, base, ring, first, g, s)
}

/// Whether no slot from `lo` to `hi` holds an entry.
pub open spec fn barren(disk: Seq<Seq<u8>>, base: int, ring: u8, lo: int, hi: int) -> bool {
    forall|s: int| lo <= s <= hi ==> !((#[trigger] class_at(disk, base, ring, s)) is Valid)
}

/// Whether `x` is the newest entry among the slots `lo` to `hi`, or there is none.
pub open spec fn is_newest(
    disk: Seq<Seq<u8>>,
    base: int,
    ring: u8,
    lo: int,
    hi: int,
    x: Option<(u64, SpineView)>,
) -> bool {
    match x {
        Some((s, e)) => {
            &&& lo <= s <= hi
            &&& class_at(disk, base, ring, s as int) == ClassView::Valid(e)
            &&& forall|t: int|
                lo <= t <= hi ==> ((#[trigger] class_at(disk, base, ring, t)) matches ClassView::Valid(
                    f,
                ) ==> f.gen <= e.gen)
        },
        None => barren(disk, base, ring, lo, hi),
    }
}

/// Whether slot `s` is the first low slot that holds an entry, and it names the exponent `x`.
pub open spec fn boots_at(disk: Seq<Seq<u8>>, s: int, x: u8) -> bool {
    &&& 0 <= s < 16
    &&& s < disk.len()
    &&& spine::boot_class(disk[s], s as u64) matches ClassView::Valid(e) && e.ring == x
    &&& forall|t: int|
        0 <= t < s ==> !(spine::boot_class(#[trigger] disk[t], t as u64) is Valid)
}

/// Whether the low slots name the exponent `x`.
pub open spec fn boots(disk: Seq<Seq<u8>>, x: u8) -> bool {
    exists|s: int| #[trigger] boots_at(disk, s, x)
}

/// A slot's place in the order of generations: Empty sorts below every generation.
pub open spec fn rank(c: ClassView) -> int {
    match c {
        ClassView::Valid(e) => e.gen as int,
        _ => -1,
    }
}

/// The view of a found head.
pub open spec fn head_view(h: Option<(u64, SpineEntry)>) -> Option<(u64, SpineView)> {
    match h {
        Some((s, e)) => Some((s, e@)),
        None => None,
    }
}

/// In a ring with history, a slot that ranks above an earlier one ranks above all between.
proof fn lemma_rank_up(
    disk: Seq<Seq<u8>>,
    base: int,
    ring: u8,
    g: int,
    lo: int,
    mid: int,
    s: int,
)
    requires
        history(disk, base, ring, 0, g),
        g >= 0,
        0 <= lo <= s < mid < pow2(ring as nat),
        !(class_at(disk, base, ring, lo) is Corrupt),
        !(class_at(disk, base, ring, mid) is Corrupt),
        rank(class_at(disk, base, ring, mid)) > rank(class_at(disk, base, ring, lo)),
    ensures
        rank(class_at(disk, base, ring, s)) < rank(class_at(disk, base, ring, mid)),
{
    let n = pow2(ring as nat) as int;
    lemma_mod_bound(g, n);
    lemma_small_gap(g, n);
    assert(slot_fits(disk, base, ring, 0, g, lo));
    assert(slot_fits(disk, base, ring, 0, g, mid));
    assert(slot_fits(disk, base, ring, 0, g, s));
}

/// In a ring with history, past a slot that does not rank above an earlier one nothing does.
proof fn lemma_rank_down(
    disk: Seq<Seq<u8>>,
    base: int,
    ring: u8,
    g: int,
    lo: int,
    mid: int,
    s: int,
)
    requires
        history(disk, base, ring, 0, g),
        g >= 0,
        0 <= lo < mid <= s < pow2(ring as nat),
        !(class_at(disk, base, ring, lo) is Corrupt),
        !(class_at(disk, base, ring, mid) is Corrupt),
        rank(class_at(disk, base, ring, mid)) <= rank(class_at(disk, base, ring, lo)),
    ensures
        rank(class_at(disk, base, ring, s)) <= rank(class_at(disk, base, ring, lo)),
{
    let n = pow2(ring as nat) as int;
    lemma_mod_bound(g, n);
    lemma_small_gap(g, n);
    assert(slot_fits(disk, base, ring, 0, g, lo));
    assert(slot_fits(disk, base, ring, 0, g, mid));
    assert(slot_fits(disk, base, ring, 0, g, s));
}

/// The slot of the next generation is the next one round, and laps before the first are whole.
proof fn lemma_small_gap(g: int, n: int)
    requires
        n > 0,
        g >= 0,
    ensures
        (g + 1) % n == (if g % n + 1 == n {
            0
        } else {
            g % n + 1
        }),
        g - g % n >= 0,
        g - g % n == 0 || g - g % n >= n,
{
    lemma_fundamental_div_mod(g, n);
    lemma_mod_bound(g, n);
    let q = g / n;
    let h = g % n;
    lemma_div_pos_is_pos(g, n);
    if h + 1 == n {
        assert(g + 1 == n * (q + 1) + 0) by (nonlinear_arith)
            requires
                g == n * q + h,
                h + 1 == n,
        ;
        lemma_fundamental_div_mod_converse(g + 1, n, q + 1, 0);
    } else {
        assert(g + 1 == q * n + (h + 1)) by (nonlinear_arith)
            requires
                g == n * q + h,
        ;
        lemma_fundamental_div_mod_converse(g + 1, n, q, h + 1);
    }
    if q > 0 {
        assert(n * q >= n) by (nonlinear_arith)
            requires
                q > 0,
                n > 0,
        ;
    } else {
        assert(n * q == 0) by (nonlinear_arith)
            requires
                q == 0,
        ;
    }
}

/// Law: appending generation g + 1 at its slot to a ring whose newest generation is g gives a ring
/// whose newest generation is g + 1.
pub proof fn law_append_keeps_history(
    disk: Seq<Seq<u8>>,
    base: int,
    ring: u8,
    first: int,
    g: int,
    e: SpineView,
)
    requires
        history(disk, base, ring, first, g),
        g >= 0,
        first <= g + 1,
        e.gen == g + 1,
        e.wf(),
        e.ring == ring,
        0 < ring <= 32,
        0 <= base,
        base + pow2(ring as nat) <= disk.len(),
    ensures
        history(
            disk.update(base + (g + 1) % (pow2(ring as nat) as int), spine::spine_block(e)),
            base,
            ring,
            first,
            g + 1,
        ),
        class_at(
            disk.update(base + (g + 1) % (pow2(ring as nat) as int), spine::spine_block(e)),
            base,
            ring,
            (g + 1) % (pow2(ring as nat) as int),
        ) == ClassView::Valid(e),
{
    let n = pow2(ring as nat) as int;
    lemma_pow2_pos(ring as nat);
    let slot = (g + 1) % n;
    let now = disk.update(base + slot, spine::spine_block(e));
    lemma_mod_bound(g + 1, n);
    lemma_small_gap(g, n);
    lemma_small_gap(g + 1, n);
    lemma_entry_valid(e, slot as u64);
    assert forall|s: int| 0 <= s < n implies #[trigger] slot_fits(now, base, ring, first, g + 1, s) by {
        if s == slot {
            assert(class_at(now, base, ring, s) == ClassView::Valid(e));
        } else {
            assert(now[base + s] == disk[base + s]);
            assert(slot_fits(disk, base, ring, first, g, s));
        }
    }
}

/// Law: wear is even. Of any `n` generations one after the other, a ring of `n` slots takes exactly one
/// at each slot.
pub proof fn law_every_slot_once_per_lap(g: int, n: int, s: int)
    requires
        0 < n,
        0 <= s < n,
    ensures
        exists|x: int| g <= x < g + n && #[trigger] (x % n) == s,
        forall|x: int, y: int|
            g <= x < g + n && g <= y < g + n && #[trigger] (x % n) == s && #[trigger] (y % n) == s
                ==> x == y,
{
    let x = g + (s - g) % n;
    lemma_mod_bound(s - g, n);
    vstd::arithmetic::div_mod::lemma_add_mod_noop(g, s - g, n);
    vstd::arithmetic::div_mod::lemma_add_mod_noop_right(g, s - g, n);
    vstd::arithmetic::div_mod::lemma_small_mod(s as nat, n as nat);
    assert(x % n == s);
    assert forall|x: int, y: int|
        g <= x < g + n && g <= y < g + n && #[trigger] (x % n) == s && #[trigger] (y % n)
            == s implies x == y by {
        let a = x / n;
        let b = y / n;
        vstd::arithmetic::div_mod::lemma_fundamental_div_mod(x, n);
        vstd::arithmetic::div_mod::lemma_fundamental_div_mod(y, n);
        assert(a == b) by (nonlinear_arith)
            requires
                x == n * a + s,
                y == n * b + s,
                x - y < n,
                y - x < n,
                0 < n,
        ;
    }
}

/// Law: the first entry of a cleared ring begins its history.
pub proof fn law_first_entry_begins_history(
    disk: Seq<Seq<u8>>,
    base: int,
    ring: u8,
    e: SpineView,
)
    requires
        forall|s: int|
            0 <= s < pow2(ring as nat) ==> (#[trigger] class_at(disk, base, ring, s)) is Empty,
        e.wf(),
        e.ring == ring,
        0 < ring <= 32,
        0 <= base,
        base + pow2(ring as nat) <= disk.len(),
    ensures
        history(
            disk.update(base + e.gen as int % (pow2(ring as nat) as int), spine::spine_block(e)),
            base,
            ring,
            e.gen as int,
            e.gen as int,
        ),
{
    let n = pow2(ring as nat) as int;
    lemma_pow2_pos(ring as nat);
    let g = e.gen as int;
    let slot = g % n;
    let now = disk.update(base + slot, spine::spine_block(e));
    lemma_mod_bound(g, n);
    lemma_small_gap(g, n);
    lemma_entry_valid(e, slot as u64);
    assert forall|s: int| 0 <= s < n implies #[trigger] slot_fits(now, base, ring, g, g, s) by {
        if s == slot {
            assert(class_at(now, base, ring, s) == ClassView::Valid(e));
        } else {
            assert(now[base + s] == disk[base + s]);
            assert(class_at(disk, base, ring, s) is Empty);
        }
    }
}

/// An encoded entry is Valid at its slot.
pub proof fn lemma_entry_valid(e: SpineView, slot: u64)
    requires
        e.wf(),
        0 < e.ring <= 32,
        slot == e.gen as int % (pow2(e.ring as nat) as int),
    ensures
        spine::class_of(spine::spine_block(e), slot, Some(e.ring)) == ClassView::Valid(e),
        spine::spine_block(e) != block::zeros(),
{
    spine::law_spine_reads_back(e);
    let body = seal::padded(seal::body_of(SCHEMA@, spine::spine_fields(e)));
    spine::lemma_spine_fits(e);
    seal::lemma_sealed(body);
    assert(spine::spine_block(e)[0] == 0x52);
    assert(block::zeros()[0] == 0);
}

/// Law: in a ring with history up to g whose newest entry is intact, that entry is the newest.
pub proof fn law_intact_head_is_newest(
    disk: Seq<Seq<u8>>,
    base: int,
    ring: u8,
    first: int,
    g: int,
    slot: u64,
    e: SpineView,
)
    requires
        history(disk, base, ring, first, g),
        g >= 0,
        e.gen == g,
        slot == g % (pow2(ring as nat) as int),
        class_at(disk, base, ring, slot as int) == ClassView::Valid(e),
    ensures
        is_newest(disk, base, ring, 0, pow2(ring as nat) - 1, Some((slot, e))),
{
    let n = pow2(ring as nat) as int;
    lemma_pow2_pos(ring as nat);
    lemma_mod_bound(g, n);
    lemma_small_gap(g, n);
    assert forall|t: int| 0 <= t <= n - 1 implies ((#[trigger] class_at(disk, base, ring, t)) matches ClassView::Valid(
        f,
    ) ==> f.gen <= e.gen) by {
        assert(slot_fits(disk, base, ring, first, g, t));
    }
}

/// A spine ring over a mirrored device: slots `[base, base + N)`.
pub struct Ring<A: BlockDev, B: BlockDev> {
    mirror: Mirror<A, B>,
    ring_log2: u8,
    base: u64,
    head: Option<(u64, SpineEntry)>,
}

impl<A: BlockDev, B: BlockDev> Ring<A, B> {
    /// The mirror the ring is on.
    pub closed spec fn mir(&self) -> Mirror<A, B> {
        self.mirror
    }

    /// The ring exponent.
    pub closed spec fn exponent(&self) -> u8 {
        self.ring_log2
    }

    /// Where the ring begins.
    pub closed spec fn start(&self) -> u64 {
        self.base
    }

    /// The cached head: its slot and its entry.
    pub closed spec fn top(&self) -> Option<(u64, SpineView)> {
        head_view(self.head)
    }

    /// The number of slots.
    pub open spec fn slots(&self) -> int {
        pow2(self.exponent() as nat) as int
    }

    pub open spec fn disk(&self) -> Seq<Seq<u8>> {
        self.mir().disk()
    }

    /// The ring's region has addresses, and a head has a head's hashes.
    pub open spec fn wf(&self) -> bool {
        &&& self.exponent() < 64
        &&& self.start() + self.slots() <= u64::MAX
        &&& self.top() matches Some((_, e)) ==> e.wf()
    }

    /// Whether only the mirror's device bookkeeping differs.
    pub open spec fn same_but_mirror(&self, before: &Self) -> bool {
        &&& self.exponent() == before.exponent()
        &&& self.start() == before.start()
        &&& self.top() == before.top()
        &&& self.mir().carries_on(&before.mir())
    }

    /// Whether nothing an operation may only read has changed.
    pub open spec fn only_read(&self, before: &Self) -> bool {
        &&& self.same_but_mirror(before)
        &&& self.mir().first() == before.mir().first()
        &&& self.mir().second() == before.mir().second()
    }

    pub fn n(&self) -> (n: u64)
        requires
            self.exponent() < 64,
        ensures
            n == self.slots(),
            n > 0,
    {
        slot_count(self.ring_log2)
    }

    pub fn ring_log2(&self) -> (r: u8)
        ensures
            r == self.exponent(),
    {
        self.ring_log2
    }

    /// Where the ring begins.
    pub fn base(&self) -> (b: u64)
        ensures
            b == self.start(),
    {
        self.base
    }

    pub fn head(&self) -> (h: Option<&SpineEntry>)
        ensures
            match h {
                Some(e) => self.top() matches Some((_, v)) && v == e@,
                None => self.top() is None,
            },
    {
        match &self.head {
            Some((_, e)) => Some(e),
            None => None,
        }
    }

    pub fn mirror(&mut self) -> (m: &mut Mirror<A, B>)
        ensures
            *m == old(self).mir(),
            final(self).mir() == *final(m),
            final(self).exponent() == old(self).exponent(),
            final(self).start() == old(self).start(),
            final(self).top() == old(self).top(),
    {
        &mut self.mirror
    }

    /// Gives the mirror back.
    pub fn into_mirror(self) -> (m: Mirror<A, B>)
        ensures
            m == self.mir(),
    {
        self.mirror
    }

    /// Moves the ring to another residence: the next generation lands there.
    pub(crate) fn set_base(&mut self, base: u64)
        ensures
            final(self).start() == base,
            final(self).mir() == old(self).mir(),
            final(self).exponent() == old(self).exponent(),
            final(self).top() == old(self).top(),
    {
        self.base = base;
    }

    /// Discovers the ring exponent from the medium itself: the first Valid entry of the low slots.
    /// None where nothing there is one.
    pub fn bootstrap_n(mirror: &mut Mirror<A, B>) -> (r: Result<Option<u8>>)
        ensures
            final(mirror).carries_on(old(mirror)),
            final(mirror).first() == old(mirror).first(),
            final(mirror).second() == old(mirror).second(),
            r matches Ok(Some(x)) ==> boots(old(mirror).disk(), x),
            r matches Ok(None) ==> forall|s: int|
                0 <= s < 16 && s < old(mirror).disk().len() && (old(mirror).second() is Some && old(mirror).first() is Some ==> s < old(mirror).second()->0.len()) ==> !(spine::boot_class(#[trigger] old(mirror).disk()[s], s as u64) is Valid),
            r matches Err(e) ==> block::device_error(e@) && !old(mirror).reliable(),
    {
        let ghost d = mirror.disk();
        let count: u64 = mirror.block_count();
        let probe: u64 = if count < 16 {
            count
        } else {
            16
        };
        let mut buf = zero_block();
        let mut slot: u64 = 0;
        while slot < probe
            invariant
                slot <= probe <= 16,
                probe <= d.len(),
                d == old(mirror).disk(),
                mirror.carries_on(old(mirror)),
                mirror.first() == old(mirror).first(),
                mirror.second() == old(mirror).second(),
                probe == 16 || probe == count,
                count == (match (mirror.first(), mirror.second()) {
                    (Some(x), Some(y)) => if x.len() <= y.len() {
                        x.len()
                    } else {
                        y.len()
                    },
                    (Some(x), None) => x.len(),
                    (None, Some(y)) => y.len(),
                    (None, None) => 0,
                }),
                forall|t: int|
                    0 <= t < slot ==> !(spine::boot_class(#[trigger] d[t], t as u64) is Valid),
            decreases probe - slot,
        {
            mirror.read(slot, &mut buf)?;
            if let Classified::Valid(e) = boot_classify(&buf, slot) {
                assert(spine::boot_class(d[slot as int], slot) == ClassView::Valid(e@));
                assert(boots_at(old(mirror).disk(), slot as int, e.ring_log2));
                return Ok(Some(e.ring_log2));
            }
            slot = slot + 1;
        }
        Ok(None)
    }

    /// Opens a ring at block 0 with a known exponent and finds its head by bisection. Where the ring
    /// holds a history, damaged or not, the head is the newest entry.
    pub fn open(mirror: Mirror<A, B>, ring_log2: u8) -> (r: Result<Self>)
        requires
            ring_log2 < 64,
        ensures
            match r {
                Ok(ring) => {
                    &&& ring.wf()
                    &&& ring.exponent() == ring_log2
                    &&& ring.start() == 0
                    &&& ring.mir().carries_on(&mirror)
                    &&& ring.mir().first() == mirror.first()
                    &&& ring.mir().second() == mirror.second()
                    &&& ring.top() matches Some((s, e)) ==> class_at(
                        mirror.disk(),
                        0,
                        ring_log2,
                        s as int,
                    ) == ClassView::Valid(e)
                    &&& (exists|g: int|
                        g >= 0 && #[trigger] history(mirror.disk(), 0, ring_log2, 0, g)) || barren(
                        mirror.disk(),
                        0,
                        ring_log2,
                        0,
                        pow2(ring_log2 as nat) - 1,
                    ) ==> is_newest(
                        mirror.disk(),
                        0,
                        ring_log2,
                        0,
                        pow2(ring_log2 as nat) - 1,
                        ring.top(),
                    )
                },
                Err(e) => block::device_error(e@) && !(mirror.reliable() && pow2(ring_log2 as nat)
                    <= mirror.disk().len()),
            },
    {
        proof {
            lemma_small_pow2(ring_log2);
        }
        let mut ring = Ring { mirror, ring_log2, base: 0, head: None };
        let found = ring.head_search()?;
        ring.head = found;
        Ok(ring)
    }

    /// Opens a ring at a residence by reading every slot: the head is the newest entry there.
    pub fn open_at(mirror: Mirror<A, B>, ring_log2: u8, base: u64) -> (r: Result<Self>)
        requires
            ring_log2 < 64,
            base + pow2(ring_log2 as nat) <= u64::MAX,
        ensures
            match r {
                Ok(ring) => {
                    &&& ring.wf()
                    &&& ring.exponent() == ring_log2
                    &&& ring.start() == base
                    &&& ring.mir().carries_on(&mirror)
                    &&& ring.mir().first() == mirror.first()
                    &&& ring.mir().second() == mirror.second()
                    &&& is_newest(
                        mirror.disk(),
                        base as int,
                        ring_log2,
                        0,
                        pow2(ring_log2 as nat) - 1,
                        ring.top(),
                    )
                },
                Err(e) => block::device_error(e@) && !(mirror.reliable() && base + pow2(
                    ring_log2 as nat,
                ) <= mirror.disk().len()),
            },
    {
        let ghost d = mirror.disk();
        let mut ring = Ring { mirror, ring_log2, base, head: None };
        let n: u64 = ring.n();
        let mut best: Option<(u64, SpineEntry)> = None;
        let mut slot: u64 = 0;
        while slot < n
            invariant
                slot <= n,
                n == pow2(ring_log2 as nat),
                ring.wf(),
                ring.exponent() == ring_log2,
                ring.start() == base,
                ring.disk() == d,
                d == mirror.disk(),
                ring.top() is None,
                ring.mir().carries_on(&mirror),
                ring.mir().first() == mirror.first(),
                ring.mir().second() == mirror.second(),
                is_newest(d, base as int, ring_log2, 0, slot - 1, head_view(best)),
                best matches Some((_, e)) ==> e@.wf(),
            decreases n - slot,
        {
            let c = ring.gen_at(slot)?;
            assert(class_at(d, base as int, ring_log2, slot as int) == c@);
            if let Classified::Valid(e) = c {
                let newer = match &best {
                    Some((_, x)) => e.gen > x.gen,
                    None => true,
                };
                if newer {
                    best = Some((slot, e));
                }
            }
            slot = slot + 1;
        }
        ring.head = best;
        Ok(ring)
    }

    /// What an append of `e` is refused with, if it is.
    pub open spec fn append_refusal(&self, e: SpineView) -> Option<ErrorView> {
        match self.top() {
            Some((_, h)) => if e.gen != h.gen + 1 {
                Some(
                    ErrorView::Corrupt(
                        "append gen "@ + text::dec(e.gen as nat) + " after head "@ + text::dec(
                            h.gen as nat,
                        ) + ""@,
                    ),
                )
            } else if e.prev != spine::spine_hash(h) {
                Some(error::corrupt("prev_hash does not chain to head"))
            } else if e.ring != self.exponent() {
                Some(error::corrupt("entry geometry does not match ring"))
            } else {
                None
            },
            None => if e.gen != 0 {
                Some(
                    ErrorView::Corrupt(
                        "genesis must be gen 0, got "@ + text::dec(e.gen as nat) + ""@,
                    ),
                )
            } else if e.prev != block::zeros32() {
                Some(error::corrupt("genesis prev_hash must be zeros"))
            } else if e.ring != self.exponent() {
                Some(error::corrupt("entry geometry does not match ring"))
            } else {
                None
            },
        }
    }

    /// Appends the next generation. Enforces the chain: the generation follows the head's (or is 0 at
    /// genesis) and `prev_hash` is the hash of the head's body (or zeros).
    pub fn append(&mut self, entry: &SpineEntry) -> (r: Result<()>)
        requires
            old(self).wf(),
        ensures
            final(self).wf(),
            final(self).exponent() == old(self).exponent(),
            final(self).start() == old(self).start(),
            final(self).mir().carries_on(&old(self).mir()),
            match old(self).append_refusal(entry@) {
                Some(e) => (r matches Err(x) && x@ == e) && *final(self) == *old(self),
                None => {
                    let at = old(self).start() + entry.gen as int % old(self).slots();
                    match r {
                        Ok(()) => {
                            &&& at < old(self).disk().len()
                            &&& final(self).disk() == old(self).disk().update(
                                at,
                                spine::spine_block(entry@),
                            )
                            &&& final(self).mir().second() is Some ==> final(self).mir().second()
                                == Some(
                                old(self).mir().second()->0.update(at, spine::spine_block(entry@)),
                            )
                            &&& final(self).top() == Some(
                                ((entry.gen as int % old(self).slots()) as u64, entry@),
                            )
                        },
                        Err(e) => {
                            &&& block::device_error(e@)
                            &&& block::only_changed(old(self).disk(), final(self).disk(), at)
                            &&& final(self).top() == old(self).top()
                            &&& !(old(self).mir().reliable() && at < old(self).disk().len())
                        },
                    }
                },
            },
    {
        match &self.head {
            Some((_, h)) => {
                if h.gen == u64::MAX || entry.gen != h.gen + 1 {
                    return Err(corrupt_num2("append gen ", entry.gen, " after head ", h.gen, ""));
                }
                if !same32(&entry.prev_hash, &h.body_hash()) {
                    return Err(corrupt_err("prev_hash does not chain to head"));
                }
            },
            None => {
                if entry.gen != 0 {
                    return Err(corrupt_num("genesis must be gen 0, got ", entry.gen, ""));
                }
                if !same32(&entry.prev_hash, &zero32()) {
                    return Err(corrupt_err("genesis prev_hash must be zeros"));
                }
            },
        }
        if entry.ring_log2 != self.ring_log2 {
            return Err(corrupt_err("entry geometry does not match ring"));
        }
        let n: u64 = self.n();
        let slot: u64 = entry.gen % n;
        let block = entry.encode();
        self.mirror.write_verified(self.base + slot, &block)?;
        self.head = Some((slot, *entry));
        Ok(())
    }

    /// What the ring says of generation `gen`: the entry, where its slot still holds it.
    pub open spec fn recorded(&self, gen: int) -> Option<SpineView> {
        match class_at(
            self.disk(),
            self.start() as int,
            self.exponent(),
            gen % self.slots(),
        ) {
            ClassView::Valid(e) => if e.gen == gen {
                Some(e)
            } else {
                None
            },
            _ => None,
        }
    }

    /// Of the last `k` generations, newest first: the entry, where its slot still holds it.
    fn recent(&mut self, k: u64) -> (r: Result<Vec<Option<SpineEntry>>>)
        requires
            old(self).wf(),
        ensures
            final(self).wf(),
            final(self).only_read(old(self)),
            match r {
                Ok(v) => match old(self).top() {
                    None => v@.len() == 0,
                    Some((_, h)) => {
                        &&& v@.len() == (if k <= h.gen {
                            k as int
                        } else {
                            h.gen + 1
                        })
                        &&& forall|i: int|
                            0 <= i < v@.len() ==> (match #[trigger] v@[i] {
                                Some(e) => old(self).recorded(h.gen - i) == Some(e@),
                                None => old(self).recorded(h.gen - i) is None,
                            })
                    },
                },
                Err(e) => block::device_error(e@) && !(old(self).mir().reliable() && old(self).start() + old(self).slots() <= old(self).disk().len()),
            },
    {
        let mut out: Vec<Option<SpineEntry>> = Vec::new();
        let head_gen: u64 = match &self.head {
            Some((_, h)) => h.gen,
            None => return Ok(out),
        };
        let n: u64 = self.n();
        let mut back: u64 = 0;
        while back < k && back <= head_gen
            invariant
                self.wf(),
                self.only_read(old(self)),
                n == old(self).slots(),
                n > 0,
                old(self).top() matches Some((_, h)) && h.gen == head_gen,
                back <= k,
                back <= head_gen + 1,
                out@.len() == back,
                forall|i: int|
                    0 <= i < back ==> (match #[trigger] out@[i] {
                        Some(e) => old(self).recorded(head_gen - i) == Some(e@),
                        None => old(self).recorded(head_gen - i) is None,
                    }),
            decreases head_gen + 1 - back,
        {
            let gen: u64 = head_gen - back;
            let slot: u64 = gen % n;
            let c = self.gen_at(slot)?;
            let mut found: Option<SpineEntry> = None;
            if let Classified::Valid(e) = c {
                if e.gen == gen {
                    found = Some(e);
                }
            }
            out.push(found);
            if back == u64::MAX {
                return Ok(out);
            }
            back = back + 1;
        }
        Ok(out)
    }

    /// Plow positions of the last `k` generations, newest first. Near genesis there are fewer. A
    /// generation whose slot no longer holds it counts as plow 0, the most restrictive fence.
    pub fn recent_plows(&mut self, k: u64) -> (r: Result<Vec<u64>>)
        requires
            old(self).wf(),
        ensures
            final(self).wf(),
            final(self).only_read(old(self)),
            match r {
                Ok(v) => match old(self).top() {
                    None => v@.len() == 0,
                    Some((_, h)) => {
                        &&& v@.len() == (if k <= h.gen {
                            k as int
                        } else {
                            h.gen + 1
                        })
                        &&& forall|i: int|
                            0 <= i < v@.len() ==> #[trigger] v@[i] == (match old(self).recorded(
                                h.gen - i,
                            ) {
                                Some(e) => e.plow,
                                None => 0,
                            })
                    },
                },
                Err(e) => block::device_error(e@) && !(old(self).mir().reliable() && old(self).start() + old(self).slots() <= old(self).disk().len()),
            },
    {
        let es = self.recent(k)?;
        let mut out: Vec<u64> = Vec::new();
        let mut i: usize = 0;
        while i < es.len()
            invariant
                i <= es@.len(),
                out@.len() == i,
                forall|j: int|
                    0 <= j < i ==> #[trigger] out@[j] == (match es@[j] {
                        Some(e) => e.plow,
                        None => 0,
                    }),
            decreases es@.len() - i,
        {
            out.push(
                match &es[i] {
                    Some(e) => e.plow,
                    None => 0,
                },
            );
            i = i + 1;
        }
        Ok(out)
    }

    /// Append budgets of the last `k` generations, newest first. A generation whose slot no longer
    /// holds it grants nothing.
    pub fn recent_fences(&mut self, k: u64) -> (r: Result<Vec<u64>>)
        requires
            old(self).wf(),
        ensures
            final(self).wf(),
            final(self).only_read(old(self)),
            match r {
                Ok(v) => match old(self).top() {
                    None => v@.len() == 0,
                    Some((_, h)) => {
                        &&& v@.len() == (if k <= h.gen {
                            k as int
                        } else {
                            h.gen + 1
                        })
                        &&& forall|i: int|
                            0 <= i < v@.len() ==> #[trigger] v@[i] == (match old(self).recorded(
                                h.gen - i,
                            ) {
                                Some(e) => if e.budget() <= u64::MAX {
                                    e.budget()
                                } else {
                                    u64::MAX as int
                                },
                                None => 0,
                            })
                    },
                },
                Err(e) => block::device_error(e@) && !(old(self).mir().reliable() && old(self).start() + old(self).slots() <= old(self).disk().len()),
            },
    {
        let es = self.recent(k)?;
        let mut out: Vec<u64> = Vec::new();
        let mut i: usize = 0;
        while i < es.len()
            invariant
                i <= es@.len(),
                out@.len() == i,
                forall|j: int|
                    0 <= j < i ==> #[trigger] out@[j] == (match es@[j] {
                        Some(e) => if e@.budget() <= u64::MAX {
                            e@.budget()
                        } else {
                            u64::MAX as int
                        },
                        None => 0,
                    }),
            decreases es@.len() - i,
        {
            out.push(
                match &es[i] {
                    Some(e) => match e.reap {
                        Some(x) => x.saturating_add(e.tract_blocks),
                        None => e.plow,
                    },
                    None => 0,
                },
            );
            i = i + 1;
        }
        Ok(out)
    }

    /// Finds the newest entry by bisection, branching both halves around corrupt slots. None for a
    /// ring without entries.
    pub fn head_search(&mut self) -> (r: Result<Option<(u64, SpineEntry)>>)
        requires
            old(self).wf(),
        ensures
            final(self).wf(),
            final(self).only_read(old(self)),
            match r {
                Ok(x) => {
                    &&& x matches Some((s, e)) ==> e@.wf() && s < old(self).slots() && class_at(
                        old(self).disk(),
                        old(self).start() as int,
                        old(self).exponent(),
                        s as int,
                    ) == ClassView::Valid(e@)
                    &&& (exists|g: int|
                        g >= 0 && #[trigger] history(
                            old(self).disk(),
                            old(self).start() as int,
                            old(self).exponent(),
                            0,
                            g,
                        )) || barren(
                        old(self).disk(),
                        old(self).start() as int,
                        old(self).exponent(),
                        0,
                        old(self).slots() - 1,
                    ) ==> is_newest(
                        old(self).disk(),
                        old(self).start() as int,
                        old(self).exponent(),
                        0,
                        old(self).slots() - 1,
                        head_view(x),
                    )
                },
                Err(e) => block::device_error(e@) && !(old(self).mir().reliable() && old(self).start() + old(self).slots() <= old(self).disk().len()),
            },
    {
        let n: u64 = self.n();
        proof {
            lemma_pow2_pos(self.exponent() as nat);
        }
        self.search(0, n - 1)
    }

    fn gen_at(&mut self, slot: u64) -> (r: Result<Classified>)
        requires
            old(self).wf(),
            slot < old(self).slots(),
        ensures
            final(self).wf(),
            final(self).only_read(old(self)),
            match r {
                Ok(c) => {
                    &&& c@ == class_at(
                        old(self).disk(),
                        old(self).start() as int,
                        old(self).exponent(),
                        slot as int,
                    )
                    &&& c matches Classified::Valid(e) ==> e@.wf()
                },
                Err(e) => block::device_error(e@) && !(old(self).mir().reliable() && old(self).start() + slot < old(self).disk().len()),
            },
    {
        let mut buf = zero_block();
        self.mirror.read(self.base + slot, &mut buf)?;
        Ok(classify(&buf, slot, Some(self.ring_log2)))
    }

    fn search(&mut self, lo0: u64, hi0: u64) -> (r: Result<Option<(u64, SpineEntry)>>)
        requires
            old(self).wf(),
            hi0 < old(self).slots(),
        ensures
            final(self).wf(),
            final(self).only_read(old(self)),
            match r {
                Ok(x) => {
                    &&& x matches Some((s, e)) ==> e@.wf() && lo0 <= s <= hi0 && class_at(
                        old(self).disk(),
                        old(self).start() as int,
                        old(self).exponent(),
                        s as int,
                    ) == ClassView::Valid(e@)
                    &&& (exists|g: int|
                        g >= 0 && #[trigger] history(
                            old(self).disk(),
                            old(self).start() as int,
                            old(self).exponent(),
                            0,
                            g,
                        )) ==> is_newest(
                        old(self).disk(),
                        old(self).start() as int,
                        old(self).exponent(),
                        lo0 as int,
                        hi0 as int,
                        head_view(x),
                    )
                },
                Err(e) => block::device_error(e@) && !(old(self).mir().reliable() && old(self).start() + old(self).slots() <= old(self).disk().len()),
            },
        decreases (if lo0 <= hi0 { hi0 - lo0 + 1 } else { 0 }),
    {
        let ghost d = self.disk();
        let ghost base = self.start() as int;
        let ghost ring = self.exponent();
        let ghost old_storied = exists|g: int| g >= 0 && #[trigger] history(d, base, ring, 0, g);
        let ghost g = choose|g: int| g >= 0 && #[trigger] history(d, base, ring, 0, g);
        // Restore the anchor: advance past corrupt slots.
        let mut lo: u64 = lo0;
        let mut lo_entry: Option<SpineEntry> = None;
        let mut anchored = false;
        while !anchored
            invariant
                self.wf(),
                self.only_read(old(self)),
                d == old(self).disk(),
                base == old(self).start(),
                ring == old(self).exponent(),
                hi0 < old(self).slots(),
                lo0 <= lo,
                lo0 <= hi0 ==> lo <= hi0 + 1,
                forall|s: int| lo0 <= s < lo ==> (#[trigger] class_at(d, base, ring, s)) is Corrupt,
                anchored ==> lo <= hi0 && !(class_at(d, base, ring, lo as int) is Corrupt),
                !anchored ==> lo_entry is None,
                anchored ==> match lo_entry {
                    Some(e) => class_at(d, base, ring, lo as int) == ClassView::Valid(e@)
                        && e@.wf(),
                    None => class_at(d, base, ring, lo as int) is Empty,
                },
            decreases hi0 + 1 - lo, (if anchored { 0int } else { 1int }),
        {
            if lo > hi0 {
                return Ok(None);
            }
            match self.gen_at(lo)? {
                Classified::Corrupt => {
                    lo = lo + 1;
                },
                Classified::Empty => {
                    anchored = true;
                },
                Classified::Valid(e) => {
                    lo_entry = Some(e);
                    anchored = true;
                },
            }
        }
        let mut hi: u64 = hi0;
        while lo < hi
            invariant
                self.wf(),
                self.only_read(old(self)),
                d == old(self).disk(),
                base == old(self).start(),
                ring == old(self).exponent(),
                hi0 < old(self).slots(),
                old_storied == (exists|g: int| g >= 0 && #[trigger] history(d, base, ring, 0, g)),
                old_storied ==> g >= 0 && history(d, base, ring, 0, g),
                lo0 <= lo <= hi <= hi0,
                !(class_at(d, base, ring, lo as int) is Corrupt),
                match lo_entry {
                    Some(e) => class_at(d, base, ring, lo as int) == ClassView::Valid(e@)
                        && e@.wf(),
                    None => class_at(d, base, ring, lo as int) is Empty,
                },
                old_storied ==> forall|s: int|
                    lo0 <= s <= hi0 && !(lo <= s <= hi) ==> rank(
                        #[trigger] class_at(d, base, ring, s),
                    ) <= rank(class_at(d, base, ring, lo as int)),
            decreases hi - lo,
        {
            let mid: u64 = lo + (hi - lo + 1) / 2;
            let c = self.gen_at(mid)?;
            match c {
                Classified::Corrupt => {
                    // Ambiguous: no pruning decision is possible; search both halves.
                    let left = self.search(lo, mid - 1)?;
                    let right = self.search(mid, hi)?;
                    proof {
                        if old_storied {
                            lemma_halves(
                                d,
                                base,
                                ring,
                                lo0 as int,
                                hi0 as int,
                                lo as int,
                                mid as int,
                                hi as int,
                                head_view(left),
                                head_view(right),
                            );
                        }
                    }
                    return Ok(max_by_gen(left, right));
                },
                Classified::Valid(e) => {
                    let above = match &lo_entry {
                        Some(x) => e.gen > x.gen,
                        None => true,
                    };
                    if above {
                        proof {
                            if old_storied {
                                assert forall|s: int|
                                    lo0 <= s <= hi0 && !(mid <= s <= hi) implies rank(
                                    #[trigger] class_at(d, base, ring, s),
                                ) <= rank(class_at(d, base, ring, mid as int)) by {
                                    if lo <= s < mid {
                                        lemma_rank_up(d, base, ring, g, lo as int, mid as int, s);
                                    }
                                }
                            }
                        }
                        lo = mid;
                        lo_entry = Some(e);
                    } else {
                        proof {
                            if old_storied {
                                assert forall|s: int|
                                    lo0 <= s <= hi0 && !(lo <= s <= mid - 1) implies rank(
                                    #[trigger] class_at(d, base, ring, s),
                                ) <= rank(class_at(d, base, ring, lo as int)) by {
                                    if mid <= s <= hi {
                                        lemma_rank_down(d, base, ring, g, lo as int, mid as int, s);
                                    }
                                }
                            }
                        }
                        hi = mid - 1;
                    }
                },
                Classified::Empty => {
                    proof {
                        if old_storied {
                            assert forall|s: int|
                                lo0 <= s <= hi0 && !(lo <= s <= mid - 1) implies rank(
                                #[trigger] class_at(d, base, ring, s),
                            ) <= rank(class_at(d, base, ring, lo as int)) by {
                                if mid <= s <= hi {
                                    lemma_rank_down(d, base, ring, g, lo as int, mid as int, s);
                                }
                            }
                        }
                    }
                    hi = mid - 1;
                },
            }
        }
        match lo_entry {
            Some(e) => Ok(Some((lo, e))),
            None => Ok(None),
        }
    }
}

/// The newest of two adjacent ranges is the newest of both, where nothing outside ranks higher.
proof fn lemma_halves(
    d: Seq<Seq<u8>>,
    base: int,
    ring: u8,
    lo0: int,
    hi0: int,
    lo: int,
    mid: int,
    hi: int,
    left: Option<(u64, SpineView)>,
    right: Option<(u64, SpineView)>,
)
    requires
        lo0 <= lo < mid <= hi <= hi0,
        is_newest(d, base, ring, lo, mid - 1, left),
        is_newest(d, base, ring, mid, hi, right),
        forall|s: int|
            lo0 <= s <= hi0 && !(lo <= s <= hi) ==> rank(#[trigger] class_at(d, base, ring, s))
                <= rank(class_at(d, base, ring, lo)),
    ensures
        is_newest(d, base, ring, lo0, hi0, newest_of(left, right)),
{
    let x = newest_of(left, right);
    assert forall|t: int|
        lo0 <= t <= hi0 implies ((#[trigger] class_at(d, base, ring, t)) matches ClassView::Valid(
        f,
    ) ==> (x matches Some((_, e)) && f.gen <= e.gen)) by {
        if class_at(d, base, ring, t) is Valid {
            if !(lo <= t <= hi) {
                assert(rank(class_at(d, base, ring, t)) >= 0);
                assert(class_at(d, base, ring, lo) is Valid);
            }
        }
    }
}

/// The newer of two heads; the first where they are as new.
pub open spec fn newest_of(
    a: Option<(u64, SpineView)>,
    b: Option<(u64, SpineView)>,
) -> Option<(u64, SpineView)> {
    match (a, b) {
        (Some(x), Some(y)) => if x.1.gen >= y.1.gen {
            Some(x)
        } else {
            Some(y)
        },
        (Some(x), None) => Some(x),
        (None, y) => y,
    }
}

fn max_by_gen(a: Option<(u64, SpineEntry)>, b: Option<(u64, SpineEntry)>) -> (r: Option<
    (u64, SpineEntry),
>)
    ensures
        head_view(r) == newest_of(head_view(a), head_view(b)),
        r == a || r == b,
{
    match (a, b) {
        (Some(x), Some(y)) => if x.1.gen >= y.1.gen {
            Some(x)
        } else {
            Some(y)
        },
        (Some(x), None) => Some(x),
        (None, y) => y,
    }
}

proof fn lemma_small_pow2(r: u8)
    requires
        r < 64,
    ensures
        0 < pow2(r as nat) <= u64::MAX,
{
    lemma_pow2_pos(r as nat);
    vstd::bits::lemma_u64_pow2_no_overflow(r as nat);
}

/// Whole-device scan: true if any block is a sealed document, whatever it is.
pub fn any_sealed_block<D: BlockDev>(dev: &mut D) -> (r: Result<bool>)
    ensures
        (*final(dev)).disk() == (*old(dev)).disk(),
        (*final(dev)).reliable() == (*old(dev)).reliable(),
        (*final(dev)).limit() == (*old(dev)).limit(),
        match r {
            Ok(x) => x == exists|i: int|
                0 <= i < (*old(dev)).disk().len() && seal::seal_of(
                    #[trigger] (*old(dev)).disk()[i],
                ) is Some,
            Err(e) => block::device_error(e@),
        },
        (*old(dev)).reliable() ==> r is Ok,
{
    let ghost d = (*dev).disk();
    let mut buf = zero_block();
    let n: u64 = dev.block_count();
    let mut lba: u64 = 0;
    while lba < n
        invariant
            lba <= n,
            n == d.len(),
            d == (*old(dev)).disk(),
            (*dev).disk() == d,
            (*dev).reliable() == (*old(dev)).reliable(),
            (*dev).limit() == (*old(dev)).limit(),
            forall|i: int| 0 <= i < lba ==> seal::seal_of(#[trigger] d[i]) is None,
        decreases n - lba,
    {
        dev.read(lba, &mut buf)?;
        if block_is_sealed(&buf) {
            assert(seal::seal_of(d[lba as int]) is Some);
            return Ok(true);
        }
        lba = lba + 1;
    }
    Ok(false)
}

/// Whether the blocks `[from, to)` are zeros and all others as before.
pub open spec fn cleared(was: Seq<Seq<u8>>, now: Seq<Seq<u8>>, from: int, to: int) -> bool {
    &&& now.len() == was.len()
    &&& to <= was.len()
    &&& forall|i: int|
        0 <= i < was.len() ==> #[trigger] now[i] == (if from <= i < to {
            block::zeros()
        } else {
            was[i]
        })
}

/// Zeroes a ring region, so that later head searches pay nothing for stale wreckage.
pub fn zero_ring_at<A: BlockDev, B: BlockDev>(
    mirror: &mut Mirror<A, B>,
    ring_log2: u8,
    base: u64,
) -> (r: Result<()>)
    requires
        ring_log2 < 64,
        base + pow2(ring_log2 as nat) <= u64::MAX,
    ensures
        final(mirror).carries_on(old(mirror)),
        final(mirror).disk().len() == old(mirror).disk().len(),
        forall|i: int|
            0 <= i < old(mirror).disk().len() && !(base <= i < base + pow2(ring_log2 as nat))
                ==> #[trigger] final(mirror).disk()[i] == old(mirror).disk()[i],
        r is Ok ==> cleared(
            old(mirror).disk(),
            final(mirror).disk(),
            base as int,
            base + pow2(ring_log2 as nat),
        ),
        r is Ok && final(mirror).second() is Some ==> cleared(
            old(mirror).second()->0,
            final(mirror).second()->0,
            base as int,
            base + pow2(ring_log2 as nat),
        ),
        r matches Err(e) ==> block::device_error(e@),
        old(mirror).reliable() && base + pow2(ring_log2 as nat) <= old(mirror).disk().len() ==> r
            is Ok,
{
    let ghost d = mirror.disk();
    let n: u64 = slot_count(ring_log2);
    let z = zero_block();
    let mut slot: u64 = 0;
    while slot < n
        invariant
            slot <= n,
            n == pow2(ring_log2 as nat),
            base + n <= u64::MAX,
            z@ == block::zeros(),
            d == old(mirror).disk(),
            mirror.carries_on(old(mirror)),
            slot > 0 ==> base + slot <= d.len(),
            mirror.second() is Some ==> {
                let e = old(mirror).second()->0;
                &&& slot > 0 ==> base + slot <= e.len()
                &&& mirror.second()->0.len() == e.len()
                &&& forall|i: int|
                    0 <= i < e.len() ==> #[trigger] mirror.second()->0[i] == (if base <= i < base
                        + slot {
                        block::zeros()
                    } else {
                        e[i]
                    })
            },
            mirror.disk().len() == d.len(),
            forall|i: int|
                0 <= i < d.len() ==> #[trigger] mirror.disk()[i] == (if base <= i < base + slot {
                    block::zeros()
                } else {
                    d[i]
                }),
        decreases n - slot,
    {
        mirror.write_verified(base + slot, &z)?;
        slot = slot + 1;
    }
    Ok(())
}

/// Zeroes the ring region at block 0. Used only after the whole-device scan found nothing.
pub fn zero_ring<A: BlockDev, B: BlockDev>(mirror: &mut Mirror<A, B>, ring_log2: u8) -> (r: Result<
    (),
>)
    requires
        ring_log2 < 64,
    ensures
        final(mirror).carries_on(old(mirror)),
        final(mirror).disk().len() == old(mirror).disk().len(),
        forall|i: int|
            0 <= i < old(mirror).disk().len() && !(0 <= i < pow2(ring_log2 as nat))
                ==> #[trigger] final(mirror).disk()[i] == old(mirror).disk()[i],
        r is Ok ==> cleared(
            old(mirror).disk(),
            final(mirror).disk(),
            0,
            pow2(ring_log2 as nat) as int,
        ),
        r is Ok && final(mirror).second() is Some ==> cleared(
            old(mirror).second()->0,
            final(mirror).second()->0,
            0,
            pow2(ring_log2 as nat) as int,
        ),
        r matches Err(e) ==> block::device_error(e@),
        old(mirror).reliable() && pow2(ring_log2 as nat) <= old(mirror).disk().len() ==> r is Ok,
{
    proof {
        lemma_small_pow2(ring_log2);
    }
    zero_ring_at(mirror, ring_log2, 0)
}

/// Law: only the next generation is appended. An entry is taken exactly where it is of this ring, and its
/// number and the hash it names follow the head; on a ring without entries, where it is the first and
/// names none.
pub proof fn law_only_the_next_generation_is_appended<A: BlockDev, B: BlockDev>(
    r: &Ring<A, B>,
    e: SpineView,
)
    ensures
        r.append_refusal(e) is None <==> e.ring == r.exponent() && (match r.top() {
            Some((_, h)) => e.gen == h.gen + 1 && e.prev == spine::spine_hash(h),
            None => e.gen == 0 && e.prev == block::zeros32(),
        }),
        r.append_refusal(e) matches Some(x) ==> x is Corrupt,
{
}

/// Law: of two heads the one of the higher generation is taken, and the first of two that are as new.
pub proof fn law_newer_head_is_taken(a: (u64, SpineView), b: (u64, SpineView))
    ensures
        a.1.gen >= b.1.gen ==> newest_of(Some(a), Some(b)) == Some(a),
        a.1.gen < b.1.gen ==> newest_of(Some(a), Some(b)) == Some(b),
        newest_of(Some(a), None) == Some(a),
        newest_of(None, Some(b)) == Some(b),
        newest_of(None, None) is None,
{
}

/// Law: the generation that belongs at a slot is the newest up to the head that comes to it, within a lap.
pub proof fn law_expected_generation_comes_to_its_slot(g: int, n: int, s: int)
    requires
        0 <= g,
        0 <= s < n,
    ensures
        g - n < expected(g, n, s) <= g,
        expected(g, n, s) % n == s,
{
    lemma_mod_bound(g, n);
    vstd::arithmetic::div_mod::lemma_fundamental_div_mod(g, n);
    let q = g / n;
    let x = if s <= g % n {
        q
    } else {
        q - 1
    };
    assert(expected(g, n, s) == x * n + s) by (nonlinear_arith)
        requires
            g == n * q + g % n,
            expected(g, n, s) == (if s <= g % n {
                g - g % n + s
            } else {
                g - g % n - n + s
            }),
            x == (if s <= g % n {
                q
            } else {
                q - 1
            }),
    ;
    vstd::arithmetic::div_mod::lemma_fundamental_div_mod_converse(expected(g, n, s), n, x, s);
}

/// Law: the exponent of a ring is what the first of the sixteen low slots that holds an entry names.
pub proof fn law_first_low_slot_names_the_exponent(disk: Seq<Seq<u8>>, s: int, e: SpineView, x: u8)
    requires
        0 <= s < 16,
        s < disk.len(),
        spine::boot_class(disk[s], s as u64) == ClassView::Valid(e),
        forall|t: int|
            0 <= t < s ==> !(spine::boot_class(#[trigger] disk[t], t as u64) is Valid),
    ensures
        boots(disk, x) <==> x == e.ring,
{
    assert(boots_at(disk, s, e.ring));
    if boots(disk, x) {
        let t = choose|t: int| #[trigger] boots_at(disk, t, x);
        if s < t {
            assert(spine::boot_class(disk[s], s as u64) is Valid);
        }
        if t < s {
            assert(spine::boot_class(disk[t], t as u64) is Valid);
        }
    }
}

/// Law: a ring that was cleared holds zeros in every slot, and nothing else was touched.
pub proof fn law_cleared_ring_holds_no_entry(
    was: Seq<Seq<u8>>,
    now: Seq<Seq<u8>>,
    base: int,
    ring: u8,
    s: int,
)
    requires
        cleared(was, now, base, base + pow2(ring as nat)),
        0 <= base,
    ensures
        0 <= s < pow2(ring as nat) ==> now[base + s] == block::zeros() && class_at(
            now,
            base,
            ring,
            s,
        ) is Empty,
        0 <= s < was.len() && !(base <= s < base + pow2(ring as nat)) ==> now[s] == was[s],
        now.len() == was.len(),
{
}

/// Law: a generation is recorded exactly where the slot that it comes to holds an entry of that generation.
pub proof fn law_generation_is_recorded_at_its_slot<A: BlockDev, B: BlockDev>(
    r: &Ring<A, B>,
    g: int,
    e: SpineView,
)
    ensures
        r.recorded(g) == Some(e) <==> e.gen == g && class_at(
            r.disk(),
            r.start() as int,
            r.exponent(),
            g % r.slots(),
        ) == ClassView::Valid(e),
{
}

}
