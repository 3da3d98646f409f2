//! What the vault promises across calls, crashes and openings.
use vstd::prelude::*;
use vstd::arithmetic::div_mod::*;
use vstd::arithmetic::power2::*;
use crate::block;
use crate::block::BlockDev;
use crate::error::Result;
use crate::hamt;
use crate::keep;
use crate::mirror::Mirror;
use crate::mooring;
use crate::ring;
use crate::root;
use crate::seal;
use crate::spine;
use crate::spine::SpineView;
use crate::standing;
use crate::standing::VaultView;
use crate::tract;
use crate::trie;
use crate::vault;

verus! {

/// Law: a vault that is opened from what a vault in working order left on disk answers exactly what
/// was durable.
pub proof fn law_reopened_vault_answers_what_was_durable(w: VaultView, v: VaultView)
    requires
        w.well(),
        w.guarded(),
        mooring::moored(w),
        vault::opened(w.disk, v),
    ensures
        v.hale(),
        v.contents() == w.durable(),
        v.durable() == w.durable(),
{
    let (r, top) = choose|r: Option<crate::root::RootView>, top: (u64, SpineView)| #[trigger]
        vault::opened_by(w.disk, v, r, top);
    mooring::lemma_led_home(w, v.exponent, v.tract.base as int, r, top);
    let c = standing::index_of(w.head());
    let base = w.tract.base as int;
    standing::lemma_ground_longer(
        w.disk,
        base,
        w.head().tract as nat,
        w.tract.len as nat,
        c,
    );
    let t = vault::ground_of(w.disk, base, w.head());
    assert(keep::sound(t, c)) by {
        assert forall|k: Seq<u8>| k.len() == 32 implies (#[trigger] c.path(t, k)).sound() by {
            assert(c.path(w.ground(), k).sound());
        }
    }
}

/// Law: opening is recovering. What a vault in working order left on devices that do not fail, and that
/// hold the tract which its head commits to, opens again.
pub proof fn law_durable_vault_opens_again<A: BlockDev, B: BlockDev>(
    w: VaultView,
    mirror: &Mirror<A, B>,
)
    requires
        w.guarded(),
        vault::left_by(mirror, w),
    ensures
        vault::openable(mirror, w),
{
    let c = standing::index_of(w.head());
    let base = w.tract.base as int;
    standing::lemma_ground_longer(
        w.disk,
        base,
        w.head().tract as nat,
        w.tract.len as nat,
        c,
    );
    let t = vault::ground_of(w.disk, base, w.head());
    assert(keep::sound(t, c)) by {
        assert forall|k: Seq<u8>| k.len() == 32 implies (#[trigger] c.path(t, k)).sound() by {
            assert(c.path(w.ground(), k).sound());
        }
    }
}

/// Whether a disk differs from a vault's only where the vault may append.
pub open spec fn torn(w: VaultView, disk: Seq<Seq<u8>>) -> bool {
    &&& tract::kept_around(w.disk, disk, w.tract.base as int, w.tract.len as int)
    &&& tract::kept_outside(
        w.ground(),
        w.tract.on(disk),
        w.tract.plow as int,
        w.tract.reach(),
    )
}

/// A vault over another disk.
pub open spec fn over(w: VaultView, disk: Seq<Seq<u8>>) -> VaultView {
    VaultView { disk, ..w }
}

/// Law: whatever a power loss leaves of appends that were under way, the disk leads to the same head,
/// and what was durable is durable.
pub proof fn law_torn_appends_lose_nothing(w: VaultView, disk: Seq<Seq<u8>>)
    requires
        w.well(),
        w.guarded(),
        mooring::moored(w),
        torn(w, disk),
    ensures
        over(w, disk).well(),
        over(w, disk).guarded(),
        mooring::moored(over(w, disk)),
        over(w, disk).durable() == w.durable(),
{
    let x = over(w, disk);
    standing::lemma_guard_step(w, x);
    assert(mooring::same_below(w.disk, disk, w.tract.base as int));
    mooring::lemma_moored_below(w, x);
}

/// Law: whatever a power loss leaves of appends that were under way, the vault opens again.
pub proof fn law_torn_vault_opens_again<A: BlockDev, B: BlockDev>(
    w: VaultView,
    disk: Seq<Seq<u8>>,
    mirror: &Mirror<A, B>,
)
    requires
        w.well(),
        w.guarded(),
        mooring::moored(w),
        torn(w, disk),
        mirror.disk() == disk,
        mirror.reliable(),
        0 < w.head().tract,
        w.head().plow + w.head().tract <= u64::MAX,
        mirror.second() is Some ==> w.tract.base + w.head().tract <= mirror.second()->0.len(),
    ensures
        vault::openable(mirror, over(w, disk)),
{
    law_torn_appends_lose_nothing(w, disk);
    law_durable_vault_opens_again(over(w, disk), mirror);
}

/// A vault over its disk with a block in the slot of the next generation.
pub open spec fn with_slot(w: VaultView, b: Seq<u8>) -> VaultView {
    over(w, w.disk.update(w.start + (w.head().gen + 1) % w.slots(), b))
}

/// Whether a block is no entry that an opening would take for one.
pub open spec fn unreadable(w: VaultView, b: Seq<u8>) -> bool {
    &&& !(spine::class_of(b, ((w.head().gen + 1) % w.slots()) as u64, Some(w.exponent)) is Valid)
    &&& root::root_of(b) is Err
}

/// Law: a spine entry that a power loss left unreadable loses nothing: the disk leads to the head
/// before it, and what was durable is durable. (A ring at block 0 must keep one readable low slot.)
pub proof fn law_torn_commit_loses_nothing(w: VaultView, b: Seq<u8>)
    requires
        w.well(),
        w.guarded(),
        mooring::moored(w),
        unreadable(w, b),
        w.root is None ==> ring::boots(with_slot(w, b).disk, w.exponent),
    ensures
        with_slot(w, b).well(),
        with_slot(w, b).guarded(),
        mooring::moored(with_slot(w, b)),
        with_slot(w, b).durable() == w.durable(),
{
    let n = w.slots();
    let g = w.head().gen as int;
    let s = (g + 1) % n;
    let x = with_slot(w, b);
    lemma_pow2_pos(w.exponent as nat);
    lemma_mod_bound(g + 1, n);
    lemma_mod_bound(g, n);
    assert(vault::spine_only(w, x));
    vault::lemma_spine_only(w, x);
    assert(x.durable() == w.durable());
    lemma_next_slot(g, w.exponent);
    match w.root {
        None => {
            mooring::lemma_torn_fixed(w, x, s, b);
        },
        Some(r) => {
            mooring::lemma_torn_slot(w, x, s);
        },
    }
}

/// The slot of the next generation is not that of this one.
proof fn lemma_next_slot(g: int, ring: u8)
    requires
        0 < ring <= 32,
        0 <= g,
    ensures
        (g + 1) % (pow2(ring as nat) as int) != g % (pow2(ring as nat) as int),
{
    let n = pow2(ring as nat) as int;
    lemma2_to64();
    if ring > 1 {
        lemma_pow2_strictly_increases(1, ring as nat);
    }
    lemma_fundamental_div_mod(g, n);
    lemma_mod_bound(g, n);
    let q = g / n;
    let m = g % n;
    if m + 1 == n {
        assert(g + 1 == (q + 1) * n + 0) by (nonlinear_arith)
            requires
                g == n * q + m,
                m + 1 == n,
        ;
        lemma_fundamental_div_mod_converse(g + 1, n, q + 1, 0);
    } else {
        assert(g + 1 == q * n + (m + 1)) by (nonlinear_arith)
            requires
                g == n * q + m,
        ;
        lemma_fundamental_div_mod_converse(g + 1, n, q, m + 1);
    }
}

/// Law: a value that was put under a key is what the key then answers; it is durable; and where the
/// vault answered nothing that was not durable, every other key answers what it answered.
pub proof fn law_put_is_read_back(
    v0: VaultView,
    v1: VaultView,
    key: Seq<u8>,
    value: Seq<u8>,
    r: Result<()>,
)
    requires
        v0.hale(),
        vault::put_done(v0, v1, key, value, r),
        r is Ok,
    ensures
        v1.contents().contains_pair(key, value),
        v1.durable().contains_pair(key, value),
        v0.contents() == v0.durable() ==> forall|k: Seq<u8>|
            k != key ==> (#[trigger] v1.contents().contains_key(k) == v0.contents().contains_key(k))
                && (v0.contents().contains_key(k) ==> v1.contents()[k] == v0.contents()[k]),
{
}

/// Law: a value whose put succeeded survives a power loss during whatever is appended next: any vault
/// that is opened from the disk then answers it.
pub proof fn law_put_survives_power_loss(
    v0: VaultView,
    v1: VaultView,
    key: Seq<u8>,
    value: Seq<u8>,
    r: Result<()>,
    disk: Seq<Seq<u8>>,
    v2: VaultView,
)
    requires
        v0.hale(),
        vault::put_done(v0, v1, key, value, r),
        r is Ok,
        mooring::moored(v1),
        torn(v1, disk),
        vault::opened(disk, v2),
    ensures
        v2.hale(),
        v2.contents().contains_pair(key, value),
        v2.contents() == v1.durable(),
{
    law_put_is_read_back(v0, v1, key, value, r);
    law_torn_appends_lose_nothing(v1, disk);
    law_reopened_vault_answers_what_was_durable(over(v1, disk), v2);
}

/// Law: a key whose deletion succeeded is absent, durably; every other key answers what it answered.
pub proof fn law_deleted_key_is_absent(
    v0: VaultView,
    v1: VaultView,
    key: Seq<u8>,
    r: Result<bool>,
)
    requires
        v0.hale(),
        vault::delete_done(v0, v1, key, r),
        r is Ok,
    ensures
        !v1.contents().contains_key(key),
        r matches Ok(true) ==> !v1.durable().contains_key(key),
        forall|k: Seq<u8>|
            k != key ==> (#[trigger] v1.contents().contains_key(k) == v0.contents().contains_key(k))
                && (v0.contents().contains_key(k) ==> v1.contents()[k] == v0.contents()[k]),
{
}

/// Law: the fence keeps every generation of the window restorable. An entry whose index was in
/// working order, with nothing of it before its budget, answers what it answered after any appends
/// under a fence that does not exceed the budget.
pub proof fn law_fenced_generation_stands(v0: VaultView, v1: VaultView, e: SpineView)
    requires
        v0.well(),
        keep::fit(
            v0.ground(),
            standing::index_of(e),
            v0.tract.plow as int,
            e.budget(),
        ),
        v0.tract.plow <= e.budget(),
        v0.tract.fence_limit matches Some(f) && f <= e.budget(),
        v1.tract.plowed(&v0.tract),
        tract::kept_outside(
            v0.ground(),
            v1.ground(),
            v0.tract.plow as int,
            v0.tract.reach(),
        ),
    ensures
        standing::book(v1.ground(), standing::index_of(e)) == standing::book(
            v0.ground(),
            standing::index_of(e),
        ),
        keep::fit(
            v1.ground(),
            standing::index_of(e),
            v1.tract.plow as int,
            e.budget(),
        ),
{
    vault::lemma_fenced_stands(v0, v1, e);
}

/// Law: once K generations exist, the fence of a commit exceeds the budget of none of the last K.
pub proof fn law_fence_is_within_every_budget(v: VaultView, i: int)
    requires
        0 <= i < ring::FENCE_K,
        v.head().gen + 1 >= ring::FENCE_K,
    ensures
        vault::fenced_by(vault::fence_of(vault::budgets(v)), v.shield) <= vault::budget_at(
            v,
            v.head().gen - i,
        ),
{
    let b = vault::budgets(v);
    vault::lemma_least(b, i);
    assert(b[i] == vault::budget_at(v, v.head().gen - i));
}

/// Law: a value whose put succeeded survives an immediate reopening: any vault that is opened from the
/// disk answers it, and answers nothing that was not durable.
pub proof fn law_put_survives_reopening(
    v0: VaultView,
    v1: VaultView,
    key: Seq<u8>,
    value: Seq<u8>,
    r: Result<()>,
    v2: VaultView,
)
    requires
        v0.hale(),
        vault::put_done(v0, v1, key, value, r),
        r is Ok,
        mooring::moored(v1),
        vault::opened(v1.disk, v2),
    ensures
        v2.hale(),
        v2.contents().contains_pair(key, value),
        v2.contents() == v1.durable(),
{
    assert(torn(v1, v1.disk));
    law_put_survives_power_loss(v0, v1, key, value, r, v1.disk, v2);
}

/// Law: a generation that a commit recorded is restorable, once K generations exist.
pub proof fn law_committed_generation_is_restorable(v: VaultView)
    requires
        v.well(),
        v.good(),
        vault::records(v),
        v.head().gen + 1 >= ring::FENCE_K,
        vault::entry_at(v, v.head().gen as int) == Some(v.head()),
        v.tract.fence_limit == Some(
            vault::fenced_by(vault::fence_of(vault::budgets(v)), v.shield),
        ),
    ensures
        vault::restorable(v, v.head().gen as int),
{
    let b = vault::budgets(v);
    vault::lemma_least(b, 0);
    assert(b[0] == vault::budget_at(v, v.head().gen as int));
}

/// Law: the last K generations stay restorable. Where those from `g` on are, they are after any
/// commit, reap or put that keeps the window, however often the spine is appended to meanwhile: as
/// long as a generation is among the last K, its entry is in the ring and answers what it answered.
pub proof fn law_last_generations_stay_restorable(
    v0: VaultView,
    v1: VaultView,
    g: int,
    x: int,
    e: SpineView,
)
    requires
        vault::settled_spine(v0),
        v0.hale(),
        v0.sure,
        vault::windowed(v0, v1),
        vault::restorable(v0, g),
        0 <= x,
        g <= x,
        v1.head().gen - ring::FENCE_K < x <= v0.head().gen,
        vault::entry_at(v0, x) == Some(e),
    ensures
        vault::restorable(v1, g),
        vault::entry_at(v1, x) == Some(e),
        standing::book(v1.ground(), standing::index_of(e)) == standing::book(
            v0.ground(),
            standing::index_of(e),
        ),
{
    reveal(vault::keeps_window);
    assert(vault::window_kept(v0, v1, g));
    assert(vault::entry_at(v1, x) == vault::entry_at(v0, x));
}

/// Law: after a reap, and a flush or whatever else keeps the index clear of clean space, nothing that
/// can be reached is left in the window: no path reads a block between where the reap stood and where
/// it stands.
pub proof fn law_reaped_window_is_not_read(
    t: Seq<Seq<u8>>,
    ix: hamt::Index,
    after: &tract::Tract,
    was: int,
    p: u64,
)
    requires
        after.wf(),
        t.len() == after.len,
        keep::fit(t, ix, after.plow as int, after.reap + after.len),
        after.plow - after.len <= was <= after.reap,
        p < after.len,
        tract::in_strip(p as int, was, after.reap as int, after.len as int),
    ensures
        hamt::unread(t, ix, p),
{
    let len = after.len as int;
    tract::lemma_strip_lap(p as int, was, after.reap as int, len);
    tract::lemma_strip_tail(
        p as int,
        after.plow as int,
        was + len,
        after.reap + len,
        len,
    );
    assert forall|k: Seq<u8>| k.len() == 32 implies !(#[trigger] ix.path(t, k)).reads.contains(p) by {
        if ix.path(t, k).reads.contains(p) {
            assert(!tract::in_strip(p as int, after.plow as int, after.reap + len, len));
        }
    }
}

/// Whether a disk is an intact one but for blocks whose seals fail, of which another disk has the copies.
pub open spec fn scarred(
    intact: Seq<Seq<u8>>,
    disk: Seq<Seq<u8>>,
    second: Seq<Seq<u8>>,
) -> bool {
    &&& disk.len() == intact.len()
    &&& forall|i: int|
        0 <= i < disk.len() && (#[trigger] disk[i]) != intact[i] ==> {
            &&& disk[i] != block::zeros()
            &&& seal::hp_of(disk[i]) is None
            &&& i < second.len() && second[i] == intact[i]
            &&& seal::hp_of(intact[i]) is Some
        }
}

/// Law: a block whose seal fails is routed around, and the mirror's copy is read. Whatever a key found
/// before blocks of the first device were damaged, it finds after, as long as the second device has
/// the copies.
pub proof fn law_damaged_block_is_read_from_the_mirror(
    v: VaultView,
    intact: Seq<Seq<u8>>,
    second: Seq<Seq<u8>>,
    key: Seq<u8>,
)
    requires
        v.index.wf(),
        scarred(intact, v.disk, second),
        key.len() == 32,
        v.index.path(v.tract.on(intact), key).found is Ok,
    ensures
        hamt::healed(
            v.ground(),
            v.tract.on(vault::mended_by(v.disk, Some(second))),
            v.tract.on(vault::mended_to(v.disk, Some(second))),
            v.index,
            key,
        ) == v.index.path(v.tract.on(intact), key).found,
{
    let ix = v.index;
    let t = v.tract.on(intact);
    let d = v.ground();
    let m = v.tract.on(vault::mended_by(v.disk, Some(second)));
    hamt::lemma_found_reads(t, ix.arena, ix.root, key, 0);
    let r = ix.path(t, key).reads;
    assert(trie::same_at(t, m, r)) by {
        assert forall|p: u64| #[trigger] r.contains(p) && p < t.len() implies t[p as int]
            == m[p as int] by {
            assert(trie::walk(t, ix.arena, ix.root, key, 0).reads.contains(p));
            let i = v.tract.base + p;
            if i < v.disk.len() && v.disk[i] != intact[i] {
            }
        }
    }
    trie::law_path_depends_on_its_reads(t, m, ix.arena, ix.arena, ix.root, key, 0);
    if ix.path(d, key).found is Ok {
        hamt::lemma_found_reads(d, ix.arena, ix.root, key, 0);
        let s = ix.path(d, key).reads;
        assert(trie::same_at(d, m, s)) by {
            assert forall|p: u64| #[trigger] s.contains(p) && p < d.len() implies d[p as int]
                == m[p as int] by {
                assert(trie::walk(d, ix.arena, ix.root, key, 0).reads.contains(p));
            }
        }
        trie::law_path_depends_on_its_reads(d, m, ix.arena, ix.arena, ix.root, key, 0);
    }
}

/// Law: the spine stays in a residence for as many generations as the root entry's residency times the
/// slots of the ring, and then hops to the residence behind it, or from the last to the first. The root
/// entry that says so follows the one before, and keeps the band as it is.
pub proof fn law_spine_hops_after_its_residency(v0: VaultView, v1: VaultView, now: i64, x: root::RootView)
    requires
        v0.well(),
        vault::resides(v0, v1, now),
        v0.root == Some(x),
        x.residency > 0,
        x.gen < u64::MAX,
        x.residency * pow2(v0.exponent as nat) <= u64::MAX,
    ensures
        v1.head().gen < x.since + x.residency * pow2(v0.exponent as nat) ==> v1.root == Some(x)
            && v1.start == v0.start,
        v1.head().gen >= x.since + x.residency * pow2(v0.exponent as nat) ==> (v1.root matches Some(
            y,
        ) && {
            &&& y.gen == x.gen + 1
            &&& y.prev == root::root_hash(x)
            &&& y.at == v1.start
            &&& y.was == v0.start
            &&& v1.head().gen < u64::MAX ==> y.since == v1.head().gen + 1
            &&& y.residency == x.residency
            &&& y.residences == x.residences
            &&& y.ring == x.ring
            &&& y.time == now
            &&& (v0.start - 4) % v0.slots() == 0 ==> v1.start == (if v0.start + 2 * v0.slots()
                <= v0.tract.base {
                v0.start + v0.slots()
            } else {
                4
            })
        }),
{
    vstd::arithmetic::power2::lemma_pow2_pos(v0.exponent as nat);
    assert(x.residency * pow2(v0.exponent as nat) > 0) by (nonlinear_arith)
        requires
            x.residency > 0,
            pow2(v0.exponent as nat) > 0,
    ;
    mooring::lemma_next_residence(x, v0.start as int);
    if (v0.start - 4) % v0.slots() == 0 {
        mooring::law_residences_take_turns(x, v0.start as int);
    }
}

/// Law: on the fixed layout the spine stays where it is.
pub proof fn law_fixed_spine_stays(v0: VaultView, v1: VaultView, now: i64)
    requires
        vault::resides(v0, v1, now),
        v0.root is None,
    ensures
        v1.root is None,
        v1.start == v0.start,
{
}

/// Law: a commit records the vault as it is. The head has the tract's length and cursors, the index that the
/// vault answers from, and as many live blocks as there are; it is dated, it is newer than the one before,
/// and it names the hash of an entry that asserts what that one did.
pub proof fn law_commit_records_the_vault(v0: VaultView, v1: VaultView, now: i64)
    requires
        vault::commit_done(v0, v1, Ok(())),
        vault::chained(v0, v1, now),
    ensures
        v1.head().gen > v0.head().gen,
        v1.head().tract == v1.tract.len,
        v1.head().plow == v1.tract.plow,
        v1.head().reap == Some(v1.tract.reap),
        v1.head().ring == v1.exponent,
        v1.live.dom().finite(),
        v1.head().live == v1.live.dom().len(),
        v1.index == hamt::committed_index(v1.head().hamt, v1.head().hamtat),
        v1.head().time == now,
        v1.tract.len == v0.tract.len,
        v1.tract.reap == v0.tract.reap,
        v1.tract.reap + v1.tract.len <= u64::MAX ==> v1.shield == v1.tract.reap + v1.tract.len,
        v1.head().gen == v0.head().gen + 1 ==> v1.head().prev == spine::spine_hash(v0.head()),
        exists|p: SpineView|
            p.gen + 1 == v1.head().gen && v1.head().prev == #[trigger] spine::spine_hash(p)
                && p.hamt == v0.head().hamt && p.hamtat == v0.head().hamtat && p.tract
                == v0.head().tract && p.plow == v0.head().plow && p.reap == v0.head().reap,
{
    let p = choose|p: SpineView|
        p.gen + 1 == v1.head().gen && #[trigger] vault::asserts_again(v0.head(), p)
            && v1.head().prev == spine::spine_hash(p) && (v1.head().gen == v0.head().gen + 1 ==> p
            == v0.head());
    assert(spine::spine_hash(p) == v1.head().prev);
}

/// Law: a heartbeat asserts the head again under the next number: the same root, geometry and cursors.
pub proof fn law_heartbeat_changes_nothing(h: SpineView, ring: u8, live: u64, now: i64)
    requires
        h.gen < u64::MAX,
    ensures
        ({
            let b = vault::heartbeat(h, ring, live, now);
            &&& b.gen == h.gen + 1
            &&& b.prev == spine::spine_hash(h)
            &&& b.hamt == h.hamt && b.hamtat == h.hamtat
            &&& b.tract == h.tract && b.plow == h.plow && b.reap == h.reap
            &&& b.budget() == h.budget()
            &&& b.ring == ring && b.live == live && b.time == now
        }),
{
}

/// The smallest of some numbers is one of them.
proof fn lemma_least_is_one(s: Seq<u64>)
    requires
        s.len() > 0,
    ensures
        vault::least(s) matches Some(x) && s.contains(x),
    decreases s.len(),
{
    assert(s[s.len() - 1] == s.last());
    if s.len() > 1 {
        let less = s.drop_last();
        lemma_least_is_one(less);
        let x = vault::least(less)->0;
        let i = choose|i: int| 0 <= i < less.len() && less[i] == x;
        assert(s[i] == x);
    }
}

/// Law: the fence is the smallest budget of the last four generations. There is none while there are fewer;
/// else it exceeds none of the four budgets, and is one of them. What an entry that stands at its slot
/// grants is the end of what was clean when it was written: its reap and a lap.
pub proof fn law_fence_is_the_smallest_of_four_budgets(v: VaultView)
    ensures
        v.head().gen < 3 ==> vault::fence_of(vault::budgets(v)) is None,
        v.head().gen >= 3 ==> (vault::fence_of(vault::budgets(v)) matches Some(f) && {
            &&& forall|x: int|
                v.head().gen - 4 < x <= v.head().gen ==> f <= #[trigger] vault::budget_at(v, x)
            &&& exists|x: int|
                v.head().gen - 4 < x <= v.head().gen && f == #[trigger] vault::budget_at(v, x)
        }),
        forall|x: int|
            ((#[trigger] vault::entry_at(v, x)) matches Some(e) && (e.reap matches Some(r) && r
                + e.tract <= u64::MAX)) ==> vault::budget_at(v, x) == vault::entry_at(
                v,
                x,
            )->0.reap->0 + vault::entry_at(v, x)->0.tract,
        forall|x: int| #[trigger]
            vault::entry_at(v, x) is None ==> vault::budget_at(v, x) == 0,
{
    let b = vault::budgets(v);
    let g = v.head().gen as int;
    if g >= 3 {
        assert(b.len() == 4);
        lemma_least_is_one(b);
        let f = vault::least(b)->0;
        assert forall|x: int| g - 4 < x <= g implies f <= #[trigger] vault::budget_at(v, x) by {
            vault::lemma_least(b, g - x);
            assert(b[g - x] == vault::budget_at(v, x));
        }
        let i = choose|i: int| 0 <= i < b.len() && b[i] == f;
        assert(b[i] == vault::budget_at(v, g - i));
    }
}

/// Law: after a commit on the fixed layout appends stop at the fence, or at the end of clean space where that
/// comes first.
pub proof fn law_commit_sets_the_fence(v0: VaultView, v1: VaultView)
    requires
        vault::commit_done(v0, v1, Ok(())),
        v0.root is None,
    ensures
        v1.tract.fence_limit matches Some(l) && {
            &&& l <= v1.shield
            &&& l == v1.shield || vault::fence_of(vault::budgets(v1)) == Some(l)
            &&& vault::fence_of(vault::budgets(v1)) matches Some(f) ==> l <= f
        },
{
}

/// Law: a tract that grew goes on at its first new block. Its plow is the smallest total not before the old
/// one that stands there, and then exactly the new blocks are clean.
pub proof fn law_grown_tract_goes_on_at_its_new_blocks(
    v0: VaultView,
    v1: VaultView,
    len: u64,
    x: int,
)
    requires
        v0.well(),
        vault::grow_done(v0, v1, len, Ok(())),
        v0.tract.len < len,
        len <= u64::MAX - v0.tract.base,
    ensures
        v1.tract.len == len,
        v1.tract.base + len <= v1.disk.len(),
        v1.head().gen > v0.head().gen,
        v1.head().tract == len,
        v0.head().plow <= v1.tract.reap + v0.tract.len,
        (v1.tract.reap + v0.tract.len) % (len as int) == v0.tract.len,
        v0.head().plow <= x && x % (len as int) == v0.tract.len ==> v1.tract.reap + v0.tract.len
            <= x,
        v1.tract.reap + v0.tract.len <= v1.tract.plow,
        vault::can_grow(v0, len) ==> v1.tract.plow == v1.tract.reap + v0.tract.len && v1.head().gen
            == v0.head().gen + 1,
{
    let n = v0.tract.len as int;
    let m = len as int;
    let plow = v0.head().plow as int;
    let at = vault::realigned(plow, n, m);
    lemma_mod_bound(n - plow, m);
    lemma_add_mod_noop(plow, (n - plow) % m, m);
    lemma_mod_twice(n - plow, m);
    lemma_add_mod_noop(plow, n - plow, m);
    lemma_small_mod(n as nat, m as nat);
    assert(at % m == n);
    if plow <= x && x % m == n && x < at {
        lemma_mod_equivalence(at, x, m);
        lemma_small_mod((at - x) as nat, m as nat);
    }
}

/// Law: how much a reap takes up at once is the most that is still a window, is occupied, and leaves a reserve
/// of four in the clean space that would host it all. A window is a sixty-fourth of the tract, and at
/// least sixteen blocks.
pub proof fn law_reap_takes_the_largest_window_that_fits(v: VaultView, w: int)
    requires
        v.well(),
    ensures
        vault::window_span(v) >= 16,
        vault::window_span(v) * 64 > v.tract.len - 64,
        vault::window_span(v) == 16 || vault::window_span(v) * 64 <= v.tract.len,
        0 <= vault::window_ahead(v) <= vault::window_span(v),
        vault::window_ahead(v) <= v.tract.plow - v.tract.reap,
        vault::window_ahead(v) > 0 ==> vault::window_ahead(v) + 4 <= v.tract.len - (v.tract.plow
            - v.tract.reap),
        0 <= w <= vault::window_span(v) && w <= v.tract.plow - v.tract.reap && w + 4 <= v.tract.len
            - (v.tract.plow - v.tract.reap) ==> w <= vault::window_ahead(v),
{
}

/// Law: the sweep after a commit waits until more than a quarter of the tract is dead: occupied and not live.
/// Until then it changes nothing; then it reaps a window that is dead for sure. It never changes what the
/// vault answers.
pub proof fn law_sweep_waits_for_a_quarter(v: VaultView, v1: VaultView, ok: bool, unhashed: bool)
    requires
        v.well(),
        vault::swept(v, v1, ok, unhashed),
    ensures
        4 * (v.tract.plow - v.tract.reap - v.live.dom().len()) <= v.tract.len ==> ok && v1 == v,
        4 * (v.tract.plow - v.tract.reap - v.live.dom().len()) > v.tract.len && vault::reaps_dead(v)
            ==> ok && v1.tract.reap > v.tract.reap && v1.tract.reap == v.tract.reap
            + vault::window_ahead(v),
        4 * (v.tract.plow - v.tract.reap - v.live.dom().len()) > v.tract.len && vault::reaps_live(v)
            ==> v1.tract.reap > v.tract.reap,
        v.hale() ==> v1.contents() == v.contents(),
{
}

/// Law: a batch leaves every entry readable. Where no key is named twice, what was written over what the
/// vault answered holds each entry of the batch, whether it was already there or not, and under every
/// other key what was there.
#[verifier::rlimit(40)]
pub proof fn law_batch_holds_every_entry(v0: VaultView, items: Seq<(Seq<u8>, Seq<u8>)>)
    requires
        forall|i: int, j: int|
            0 <= i < j < items.len() ==> (#[trigger] items[i]).0 != (#[trigger] items[j]).0,
    ensures
        forall|i: int|
            0 <= i < items.len() ==> {
                &&& vault::written(v0.contents(), vault::fresh(v0, items)).contains_pair(
                    (#[trigger] items[i]).0,
                    items[i].1,
                )
                &&& vault::written(v0.durable(), vault::fresh(v0, items)).contains_pair(
                    items[i].0,
                    items[i].1,
                )
            },
        forall|k: Seq<u8>|
            (forall|i: int| 0 <= i < items.len() ==> (#[trigger] items[i]).0 != k) ==> {
                &&& #[trigger] vault::written(v0.contents(), vault::fresh(v0, items)).contains_key(k)
                    == v0.contents().contains_key(k)
                &&& vault::written(v0.contents(), vault::fresh(v0, items))[k] == v0.contents()[k]
                &&& vault::written(v0.durable(), vault::fresh(v0, items)).contains_key(k)
                    == v0.durable().contains_key(k)
                &&& vault::written(v0.durable(), vault::fresh(v0, items))[k] == v0.durable()[k]
            },
    decreases items.len(),
{
    if items.len() > 0 {
        let less = items.drop_last();
        let x = items.last();
        assert(forall|i: int| 0 <= i < less.len() ==> less[i] == #[trigger] items[i]);
        assert(items[items.len() - 1] == x);
        law_batch_holds_every_entry(v0, less);
        let few = vault::fresh(v0, less);
        let all = vault::fresh(v0, items);
        if all != few {
            assert(all == few.push(x));
            assert(all.drop_last() =~= few);
        }
        assert forall|i: int| 0 <= i < less.len() implies (#[trigger] less[i]).0 != x.0 by {
            assert(items[i].0 != items[items.len() - 1].0);
        }
        assert(vault::written(v0.contents(), few).contains_key(x.0) == v0.contents().contains_key(
            x.0,
        ));
        assert forall|i: int| 0 <= i < items.len() implies {
            &&& vault::written(v0.contents(), all).contains_pair((#[trigger] items[i]).0, items[i].1)
            &&& vault::written(v0.durable(), all).contains_pair(items[i].0, items[i].1)
        } by {
            if i < less.len() {
                assert(less[i].0 != x.0);
            }
        }
        assert forall|k: Seq<u8>|
            (forall|i: int| 0 <= i < items.len() ==> (#[trigger] items[i]).0 != k) implies {
            &&& #[trigger] vault::written(v0.contents(), all).contains_key(k)
                == v0.contents().contains_key(k)
            &&& vault::written(v0.contents(), all)[k] == v0.contents()[k]
            &&& vault::written(v0.durable(), all).contains_key(k) == v0.durable().contains_key(k)
            &&& vault::written(v0.durable(), all)[k] == v0.durable()[k]
        } by {
            assert(items[items.len() - 1].0 != k);
            assert forall|i: int| 0 <= i < less.len() implies (#[trigger] less[i]).0 != k by {
                assert(items[i].0 != k);
            }
            assert(vault::written(v0.contents(), few).contains_key(k) == v0.contents().contains_key(
                k,
            ));
        }
    }
}

/// Law: a vault that has just been founded is empty. Its first generation is dated and names nothing before
/// it; the tract takes up all that the ring, or the root slots and the band, leave of the device; and on
/// the migrating layout the spine begins in the first residence behind the four root slots.
pub proof fn law_founded_vault_is_empty(
    v: VaultView,
    ring: u8,
    residences: u64,
    residency: u64,
    count: nat,
    now: i64,
)
    requires
        vault::founded(v, ring, count, now) || vault::founded_band(
            v,
            ring,
            residences,
            residency,
            count,
            now,
        ),
    ensures
        forall|k: Seq<u8>| !#[trigger] v.contents().contains_key(k),
        forall|k: Seq<u8>| !#[trigger] v.durable().contains_key(k),
        v.exponent == ring,
        v.head().gen == 0,
        v.head().prev == block::zeros32(),
        v.head().hamt == block::zeros32(),
        v.head().live == 0,
        v.head().plow == 0,
        v.head().reap == Some(0u64),
        v.head().time == now,
        v.head().tract == v.tract.len,
        vault::founded(v, ring, count, now) ==> v.tract.len + pow2(ring as nat) == count,
        vault::founded_band(v, ring, residences, residency, count, now) ==> {
            &&& v.tract.len + 4 + residences * pow2(ring as nat) == count
            &&& v.root matches Some(r) && r.gen == 0 && r.prev == block::zeros32() && r.at == 4
                && r.was == 4 && r.since == 0 && r.residences == residences && r.residency
                == residency && r.ring == ring && r.time == now
        },
{
}

/// Law: an opening takes the newest entries. The root entry is one of the four slots' and none there is newer;
/// the head stands in the ring of the residence that it names, or, where that holds no entry, in that
/// of the one before; and no entry of that ring is newer. Without a root entry the ring begins at block 0.
pub proof fn law_opening_takes_the_newest_entries(
    disk: Seq<Seq<u8>>,
    ring: u8,
    base: int,
    r: Option<root::RootView>,
    top: (u64, SpineView),
)
    requires
        mooring::leads_to(disk, ring, base, r, top),
    ensures
        r matches Some(x) ==> {
            &&& x.gen % 4 < disk.len() && root::root_of(disk[x.gen as int % 4]) == Ok::<
                root::RootView,
                crate::error::ErrorView,
            >(x)
            &&& forall|s: int|
                0 <= s < 4 && s < disk.len() ==> (root::root_of(#[trigger] disk[s]) matches Ok(y)
                    ==> y.gen % 4 != s || y.gen <= x.gen)
            &&& base == 4 + x.residences * pow2(x.ring as nat)
            &&& ring == x.ring
            &&& exists|b: int|
                {
                    &&& #[trigger] ring::class_at(disk, b, ring, top.0 as int)
                        == spine::ClassView::Valid(top.1)
                    &&& forall|s: int|
                        0 <= s < pow2(ring as nat) ==> ((#[trigger] ring::class_at(disk, b, ring, s))
                            matches spine::ClassView::Valid(f) ==> f.gen <= top.1.gen)
                    &&& b == x.at || (b == x.was && forall|s: int|
                        0 <= s < pow2(ring as nat) ==> !((#[trigger] ring::class_at(
                            disk,
                            x.at as int,
                            ring,
                            s,
                        )) is Valid))
                }
        },
        r is None ==> {
            &&& forall|s: int|
                0 <= s < 4 && s < disk.len() ==> (root::root_of(#[trigger] disk[s]) matches Ok(y)
                    ==> y.gen % 4 != s)
            &&& base == pow2(ring as nat)
            &&& ring::class_at(disk, 0, ring, top.0 as int) == spine::ClassView::Valid(top.1)
            &&& mooring::storied(disk, ring) ==> forall|s: int|
                0 <= s < pow2(ring as nat) ==> ((#[trigger] ring::class_at(disk, 0, ring, s))
                    matches spine::ClassView::Valid(f) ==> f.gen <= top.1.gen)
        },
{
    if let Some(x) = r {
        assert(root::root_at(disk, x.gen as int % 4) == Some(x));
        assert forall|s: int| 0 <= s < 4 && s < disk.len() implies (root::root_of(
            #[trigger] disk[s],
        ) matches Ok(y) ==> y.gen % 4 != s || y.gen <= x.gen) by {
            if let Some(y) = root::root_at(disk, s) {
                assert(y.gen <= x.gen);
            }
        }
        let b = if mooring::lodged(disk, x.at as int, ring, Some(top)) {
            x.at as int
        } else {
            x.was as int
        };
        assert(ring::class_at(disk, b, ring, top.0 as int) == spine::ClassView::Valid(top.1));
    } else {
        assert forall|s: int| 0 <= s < 4 && s < disk.len() implies (root::root_of(
            #[trigger] disk[s],
        ) matches Ok(y) ==> y.gen % 4 != s) by {
            assert(root::root_at(disk, s) is None);
        }
    }
}

/// Law: a vault is wedged exactly where, on the fixed layout, its fence leaves less than a reap window and two
/// reserves of four blocks to append.
pub proof fn law_wedged_vault_cannot_host_a_window(v: VaultView, f: u64)
    requires
        v.well(),
    ensures
        !vault::wedged(v, None),
        v.root is Some ==> !vault::wedged(v, Some(f)),
        v.root is None ==> (vault::wedged(v, Some(f)) <==> f < v.tract.plow + vault::window_span(v)
            + 8),
{
}

/// Law: a value has room where a vault in working order, on devices that do not fail, can append before its
/// fence the value's blocks, a leaf, a node for each level and what is dirty.
pub proof fn law_value_has_room_where_blocks_are_left(v: VaultView, key: Seq<u8>, n: nat)
    requires
        v.well(),
        v.hale(),
        v.sure,
        v.head().gen < u64::MAX,
        v.root matches Some(x) ==> x.gen < u64::MAX,
        v.tract.plow + crate::value::body_blocks(n) + 1 + 53 + v.index.dirt() <= v.tract.reap
            + v.tract.len,
        v.tract.fence_limit matches Some(f) ==> v.tract.plow + crate::value::body_blocks(n) + 1 + 53
            + v.index.dirt() <= f,
        v.tract.reap + v.tract.len <= u64::MAX,
        key.len() == 32,
    ensures
        vault::has_room(v, key, n),
{
    crate::edit::lemma_soiled(
        v.ground(),
        v.index.arena,
        v.index.arena,
        v.index.root,
        key,
        0,
    );
}


/// Law: the survivors of a window are its live blocks, each counted once. A window can be staged exactly where
/// it has none, or clean space holds them and a reserve of four.
pub proof fn law_survivors_are_the_live_blocks(v: VaultView, n: nat)
    requires
        v.well(),
    ensures
        vault::survivors(v, n) <= n,
        vault::survivors(v, n) == 0 <==> forall|i: int|
            0 <= i < n ==> !v.live.contains_key(
                (#[trigger] (v.tract.reap + i) % (v.tract.len as int)) as u64,
            ),
        vault::survivors(v, n) == n <==> forall|i: int|
            0 <= i < n ==> v.live.contains_key(
                (#[trigger] (v.tract.reap + i) % (v.tract.len as int)) as u64,
            ),
        vault::stageable(v, n) <==> vault::survivors(v, n) == 0 || v.tract.plow + vault::survivors(
            v,
            n,
        ) + 4 <= v.tract.reap + v.tract.len,
    decreases n,
{
    if n > 0 {
        law_survivors_are_the_live_blocks(v, (n - 1) as nat);
        let p = (v.tract.reap + (n - 1)) % (v.tract.len as int);
        assert(p == (v.tract.reap + n - 1) % (v.tract.len as int));
    }
}

/// Law: a deletion zeroes the leaf of the key and every furrow that it lists, and leaves every other block.
pub proof fn law_deletion_zeroes_the_leaf_and_its_furrows(
    v0: VaultView,
    v: VaultView,
    key: Seq<u8>,
    p: u64,
)
    requires
        v0.well(),
        vault::erased(v0, v, key),
        p < v0.tract.len,
    ensures
        v0.index.path(v0.ground(), key).leaf matches Ok(Some((lba, hash))) && (trie::doc_at(
            v0.ground(),
            lba,
            hash,
        ) matches Ok(Some(leaf)) && trie::leaf_key(leaf) == Some(key) && {
            &&& p == lba ==> v.ground()[p as int] == block::zeros()
            &&& trie::leaf_positions(leaf) matches Ok(ps) ==> {
                &&& ps.contains(p) ==> v.ground()[p as int] == block::zeros()
                &&& p != lba && !ps.contains(p) ==> v.ground()[p as int] == v0.ground()[p as int]
            }
        }),
        v.head() == v0.head(),
        v.tract == v0.tract,
        v.live == v0.live,
{
    if let Ok(Some((lba, hash))) = v0.index.path(v0.ground(), key).leaf {
        if let Ok(Some(leaf)) = trie::doc_at(v0.ground(), lba, hash) {
            if let Ok(ps) = trie::leaf_positions(leaf) {
                assert(trie::furrow_set(leaf).contains(p) <==> ps.contains(p));
            }
        }
    }
}

/// Law: a tract that is doubled is twice as long, as far as numbers go.
pub proof fn law_doubled_tract_is_twice_as_long(n: u64)
    ensures
        2 * n <= u64::MAX ==> vault::twice(n) == 2 * n,
        2 * n > u64::MAX ==> vault::twice(n) == u64::MAX,
{
}

/// Law: a commit has room where devices do not fail, generation numbers are left, and what is dirty can be
/// appended before the fence; it then goes through with the next generation, unless the root hashes to the
/// one value that stands for the empty index.
pub proof fn law_commit_goes_through_where_blocks_are_left(
    v0: VaultView,
    v1: VaultView,
    r: Result<()>,
)
    requires
        v0.well(),
        vault::commit_done(v0, v1, r),
        v0.sure,
        v0.head().gen < u64::MAX,
        v0.root matches Some(x) ==> x.gen < u64::MAX,
        v0.tract.plow + v0.index.dirt() <= u64::MAX,
        v0.tract.plow + v0.index.dirt() <= v0.tract.reap + v0.tract.len,
        v0.tract.fence_limit matches Some(f) ==> v0.tract.plow + v0.index.dirt() <= f,
    ensures
        r is Ok || (r matches Err(e) && e@ == vault::no_root_hash()),
        r is Ok ==> v1.head().gen == v0.head().gen + 1,
        v1.tract.plow <= v0.tract.plow + v0.index.dirt(),
{
    tract::law_refused_only_for_want_of_room(v0.tract, v0.index.dirt());
    assert(vault::roomy(v0));
}

/// Law: a deletion says whether the key was there, and has room where a node for each level and what is dirty
/// can be appended before the fence. The key is then gone for good, and no other.
pub proof fn law_deletion_goes_through_where_blocks_are_left(
    v0: VaultView,
    v1: VaultView,
    key: Seq<u8>,
    r: Result<bool>,
)
    requires
        v0.well(),
        vault::delete_done(v0, v1, key, r),
        v0.good(),
    ensures
        r matches Ok(found) ==> found == v0.contents().contains_key(key),
        v0.sure && !v0.contents().contains_key(key) ==> (r matches Ok(false)) && v1 == v0,
        v0.sure && v0.head().gen < u64::MAX && (v0.root matches Some(x) ==> x.gen < u64::MAX)
            && v0.tract.plow + 52 + v0.index.dirt() <= u64::MAX && v0.tract.plow + 52
            + v0.index.dirt() <= v0.tract.reap + v0.tract.len && (v0.tract.fence_limit matches Some(
            f,
        ) ==> v0.tract.plow + 52 + v0.index.dirt() <= f) && v0.contents().contains_key(key) ==> (
        r matches Err(e) && e@ == vault::no_root_hash()) || (v1.hale() && v1.durable()
            == v0.contents().remove(key)),
{
    crate::edit::lemma_soiled(
        v0.ground(),
        v0.index.arena,
        v0.index.arena,
        v0.index.root,
        key,
        0,
    );
}

/// Law: a batch has room where a vault in working order, on devices that do not fail, can append before its
/// fence, for each entry, its blocks, a leaf and a node for each level, and what is dirty.
pub proof fn law_batch_has_room_where_blocks_are_left(
    v: VaultView,
    items: Seq<(Seq<u8>, Seq<u8>)>,
    n: nat,
)
    requires
        v.well(),
        v.hale(),
        v.sure,
        v.head().gen < u64::MAX,
        v.root matches Some(x) ==> x.gen < u64::MAX,
        forall|i: int|
            0 <= i < items.len() ==> crate::value::body_blocks((#[trigger] items[i]).1.len()) <= n,
        v.tract.plow + items.len() * (n + 54) + v.index.dirt() <= u64::MAX,
        v.tract.plow + items.len() * (n + 54) + v.index.dirt() <= v.tract.reap + v.tract.len,
        v.tract.fence_limit matches Some(f) ==> v.tract.plow + items.len() * (n + 54)
            + v.index.dirt() <= f,
    ensures
        vault::has_room_for(v, items),
{
    lemma_bulk_bound(items, n);
}

proof fn lemma_bulk_bound(items: Seq<(Seq<u8>, Seq<u8>)>, n: nat)
    requires
        forall|i: int|
            0 <= i < items.len() ==> crate::value::body_blocks((#[trigger] items[i]).1.len()) <= n,
    ensures
        vault::bulk(items) <= items.len() * (n + 54),
    decreases items.len(),
{
    if items.len() > 0 {
        let less = items.drop_last();
        assert forall|i: int| 0 <= i < less.len() implies crate::value::body_blocks(
            (#[trigger] less[i]).1.len(),
        ) <= n by {
            assert(items[i].1 == less[i].1);
        }
        lemma_bulk_bound(less, n);
        assert(crate::value::body_blocks(items[items.len() - 1].1.len()) <= n);
        assert(items.len() * (n + 54) == less.len() * (n + 54) + (n + 54)) by (nonlinear_arith)
            requires
                items.len() == less.len() + 1,
        ;
    }
}

/// Law: a vault is founded wherever no device holds a sealed block or fails, and each is longer than the ring,
/// or the root slots and the band. A device that holds a sealed block is never formatted over.
pub proof fn law_only_blank_devices_are_formatted<A: BlockDev, B: BlockDev>(
    mirror: &Mirror<A, B>,
    n: int,
    i: int,
)
    ensures
        mirror.has_device() && (mirror.first() matches Some(d) ==> mirror.first_reliable() && n
            < d.len() && forall|j: int|
            0 <= j < d.len() ==> crate::seal::seal_of(#[trigger] d[j]) is None) && (
        mirror.second() matches Some(d) ==> mirror.second_reliable() && n < d.len() && forall|j: int|
            0 <= j < d.len() ==> crate::seal::seal_of(#[trigger] d[j]) is None)
            ==> vault::foundable(mirror, n),
        mirror.first() matches Some(d) ==> (0 <= i < d.len() && crate::seal::seal_of(d[i]) is Some
            ==> !vault::foundable(mirror, n) && vault::has_sealed(mirror.first())),
        mirror.second() matches Some(d) ==> (0 <= i < d.len() && crate::seal::seal_of(d[i]) is Some
            ==> !vault::foundable(mirror, n) && vault::has_sealed(mirror.second())),
        mirror.first() matches Some(d) ==> (d.len() <= n ==> !vault::foundable(mirror, n)),
{
}

/// Law: on a vault in working order, whose devices do not fail, a lookup finds exactly what the vault holds.
pub proof fn law_lookup_finds_what_the_vault_holds(
    v: VaultView,
    second: Option<Seq<Seq<u8>>>,
    both: bool,
    key: Seq<u8>,
    r: Result<Option<Vec<u8>>>,
)
    requires
        vault::answers(v, second, both, key, r),
        v.hale(),
        v.sure,
        key.len() == 32,
    ensures
        v.contents().contains_key(key) ==> (r matches Ok(Some(x)) && x@ == v.contents()[key]),
        !v.contents().contains_key(key) ==> (r matches Ok(None)),
{
    assert(v.index.path(v.ground(), key).sound());
    vault::lemma_sound_found(v.ground(), v.index.arena, v.index.root, key, 0);
}

/// Law: while a head is committed appends may go to the end of what was clean when it was written, and no
/// further than the shield.
pub proof fn law_own_fence_is_the_heads_budget(v: VaultView)
    ensures
        vault::own_fence(v) <= v.shield,
        vault::own_fence(v) <= v.head().budget() || v.head().budget() < 0,
        vault::own_fence(v) == v.shield || vault::own_fence(v) == v.head().budget()
            || v.head().budget() > u64::MAX,
{
}

/// Law: a commit goes through by heartbeats where what is dirty fits before the head's own budget, though the
/// older generations fence it.
pub proof fn law_heartbeats_carry_a_commit_through(v0: VaultView, v1: VaultView, r: Result<()>)
    requires
        vault::commit_done(v0, v1, r),
        v0.sure,
        2 <= v0.exponent <= 32,
        v0.head().gen + 8 < u64::MAX,
        v0.root matches Some(x) ==> x.gen < u64::MAX,
        v0.tract.plow + v0.index.dirt() <= v0.head().budget(),
        v0.tract.plow + v0.index.dirt() <= v0.shield,
        v0.tract.plow + v0.index.dirt() <= v0.tract.reap + v0.tract.len,
    ensures
        r is Ok || (r matches Err(e) && e@ == vault::no_root_hash()),
{
    assert(v0.tract.plow + v0.index.dirt() <= u64::MAX);
    assert(vault::committable(v0));
}

/// Law: a window is taken up as far as blocks are occupied.
pub proof fn law_window_is_taken_up_as_far_as_occupied(v: VaultView)
    ensures
        vault::window_used(v) <= v.tract.plow - v.tract.reap,
        vault::window_used(v) <= vault::window_span(v),
        vault::window_used(v) == v.tract.plow - v.tract.reap || vault::window_used(v)
            == vault::window_span(v),
{
}

/// Law: a repair gives up no key that could be read. Every key whose path was sound on the damaged disk answers
/// what it answered, durably where no value is of another size than it says; and the repair is a generation
/// of its own.
pub proof fn law_repair_gives_up_no_sound_key(
    disk: Seq<Seq<u8>>,
    v: VaultView,
    report: vault::RepairReport,
    r: Option<root::RootView>,
    top: (u64, SpineView),
    k: Seq<u8>,
)
    requires
        vault::repaired_by(disk, v, report, r, top),
        vault::undamaged_sizes(
            vault::ground_of(disk, v.tract.base as int, top.1),
            standing::index_of(top.1),
        ),
        k.len() == 32,
        standing::index_of(top.1).path(
            vault::ground_of(disk, v.tract.base as int, top.1),
            k,
        ).sound(),
    ensures
        ({
            let was = standing::index_of(top.1).path(
                vault::ground_of(disk, v.tract.base as int, top.1),
                k,
            ).found;
            &&& was matches Ok(Some(x)) ==> v.contents().contains_pair(k, x)
                && v.durable().contains_pair(k, x)
            &&& was matches Ok(None) ==> !v.contents().contains_key(k)
        }),
        v.head().gen > top.1.gen,
        v.hale(),
{
}

/// Law: a residence hosts as many generations as the root entry's residency times the slots of the ring, as far
/// as numbers go.
pub proof fn law_residence_hosts_its_residency_of_laps(x: root::RootView, exponent: u8)
    ensures
        x.residency * pow2(exponent as nat) <= u64::MAX ==> vault::stay(x, exponent) == x.residency
            * pow2(exponent as nat),
        x.residency * pow2(exponent as nat) > u64::MAX ==> vault::stay(x, exponent) == u64::MAX,
{
}

/// Law: a batch writes exactly those of its entries that are not already answered and durable, in their order.
pub proof fn law_batch_leaves_out_only_what_is_committed(
    v0: VaultView,
    items: Seq<(Seq<u8>, Seq<u8>)>,
)
    ensures
        vault::fresh(v0, items) == items.filter(
            |x: (Seq<u8>, Seq<u8>)|
                !(v0.contents().contains_pair(x.0, x.1) && v0.durable().contains_pair(x.0, x.1)),
        ),
    decreases items.len(),
{
    reveal(Seq::filter);
    if items.len() > 0 {
        law_batch_leaves_out_only_what_is_committed(v0, items.drop_last());
    }
}

/// Law: of several entries under a key the last that is written counts; a key that none of them names keeps what
/// it had.
pub proof fn law_last_entry_under_a_key_counts(
    m: Map<Seq<u8>, Seq<u8>>,
    items: Seq<(Seq<u8>, Seq<u8>)>,
    i: int,
    k: Seq<u8>,
)
    ensures
        0 <= i < items.len() && items[i].0 == k && (forall|j: int|
            i < j < items.len() ==> (#[trigger] items[j]).0 != k) ==> vault::written(
            m,
            items,
        ).contains_pair(k, items[i].1),
        (forall|j: int| 0 <= j < items.len() ==> (#[trigger] items[j]).0 != k) ==> (vault::written(
            m,
            items,
        ).contains_key(k) == m.contains_key(k) && vault::written(m, items)[k] == m[k]),
    decreases items.len(),
{
    if items.len() > 0 {
        let less = items.drop_last();
        let last = items.len() - 1;
        law_last_entry_under_a_key_counts(m, less, i, k);
        if 0 <= i < last && items[i].0 == k && (forall|j: int|
            i < j < items.len() ==> (#[trigger] items[j]).0 != k) {
            assert forall|j: int| i < j < less.len() implies (#[trigger] less[j]).0 != k by {
                assert(items[j].0 != k);
            }
            assert(items[last].0 != k);
            assert(less[i] == items[i]);
        }
        if forall|j: int| 0 <= j < items.len() ==> (#[trigger] items[j]).0 != k {
            assert forall|j: int| 0 <= j < less.len() implies (#[trigger] less[j]).0 != k by {
                assert(items[j].0 != k);
            }
            assert(items[last].0 != k);
        }
    }
}

/// Law: a put that is refused tries again. It gets in where there is room; where the fence refuses it, a commit
/// goes through, and it gets in after that; and where the tract is full, a window can be reaped, and it gets in
/// after that. It tries as often as there are windows in a lap, and fifteen times more.
pub proof fn law_refused_put_tries_again(v: VaultView, key: Seq<u8>, n: nat, d: nat)
    requires
        v.well(),
        v.hale(),
        v.sure,
    ensures
        vault::has_room(v, key, n) ==> vault::can_put(v, key, n, d),
        (crate::value::value_refusal(&v.tract, n) matches Some(e) && e is Fenced)
            && vault::committable(v) && (forall|w: VaultView| #[trigger]
            vault::slides_to(v, w) ==> vault::can_put(w, key, n, d)) ==> vault::can_put(
            v,
            key,
            n,
            d + 1,
        ),
        crate::value::value_refusal(&v.tract, n) == Some(crate::error::ErrorView::TractFull) && (
        vault::reaps_dead(v) || vault::reaps_live(v)) && (forall|w: VaultView| #[trigger]
            vault::reaps_to(v, w) ==> vault::can_put(w, key, n, d)) ==> vault::can_put(
            v,
            key,
            n,
            d + 1,
        ),
        vault::rungs(v) == v.tract.len as int / vault::window_span(v) + 15,
{
}

/// Law: a vault without live blocks can be rescued: all that is occupied can be reaped.
pub proof fn law_vault_without_live_blocks_is_cleared(v: VaultView)
    requires
        v.settled(),
        v.sure,
        v.root is None,
        forall|p: u64| !#[trigger] v.live.contains_key(p),
        v.head().gen + v.tract.len / 16 + 8 < u64::MAX,
    ensures
        vault::nothing_live(v),
{
}

/// Law: one window rescues an idle vault in working order, on the fixed layout, where what is live of it can be
/// moved one by one, and clean space and every budget leave room for that, for as many paths of nodes, and for
/// a window and two reserves more.
pub proof fn law_one_window_rescues_a_vault(v: VaultView, roof: int)
    requires
        vault::idle(v),
        v.good(),
        v.root is None,
        v.head().gen + 1 < u64::MAX,
        2 <= v.exponent <= 32,
        v.tract.reap < v.tract.plow,
        vault::movable(v, vault::window_used(v)),
        roof == v.tract.plow + 53 * vault::survivors(v, vault::window_used(v) as nat)
            + vault::window_span(v) + 8,
        roof <= v.shield,
        roof <= v.tract.reap + v.tract.len,
        forall|x: int|
            0 <= x && v.head().gen - 3 < x <= v.head().gen ==> roof <= #[trigger] vault::budget_at(
                v,
                x,
            ),
    ensures
        vault::can_rescue(v),
{
    assert(vault::windows_used(v, 1) == vault::window_used(v));
    assert(vault::roof(v, 1) == roof);
    assert(vault::rescued_by(v, 1));
}

/// Law: a ring at block 0 whose slots hold, damage aside, the last lap up to a generation leads an opening to the
/// newest entry there is. Slots that no generation came to yet may be empty, and so may the one that is next.
pub proof fn law_last_lap_leads_to_the_newest_entry(
    disk: Seq<Seq<u8>>,
    ring: u8,
    base: int,
    top: (u64, SpineView),
    g: int,
    s: int,
)
    requires
        mooring::leads_to(disk, ring, base, None, top),
        g >= 0,
        forall|t: int|
            0 <= t < pow2(ring as nat) ==> (match #[trigger] ring::class_at(disk, 0, ring, t) {
                spine::ClassView::Corrupt => true,
                spine::ClassView::Valid(e) => g - pow2(ring as nat) < e.gen <= g,
                spine::ClassView::Empty => t > g || t == (g + 1) % (pow2(ring as nat) as int),
            }),
        0 <= s < pow2(ring as nat),
        0 < ring <= 32,
    ensures
        ring::class_at(disk, 0, ring, s) matches spine::ClassView::Valid(f) ==> f.gen <= top.1.gen,
{
    let n = pow2(ring as nat) as int;
    lemma_pow2_pos(ring as nat);
    assert forall|t: int| 0 <= t < n implies #[trigger] ring::slot_fits(disk, 0, ring, 0, g, t) by {
        ring::law_expected_generation_comes_to_its_slot(g, n, t);
        let x = ring::expected(g, n, t);
        match ring::class_at(disk, 0, ring, t) {
            spine::ClassView::Valid(e) => {
                vstd::bits::lemma_u64_pow2_no_overflow(ring as nat);
                spine::law_entry_stands_at_its_slot(disk[t], t as u64, ring);
                ring::law_every_slot_once_per_lap(g - n + 1, n, t);
                assert(e.gen as int % n == t);
                assert(x % n == t);
            },
            spine::ClassView::Empty => {
                if t > g {
                    lemma_small_mod(g as nat, n as nat);
                }
            },
            _ => {},
        }
    }
    assert(ring::history(disk, 0, ring, 0, g));
}

/// Law: devices that hold sealed blocks, but neither a root entry nor an entry in a low slot, are a vault that
/// needs recovery, and are refused.
pub proof fn law_sealed_blocks_without_a_spine_are_refused<A: BlockDev, B: BlockDev>(
    mirror: &Mirror<A, B>,
    d: Seq<Seq<u8>>,
    i: int,
)
    requires
        mirror.first() == Some(d),
        mirror.first_reliable(),
        mirror.second() is Some ==> mirror.second_reliable(),
        0 <= i < d.len(),
        crate::seal::seal_of(d[i]) is Some,
        forall|s: int|
            0 <= s < 4 && s < d.len() ==> (root::root_of(#[trigger] d[s]) matches Ok(e) ==> e.gen % 4
                != s),
        forall|s: int|
            0 <= s < 16 && s < d.len() ==> !(spine::boot_class(#[trigger] d[s], s as u64) is Valid),
    ensures
        vault::refuses(mirror),
{
    assert(vault::has_sealed(mirror.first()));
    assert forall|s: int| (#[trigger] root::root_at(mirror.disk(), s)) is None by {
        if 0 <= s < 4 && s < d.len() {
            assert(root::root_of(d[s]) is Ok || root::root_of(d[s]) is Err);
        }
    }
}

}
