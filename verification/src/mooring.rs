//! What on the disk leads a later opening to the head.
use vstd::prelude::*;
use vstd::arithmetic::div_mod::*;
use vstd::arithmetic::power2::*;
use crate::block;
use crate::names;
use crate::ring;
use crate::root;
use crate::root::RootView;
use crate::seal;
use crate::spine;
use crate::spine::{ClassView, SpineView};
use crate::standing::VaultView;

verus! {

/// Whether the newest entry of the ring at `base` is `top`.
pub open spec fn lodged(
    disk: Seq<Seq<u8>>,
    base: int,
    ring: u8,
    top: Option<(u64, SpineView)>,
) -> bool {
    &&& top is Some
    &&& ring::is_newest(disk, base, ring, 0, pow2(ring as nat) - 1, top)
}

/// Whether the ring at `base` holds no entry.
pub open spec fn vacant(disk: Seq<Seq<u8>>, base: int, ring: u8) -> bool {
    ring::barren(disk, base, ring, 0, pow2(ring as nat) - 1)
}

/// Whether a root entry names two residences of its band.
pub open spec fn tidy(r: RootView) -> bool {
    let n = pow2(r.ring as nat) as int;
    &&& r.sane()
    &&& r.prev.len() == 32
    &&& r.residences >= 2
    &&& (r.at - 4) % n == 0
    &&& (r.was - 4) % n == 0
}

/// Whether the disk leads to the head, on the layout whose spine stays at block 0.
pub open spec fn moored_fixed(v: VaultView) -> bool {
    let g = v.head().gen as int;
    &&& 2 <= v.exponent <= 32
    &&& v.start == 0
    &&& v.tract.base == v.slots()
    &&& ring::history(v.disk, 0, v.exponent, 0, g)
    &&& v.top == Some(((g % v.slots()) as u64, v.head()))
    &&& ring::class_at(v.disk, 0, v.exponent, g % v.slots()) == ClassView::Valid(v.head())
    &&& root::is_newest_root(v.disk, None)
    &&& boots_in(v.disk, v.exponent)
}

/// Whether the first low slot that holds an entry is of the ring at block 0, and names its exponent.
pub open spec fn boots_in(disk: Seq<Seq<u8>>, x: u8) -> bool {
    exists|s: int| #[trigger] ring::boots_at(disk, s, x) && s < pow2(x as nat)
}

/// Whether the disk leads to the head, by way of a root entry: the newest names a residence that
/// holds it, or an empty one, and then the one before holds it.
pub open spec fn moored_by(v: VaultView, r: RootView) -> bool {
    &&& tidy(r)
    &&& r.ring == v.exponent
    &&& root::is_newest_root(v.disk, Some(r))
    &&& v.start == r.at || v.start == r.was
    &&& v.start == r.at && lodged(v.disk, r.at as int, r.ring, v.top) || (r.at != r.was && vacant(
        v.disk,
        r.at as int,
        r.ring,
    ) && lodged(v.disk, r.was as int, r.ring, v.top))
}

/// Whether the disk leads a later opening to the vault's head.
pub open spec fn moored(v: VaultView) -> bool {
    match v.root {
        None => moored_fixed(v),
        Some(r) => moored_by(v, r),
    }
}

/// Whether two disks agree below `n`.
pub open spec fn same_below(d0: Seq<Seq<u8>>, d1: Seq<Seq<u8>>, n: int) -> bool {
    &&& n <= d0.len() <= d1.len()
    &&& forall|i: int| 0 <= i < n ==> #[trigger] d1[i] == d0[i]
}

pub proof fn lemma_class_below(d0: Seq<Seq<u8>>, d1: Seq<Seq<u8>>, n: int, base: int, ring: u8)
    requires
        same_below(d0, d1, n),
        0 <= base,
        base + pow2(ring as nat) <= n,
    ensures
        forall|s: int|
            0 <= s < pow2(ring as nat) ==> #[trigger] ring::class_at(d1, base, ring, s)
                == ring::class_at(d0, base, ring, s),
{
}

/// What changes beyond the spine's region leaves the mooring.
pub proof fn lemma_moored_below(v0: VaultView, v1: VaultView)
    requires
        v0.well(),
        moored(v0),
        same_below(v0.disk, v1.disk, v0.tract.base as int),
        v1.top == v0.top,
        v1.start == v0.start,
        v1.exponent == v0.exponent,
        v1.root == v0.root,
        v1.tract.base == v0.tract.base,
    ensures
        moored(v1),
{
    let n = v0.tract.base as int;
    lemma_roots_below(v0.disk, v1.disk, n);
    match v0.root {
        None => {
            lemma_class_below(v0.disk, v1.disk, n, 0, v0.exponent);
            lemma_wide(v0.exponent);
            assert(ring::history(v1.disk, 0, v0.exponent, 0, v0.head().gen as int)) by {
                assert forall|s: int| 0 <= s < pow2(v0.exponent as nat) implies #[trigger]
                ring::slot_fits(v1.disk, 0, v0.exponent, 0, v0.head().gen as int, s) by {
                    assert(ring::slot_fits(
                        v0.disk,
                        0,
                        v0.exponent,
                        0,
                        v0.head().gen as int,
                        s,
                    ));
                }
            }
            let s = choose|s: int| #[trigger]
                ring::boots_at(v0.disk, s, v0.exponent) && s < v0.slots();
            assert(ring::boots_at(v1.disk, s, v0.exponent)) by {
                assert(v1.disk[s] == v0.disk[s]);
                assert forall|t: int| 0 <= t < s implies !(spine::boot_class(#[trigger] v1.disk[t], t as u64) is Valid) by {
                    assert(v1.disk[t] == v0.disk[t]);
                }
            }
            lemma_mod_bound(v0.head().gen as int, v0.slots());
        },
        Some(r) => {
            lemma_class_below(v0.disk, v1.disk, n, r.at as int, r.ring);
            lemma_class_below(v0.disk, v1.disk, n, r.was as int, r.ring);
            lemma_newest_below(v0.disk, v1.disk, r.at as int, r.ring, v0.top);
            lemma_newest_below(v0.disk, v1.disk, r.was as int, r.ring, v0.top);
        },
    }
}

proof fn lemma_wide(ring: u8)
    requires
        2 <= ring <= 32,
    ensures
        pow2(ring as nat) >= 4,
{
    lemma2_to64();
    if ring > 2 {
        lemma_pow2_strictly_increases(2, ring as nat);
    }
}

/// Rings whose slots class alike have the same newest entry.
proof fn lemma_newest_below(
    d0: Seq<Seq<u8>>,
    d1: Seq<Seq<u8>>,
    base: int,
    ring: u8,
    top: Option<(u64, SpineView)>,
)
    requires
        forall|s: int|
            0 <= s < pow2(ring as nat) ==> #[trigger] ring::class_at(d1, base, ring, s)
                == ring::class_at(d0, base, ring, s),
    ensures
        lodged(d0, base, ring, top) ==> lodged(d1, base, ring, top),
        vacant(d0, base, ring) ==> vacant(d1, base, ring),
{
    if lodged(d0, base, ring, top) {
        let e = (top->0).1;
        assert forall|t: int| 0 <= t <= pow2(ring as nat) - 1 implies ((#[trigger] ring::class_at(
            d1,
            base,
            ring,
            t,
        )) matches ClassView::Valid(f) ==> f.gen <= e.gen) by {
            assert(ring::class_at(d1, base, ring, t) == ring::class_at(d0, base, ring, t));
        }
        assert(ring::class_at(d1, base, ring, (top->0).0 as int) == ring::class_at(
            d0,
            base,
            ring,
            (top->0).0 as int,
        ));
    }
    if vacant(d0, base, ring) {
        assert forall|s: int| 0 <= s <= pow2(ring as nat) - 1 implies !((#[trigger] ring::class_at(
            d1,
            base,
            ring,
            s,
        )) is Valid) by {
            assert(ring::class_at(d1, base, ring, s) == ring::class_at(d0, base, ring, s));
        }
    }
}

/// Root slots that hold what they held tell what they told.
proof fn lemma_roots_below(d0: Seq<Seq<u8>>, d1: Seq<Seq<u8>>, n: int)
    requires
        same_below(d0, d1, n),
    ensures
        n >= 4 ==> forall|r: Option<RootView>|
            root::is_newest_root(d0, r) ==> #[trigger] root::is_newest_root(d1, r),
{
    if n >= 4 {
        assert forall|s: int| #[trigger] root::root_at(d1, s) == root::root_at(d0, s) by {
            if 0 <= s < 4 {
                assert(d1[s] == d0[s]);
            }
        }
        assert forall|r: Option<RootView>| root::is_newest_root(
            d0,
            r,
        ) implies #[trigger] root::is_newest_root(d1, r) by {
            match r {
                Some(e) => {
                    assert(root::root_at(d1, e.gen as int % 4) == root::root_at(
                        d0,
                        e.gen as int % 4,
                    ));
                    assert forall|s: int| (#[trigger] root::root_at(d1, s)) matches Some(
                        x,
                    ) ==> x.gen <= e.gen by {
                        assert(root::root_at(d1, s) == root::root_at(d0, s));
                    }
                },
                None => {
                    assert forall|s: int| (#[trigger] root::root_at(d1, s)) is None by {
                        assert(root::root_at(d1, s) == root::root_at(d0, s));
                    }
                },
            }
        }
    }
}

/// A spine entry is no root entry.
proof fn lemma_spine_no_root(e: SpineView)
    requires
        e.wf(),
        0 < e.ring <= 32,
    ensures
        root::root_of(spine::spine_block(e)) is Err,
{
    spine::lemma_spine_fits(e);
    seal::law_document_reads_back(names::SCHEMA@, spine::spine_fields(e));
    seal::lemma_sealed(seal::padded(seal::body_of(names::SCHEMA@, spine::spine_fields(e))));
    names::lemma_spine_words_differ();
}

/// The next generation, appended where the ring is, is what a later opening is led to.
pub proof fn lemma_moored_append(v0: VaultView, v1: VaultView, e: SpineView)
    requires
        v0.well(),
        moored(v0),
        e.wf(),
        e.gen == v0.head().gen + 1,
        e.ring == v0.exponent,
        v1.disk == v0.disk.update(v0.start + e.gen as int % v0.slots(), spine::spine_block(e)),
        v1.top == Some(((e.gen as int % v0.slots()) as u64, e)),
        v1.start == v0.start,
        v1.exponent == v0.exponent,
        v1.root == v0.root,
        v1.tract.base == v0.tract.base,
    ensures
        moored(v1),
        lodged(v1.disk, v1.start as int, v1.exponent, v1.top),
{
    let n = v0.slots();
    let slot = e.gen as int % n;
    lemma_pow2_pos(v0.exponent as nat);
    lemma_mod_bound(e.gen as int, n);
    ring::lemma_entry_valid(e, slot as u64);
    match v0.root {
        None => {
            let g = v0.head().gen as int;
            lemma_wide(v0.exponent);
            ring::law_append_keeps_history(v0.disk, 0, v0.exponent, 0, g, e);
            lemma_spine_no_root(e);
            assert forall|s: int| (#[trigger] root::root_at(v1.disk, s)) is None by {
                assert(root::root_at(v0.disk, s) is None);
                if 0 <= s < 4 && s != slot {
                    assert(v1.disk[s] == v0.disk[s]);
                }
            }
            let s = choose|s: int| #[trigger]
                ring::boots_at(v0.disk, s, v0.exponent) && s < v0.slots();
            let now = if slot <= s {
                slot
            } else {
                s
            };
            assert(spine::boot_class(spine::spine_block(e), slot as u64) == ClassView::Valid(
                e,
            ));
            assert(ring::boots_at(v1.disk, now, v0.exponent)) by {
                assert forall|t: int| 0 <= t < now implies !(spine::boot_class(#[trigger] v1.disk[t], t as u64) is Valid) by {
                    assert(v1.disk[t] == v0.disk[t]);
                }
            }
            ring::law_intact_head_is_newest(
                v1.disk,
                0,
                v0.exponent,
                0,
                g + 1,
                slot as u64,
                e,
            );
        },
        Some(r) => {
            let at = v0.start + slot;
            assert(same_below(v0.disk, v1.disk, 4));
            lemma_roots_below(v0.disk, v1.disk, 4);
            assert forall|t: int| 0 <= t < n && t != slot implies #[trigger] ring::class_at(
                v1.disk,
                v0.start as int,
                r.ring,
                t,
            ) == ring::class_at(v0.disk, v0.start as int, r.ring, t) by {
                assert(v1.disk[v0.start + t] == v0.disk[v0.start + t]);
            }
            assert(ring::class_at(v1.disk, v0.start as int, r.ring, slot) == ClassView::Valid(e));
            if !(v0.start == r.at && lodged(v0.disk, r.at as int, r.ring, v0.top)) && v0.start
                == r.was {
                lemma_apart(r.at as int, r.was as int, n);
                assert forall|t: int| 0 <= t < n implies #[trigger] ring::class_at(
                    v1.disk,
                    r.at as int,
                    r.ring,
                    t,
                ) == ring::class_at(v0.disk, r.at as int, r.ring, t) by {
                    assert(v1.disk[r.at + t] == v0.disk[r.at + t]);
                }
                lemma_newest_below(v0.disk, v1.disk, r.at as int, r.ring, v0.top);
            }
            assert(lodged(v1.disk, v0.start as int, r.ring, v1.top)) by {
                assert forall|t: int| 0 <= t <= n - 1 implies ((#[trigger] ring::class_at(
                    v1.disk,
                    v0.start as int,
                    r.ring,
                    t,
                )) matches ClassView::Valid(f) ==> f.gen <= e.gen) by {
                    if t != slot {
                        assert(ring::class_at(v1.disk, v0.start as int, r.ring, t)
                            == ring::class_at(v0.disk, v0.start as int, r.ring, t));
                    }
                }
            }
        },
    }
}

/// Residences of one band that are not the same lie apart.
proof fn lemma_apart(a: int, b: int, n: int)
    requires
        n > 0,
        a != b,
        (a - 4) % n == 0,
        (b - 4) % n == 0,
    ensures
        a + n <= b || b + n <= a,
{
    lemma_fundamental_div_mod(a - 4, n);
    lemma_fundamental_div_mod(b - 4, n);
    let x = (a - 4) / n;
    let y = (b - 4) / n;
    if x < y {
        assert(n * x + n <= n * y) by (nonlinear_arith)
            requires
                x < y,
                n > 0,
        ;
    } else if y < x {
        assert(n * y + n <= n * x) by (nonlinear_arith)
            requires
                y < x,
                n > 0,
        ;
    }
}

/// Where the residence after the one at `cur` begins.
pub open spec fn next_residence(r: RootView, cur: int) -> int {
    let n = pow2(r.ring as nat) as int;
    4 + (((cur - 4) / n + 1) % (r.residences as int)) * n
}

/// Law: the residences of a band take turns: the spine goes on to the one behind its own, and from the last
/// one to the first.
pub proof fn law_residences_take_turns(r: RootView, cur: int)
    requires
        r.sane(),
        4 <= cur,
        (cur - 4) % (pow2(r.ring as nat) as int) == 0,
        cur + pow2(r.ring as nat) <= 4 + r.residences * pow2(r.ring as nat),
    ensures
        cur + 2 * pow2(r.ring as nat) <= 4 + r.residences * pow2(r.ring as nat)
            ==> next_residence(r, cur) == cur + pow2(r.ring as nat),
        cur + 2 * pow2(r.ring as nat) > 4 + r.residences * pow2(r.ring as nat) ==> next_residence(
            r,
            cur,
        ) == 4,
{
    let n = pow2(r.ring as nat) as int;
    let m = r.residences as int;
    lemma_pow2_pos(r.ring as nat);
    let q = (cur - 4) / n;
    lemma_fundamental_div_mod(cur - 4, n);
    assert(cur - 4 == n * q);
    assert(q >= 0 && q + 1 <= m) by (nonlinear_arith)
        requires
            n > 0,
            n * q >= 0,
            n * q + n <= m * n,
    ;
    if cur + 2 * n <= 4 + m * n {
        assert(q + 1 < m) by (nonlinear_arith)
            requires
                n > 0,
                n * q + 2 * n <= m * n,
        ;
        lemma_small_mod((q + 1) as nat, m as nat);
        assert((q + 1) * n == n * q + n) by (nonlinear_arith);
    } else {
        assert(q + 1 >= m) by (nonlinear_arith)
            requires
                n > 0,
                n * q + 2 * n > m * n,
        ;
        lemma_mod_self_0(m);
        assert(((q + 1) % m) * n == 0) by (nonlinear_arith)
            requires
                (q + 1) % m == 0,
        ;
    }
}

/// The next residence lies in the band.
pub proof fn lemma_next_residence(r: RootView, cur: int)
    requires
        r.sane(),
        4 <= cur,
        cur + pow2(r.ring as nat) <= r.band(),
    ensures
        r.residences > 0,
        4 <= next_residence(r, cur),
        next_residence(r, cur) + pow2(r.ring as nat) <= r.band(),
        (next_residence(r, cur) - 4) % (pow2(r.ring as nat) as int) == 0,
        tidy(r) && (cur - 4) % (pow2(r.ring as nat) as int) == 0 ==> next_residence(r, cur) != cur,
        (cur - 4) / (pow2(r.ring as nat) as int) < r.residences,
{
    let n = pow2(r.ring as nat) as int;
    lemma_pow2_pos(r.ring as nat);
    let res = r.residences as int;
    assert(res > 0) by (nonlinear_arith)
        requires
            4 + n <= 4 + res * n,
            n > 0,
    ;
    let idx = (cur - 4) / n;
    let m = (idx + 1) % res;
    lemma_mod_bound(idx + 1, res);
    assert(0 <= m * n && m * n + n <= res * n) by (nonlinear_arith)
        requires
            0 <= m < res,
            n > 0,
    ;
    lemma_mod_multiples_basic(m, n);
    lemma_fundamental_div_mod(cur - 4, n);
    lemma_mod_bound(cur - 4, n);
    lemma_div_pos_is_pos(cur - 4, n);
    assert(idx < res) by (nonlinear_arith)
        requires
            n * idx <= cur - 4,
            cur - 4 + n <= res * n,
            n > 0,
    ;
    if r.residences >= 2 && (cur - 4) % n == 0 {
        if idx + 1 < res {
            lemma_small_mod((idx + 1) as nat, res as nat);
            assert(m * n == n * idx + n) by (nonlinear_arith)
                requires
                    m == idx + 1,
            ;
        } else {
            assert(idx + 1 == res);
            lemma_mod_self_0(res);
            assert(m * n == 0) by (nonlinear_arith)
                requires
                    m == 0,
            ;
            assert(n * idx > 0) by (nonlinear_arith)
                requires
                    idx >= 1,
                    n > 0,
            ;
        }
    }
}

/// After the spine hopped to the next residence, a later opening is led to the same head.
pub proof fn lemma_moored_hop(v0: VaultView, d1: Seq<Seq<u8>>, r2: RootView, v2: VaultView)
    requires
        v0.well(),
        v0.root is Some,
        moored(v0),
        lodged(v0.disk, v0.start as int, v0.exponent, v0.top),
        r2.gen == (v0.root->0).gen + 1,
        r2.prev.len() == 32,
        r2.ring == (v0.root->0).ring,
        r2.residences == (v0.root->0).residences,
        r2.was == v0.start,
        r2.at == next_residence(v0.root->0, v0.start as int),
        ring::cleared(v0.disk, d1, r2.at as int, r2.at + v0.slots()),
        v2.disk == d1.update(r2.gen as int % 4, root::root_block(r2)),
        v2.top == v0.top,
        v2.start == r2.at,
        v2.exponent == v0.exponent,
        v2.root == Some(r2),
        v2.tract.base == v0.tract.base,
    ensures
        moored(v2),
{
    let r = v0.root->0;
    let n = v0.slots();
    lemma_pow2_pos(r.ring as nat);
    lemma_next_residence(r, v0.start as int);
    assert((v0.start - 4) % n == 0);
    assert(r2.sane());
    assert(tidy(r2));
    root::law_root_reads_back(r2);
    lemma_apart(r2.at as int, v0.start as int, n);
    assert(root::is_newest_root(v2.disk, Some(r2))) by {
        assert(root::root_at(v2.disk, r2.gen as int % 4) == Some(r2));
        assert forall|s: int| (#[trigger] root::root_at(v2.disk, s)) matches Some(x) ==> x.gen
            <= r2.gen by {
            if 0 <= s < 4 && s != r2.gen as int % 4 {
                assert(v2.disk[s] == v0.disk[s]);
                assert(root::root_at(v0.disk, s) matches Some(x) ==> x.gen <= r.gen);
            }
        }
    }
    assert(vacant(v2.disk, r2.at as int, r2.ring)) by {
        assert forall|s: int| 0 <= s <= n - 1 implies !((#[trigger] ring::class_at(
            v2.disk,
            r2.at as int,
            r2.ring,
            s,
        )) is Valid) by {
            assert(d1[r2.at + s] == block::zeros());
            assert(v2.disk[r2.at + s] == block::zeros());
        }
    }
    assert forall|s: int| 0 <= s < n implies #[trigger] ring::class_at(
        v2.disk,
        v0.start as int,
        r.ring,
        s,
    ) == ring::class_at(v0.disk, v0.start as int, r.ring, s) by {
        assert(d1[v0.start + s] == v0.disk[v0.start + s]);
        assert(v2.disk[v0.start + s] == d1[v0.start + s]);
    }
    lemma_newest_below(v0.disk, v2.disk, v0.start as int, r.ring, v0.top);
}

/// Whether a ring at block 0 holds a history, damaged or not.
pub open spec fn storied(disk: Seq<Seq<u8>>, ring: u8) -> bool {
    exists|g: int| g >= 0 && #[trigger] ring::history(disk, 0, ring, 0, g)
}

/// Whether a disk leads an opening to the head `top`, on a ring of exponent `ring`, with the tract
/// at `base`: by the newest root entry, or by the low slots where there is none.
pub open spec fn leads_to(
    disk: Seq<Seq<u8>>,
    ring: u8,
    base: int,
    r: Option<RootView>,
    top: (u64, SpineView),
) -> bool {
    let n = pow2(ring as nat) as int;
    &&& root::is_newest_root(disk, r)
    &&& match r {
        None => {
            &&& ring::boots(disk, ring)
            &&& base == n
            &&& top.0 < n
            &&& ring::class_at(disk, 0, ring, top.0 as int) == ClassView::Valid(top.1)
            &&& storied(disk, ring) ==> lodged(disk, 0, ring, Some(top))
        },
        Some(x) => {
            &&& ring == x.ring
            &&& base == x.band()
            &&& lodged(disk, x.at as int, ring, Some(top)) || (x.at != x.was && vacant(
                disk,
                x.at as int,
                ring,
            ) && lodged(disk, x.was as int, ring, Some(top)))
        },
    }
}

pub proof fn lemma_one_root(disk: Seq<Seq<u8>>, a: Option<RootView>, b: Option<RootView>)
    requires
        root::is_newest_root(disk, a),
        root::is_newest_root(disk, b),
    ensures
        a == b,
{
    match (a, b) {
        (Some(x), Some(y)) => {
            assert(root::root_at(disk, x.gen as int % 4) == Some(x));
            assert(root::root_at(disk, y.gen as int % 4) == Some(y));
        },
        (Some(x), None) => {
            assert(root::root_at(disk, x.gen as int % 4) == Some(x));
        },
        (None, Some(y)) => {
            assert(root::root_at(disk, y.gen as int % 4) == Some(y));
        },
        (None, None) => {},
    }
}

pub proof fn lemma_one_newest(
    disk: Seq<Seq<u8>>,
    base: int,
    ring: u8,
    a: Option<(u64, SpineView)>,
    b: Option<(u64, SpineView)>,
)
    requires
        lodged(disk, base, ring, a),
        lodged(disk, base, ring, b),
    ensures
        a == b,
{
    let x = a->0;
    let y = b->0;
    assert(ring::class_at(disk, base, ring, x.0 as int) == ClassView::Valid(x.1));
    assert(ring::class_at(disk, base, ring, y.0 as int) == ClassView::Valid(y.1));
    assert(x.1.gen == y.1.gen);
    assert(x.1.ring == ring && y.1.ring == ring);
    assert(x.0 == x.1.gen as int % (pow2(ring as nat) as int));
    assert(y.0 == y.1.gen as int % (pow2(ring as nat) as int));
}

/// A moored vault's disk leads an opening to its head.
pub proof fn lemma_led_home(
    w: VaultView,
    ring: u8,
    base: int,
    r: Option<RootView>,
    top: (u64, SpineView),
)
    requires
        w.well(),
        moored(w),
        leads_to(w.disk, ring, base, r, top),
    ensures
        r == w.root,
        ring == w.exponent,
        base == w.tract.base,
        Some(top) == w.top,
{
    lemma_one_root(w.disk, r, w.root);
    match w.root {
        None => {
            let s = choose|s: int| #[trigger] ring::boots_at(w.disk, s, ring);
            let t = choose|t: int| #[trigger] ring::boots_at(w.disk, t, w.exponent);
            assert(s == t) by {
                if s < t {
                    assert(spine::boot_class(w.disk[s], s as u64) is Valid);
                } else if t < s {
                    assert(spine::boot_class(w.disk[t], t as u64) is Valid);
                }
            }
            let g = w.head().gen as int;
            assert(ring::history(w.disk, 0, ring, 0, g));
            assert(storied(w.disk, ring));
            lemma_pow2_pos(ring as nat);
            lemma_mod_bound(g, w.slots());
            ring::law_intact_head_is_newest(
                w.disk,
                0,
                ring,
                0,
                g,
                (g % w.slots()) as u64,
                w.head(),
            );
            lemma_one_newest(w.disk, 0, ring, Some(top), w.top);
        },
        Some(x) => {
            if lodged(w.disk, x.at as int, x.ring, w.top) {
                if lodged(w.disk, x.at as int, x.ring, Some(top)) {
                    lemma_one_newest(w.disk, x.at as int, x.ring, Some(top), w.top);
                } else {
                    lemma_not_vacant(w.disk, x.at as int, x.ring, w.top);
                }
            } else {
                if lodged(w.disk, x.at as int, x.ring, Some(top)) {
                    lemma_not_vacant(w.disk, x.at as int, x.ring, Some(top));
                } else {
                    lemma_one_newest(w.disk, x.was as int, x.ring, Some(top), w.top);
                }
            }
        },
    }
}

pub(crate) proof fn lemma_not_vacant(disk: Seq<Seq<u8>>, base: int, ring: u8, top: Option<(u64, SpineView)>)
    requires
        lodged(disk, base, ring, top),
    ensures
        !vacant(disk, base, ring),
{
    let x = top->0;
    assert(ring::class_at(disk, base, ring, x.0 as int) == ClassView::Valid(x.1));
}

/// A cleared block is no root entry and no spine entry.
proof fn lemma_zero_nothing()
    ensures
        root::root_of(block::zeros()) is Err,
        forall|s: u64, r: Option<u8>|
            (#[trigger] spine::class_of(block::zeros(), s, r)) is Empty,
{
    assert(block::zeros()[0] == 0);
    assert(!seal::has_magic(block::zeros()));
}

/// The founding entry of a cleared ring at block 0 moors the vault.
pub proof fn lemma_founded_fixed(v: VaultView, d0: Seq<Seq<u8>>, d1: Seq<Seq<u8>>, e: SpineView)
    requires
        2 <= v.exponent <= 32,
        e.wf(),
        e.gen == 0,
        e.ring == v.exponent,
        ring::cleared(d0, d1, 0, v.slots()),
        v.disk == d1.update(0, spine::spine_block(e)),
        v.start == 0,
        v.root is None,
        v.top == Some((0u64, e)),
        v.tract.base == v.slots(),
    ensures
        moored(v),
{
    let n = v.slots();
    lemma_wide(v.exponent);
    lemma_zero_nothing();
    lemma_small_mod(0, n as nat);
    assert forall|s: int| 0 <= s < n implies (#[trigger] ring::class_at(
        d1,
        0,
        v.exponent,
        s,
    )) is Empty by {
        assert(d1[s] == block::zeros());
    }
    ring::law_first_entry_begins_history(d1, 0, v.exponent, e);
    ring::lemma_entry_valid(e, 0);
    assert(ring::class_at(v.disk, 0, v.exponent, 0) == ClassView::Valid(e));
    lemma_spine_no_root(e);
    assert forall|s: int| (#[trigger] root::root_at(v.disk, s)) is None by {
        if 0 < s < 4 {
            assert(v.disk[s] == block::zeros());
        }
    }
    assert(ring::boots_at(v.disk, 0, v.exponent));
}

/// The founding entries of a cleared band moor the vault.
pub proof fn lemma_founded_band(
    v: VaultView,
    d1: Seq<Seq<u8>>,
    r: RootView,
    e: SpineView,
)
    requires
        tidy(r),
        r.gen == 0,
        r.at == 4,
        r.was == 4,
        r.ring == v.exponent,
        e.wf(),
        e.gen == 0,
        e.ring == v.exponent,
        4 + v.slots() <= d1.len(),
        forall|i: int| 0 <= i < 4 + v.slots() ==> #[trigger] d1[i] == block::zeros(),
        v.disk == d1.update(0, root::root_block(r)).update(4, spine::spine_block(e)),
        v.start == 4,
        v.root == Some(r),
        v.top == Some((0u64, e)),
    ensures
        moored(v),
{
    let n = v.slots();
    lemma_pow2_pos(v.exponent as nat);
    lemma_zero_nothing();
    lemma_small_mod(0, n as nat);
    root::law_root_reads_back(r);
    ring::lemma_entry_valid(e, 0);
    assert(v.disk[0] == root::root_block(r));
    assert(root::root_at(v.disk, 0) == Some(r));
    assert forall|s: int| (#[trigger] root::root_at(v.disk, s)) matches Some(x) ==> x.gen
        <= r.gen by {
        if 0 < s < 4 {
            assert(v.disk[s] == d1[s]);
        }
    }
    assert(v.disk[4] == spine::spine_block(e));
    assert(ring::class_at(v.disk, 4, v.exponent, 0) == ClassView::Valid(e));
    assert forall|t: int| 0 <= t <= n - 1 implies ((#[trigger] ring::class_at(
        v.disk,
        4,
        v.exponent,
        t,
    )) matches ClassView::Valid(f) ==> f.gen <= e.gen) by {
        if t > 0 {
            assert(v.disk[4 + t] == d1[4 + t]);
        }
    }
}

/// A spine entry and a root entry are sealed blocks.
pub proof fn lemma_entries_sealed(b: Seq<u8>)
    ensures
        spine::spine_of(b) is Ok ==> seal::seal_of(b) is Some,
        root::root_of(b) is Ok ==> seal::seal_of(b) is Some,
{
}

/// Whether no low slot of a disk holds an entry.
pub open spec fn boots_not(disk: Seq<Seq<u8>>) -> bool {
    forall|s: int|
        0 <= s < 16 && s < disk.len() ==> !(spine::boot_class(#[trigger] disk[s], s as u64) is Valid)
}

/// A disk without a sealed block has no root entry, and nothing boots from it.
pub proof fn lemma_blank(disk: Seq<Seq<u8>>)
    requires
        forall|i: int| 0 <= i < disk.len() ==> seal::seal_of(#[trigger] disk[i]) is None,
    ensures
        root::is_newest_root(disk, None),
        boots_not(disk),
{
    assert forall|s: int| (#[trigger] root::root_at(disk, s)) is None by {
        if 0 <= s < 4 && s < disk.len() {
            lemma_entries_sealed(disk[s]);
        }
    }
    assert forall|s: int| 0 <= s < 16 && s < disk.len() implies !(spine::boot_class(#[trigger] disk[s], s as u64) is Valid) by {
        lemma_entries_sealed(disk[s]);
    }
}

/// A disk that boots has a low slot that does; one from which nothing boots has none.
pub proof fn lemma_boots_or_not(disk: Seq<Seq<u8>>, ring: u8)
    requires
        ring::boots(disk, ring),
    ensures
        !boots_not(disk),
{
    let s = choose|s: int| #[trigger] ring::boots_at(disk, s, ring);
    assert(spine::boot_class(disk[s], s as u64) is Valid);
}

/// The low slots name one exponent.
pub proof fn lemma_one_boot(disk: Seq<Seq<u8>>, a: u8, b: u8)
    requires
        ring::boots(disk, a),
        ring::boots(disk, b),
    ensures
        a == b,
{
    let s = choose|s: int| #[trigger] ring::boots_at(disk, s, a);
    let t = choose|t: int| #[trigger] ring::boots_at(disk, t, b);
    if s < t {
        assert(spine::boot_class(disk[s], s as u64) is Valid);
    } else if t < s {
        assert(spine::boot_class(disk[t], t as u64) is Valid);
    }
}

/// Where the spine stays at block 0, a low slot of the ring boots.
pub proof fn lemma_low_slot(w: VaultView) -> (s: int)
    requires
        moored(w),
        w.root is None,
    ensures
        ring::boots_at(w.disk, s, w.exponent),
        s < w.tract.base,
{
    choose|s: int| #[trigger] ring::boots_at(w.disk, s, w.exponent) && s < w.slots()
}

/// A ring at block 0 that was searched whole gives a moored vault's head.
pub proof fn lemma_found_fixed(w: VaultView, top: Option<(u64, SpineView)>)
    requires
        w.well(),
        moored(w),
        w.root is None,
        storied(w.disk, w.exponent) ==> ring::is_newest(
            w.disk,
            0,
            w.exponent,
            0,
            w.slots() - 1,
            top,
        ),
    ensures
        top == w.top,
{
    let g = w.head().gen as int;
    assert(ring::history(w.disk, 0, w.exponent, 0, g));
    lemma_pow2_pos(w.exponent as nat);
    lemma_mod_bound(g, w.slots());
    ring::law_intact_head_is_newest(
        w.disk,
        0,
        w.exponent,
        0,
        g,
        (g % w.slots()) as u64,
        w.head(),
    );
    assert(lodged(w.disk, 0, w.exponent, w.top));
    if top is None {
        lemma_not_vacant(w.disk, 0, w.exponent, w.top);
    }
    lemma_one_newest(w.disk, 0, w.exponent, top, w.top);
}

/// The residences that a root entry names give a moored vault's head.
pub proof fn lemma_found_again(
    w: VaultView,
    r: RootView,
    start: u64,
    top: Option<(u64, SpineView)>,
)
    requires
        w.well(),
        moored(w),
        w.root == Some(r),
        top is None ==> vacant(w.disk, r.at as int, r.ring) && vacant(
            w.disk,
            r.was as int,
            r.ring,
        ),
        top is Some ==> (start == r.at && lodged(w.disk, r.at as int, r.ring, top)) || (start
            == r.was && r.at != r.was && vacant(w.disk, r.at as int, r.ring) && lodged(
            w.disk,
            r.was as int,
            r.ring,
            top,
        )),
    ensures
        top == w.top,
{
    if lodged(w.disk, r.at as int, r.ring, w.top) {
        lemma_not_vacant(w.disk, r.at as int, r.ring, w.top);
        lemma_one_newest(w.disk, r.at as int, r.ring, top, w.top);
    } else {
        lemma_not_vacant(w.disk, r.was as int, r.ring, w.top);
        if lodged(w.disk, r.at as int, r.ring, top) {
            lemma_not_vacant(w.disk, r.at as int, r.ring, top);
        }
        lemma_one_newest(w.disk, r.was as int, r.ring, top, w.top);
    }
}

/// An unreadable entry in the slot after the head's leaves a mooring by root entry.
pub proof fn lemma_torn_slot(v0: VaultView, v1: VaultView, s: int)
    requires
        v0.well(),
        moored(v0),
        v0.root is Some,
        s == (v0.head().gen + 1) % v0.slots(),
        0 <= s < v0.slots(),
        s != v0.head().gen as int % v0.slots(),
        v1.disk.len() == v0.disk.len(),
        forall|i: int|
            0 <= i < v0.disk.len() && i != v0.start + s ==> #[trigger] v1.disk[i] == v0.disk[i],
        !(ring::class_at(v1.disk, v0.start as int, v0.exponent, s) is Valid),
        v1.top == v0.top,
        v1.start == v0.start,
        v1.exponent == v0.exponent,
        v1.root == v0.root,
        v1.tract.base == v0.tract.base,
    ensures
        moored(v1),
{
    let r = v0.root->0;
    let n = v0.slots();
    lemma_pow2_pos(r.ring as nat);
    assert(same_below(v0.disk, v1.disk, 4));
    lemma_roots_below(v0.disk, v1.disk, 4);
    let other = if v0.start == r.at {
        r.was as int
    } else {
        r.at as int
    };
    if other != v0.start {
        lemma_apart(other, v0.start as int, n);
        assert forall|t: int| 0 <= t < n implies #[trigger] ring::class_at(
            v1.disk,
            other,
            r.ring,
            t,
        ) == ring::class_at(v0.disk, other, r.ring, t) by {
            assert(v1.disk[other + t] == v0.disk[other + t]);
        }
        lemma_newest_below(v0.disk, v1.disk, other, r.ring, v0.top);
    }
    assert forall|t: int| 0 <= t < n && t != s implies #[trigger] ring::class_at(
        v1.disk,
        v0.start as int,
        r.ring,
        t,
    ) == ring::class_at(v0.disk, v0.start as int, r.ring, t) by {
        assert(v1.disk[v0.start + t] == v0.disk[v0.start + t]);
    }
    if lodged(v0.disk, v0.start as int, r.ring, v0.top) {
        let e = v0.head();
        let at = (v0.top->0).0 as int;
        assert(ring::class_at(v0.disk, v0.start as int, r.ring, at) == ClassView::Valid(e));
        assert(at == e.gen as int % n);
        assert(lodged(v1.disk, v0.start as int, r.ring, v0.top)) by {
            assert forall|t: int| 0 <= t <= n - 1 implies ((#[trigger] ring::class_at(
                v1.disk,
                v0.start as int,
                r.ring,
                t,
            )) matches ClassView::Valid(f) ==> f.gen <= e.gen) by {
                if t != s {
                    assert(ring::class_at(v1.disk, v0.start as int, r.ring, t) == ring::class_at(
                        v0.disk,
                        v0.start as int,
                        r.ring,
                        t,
                    ));
                }
            }
        }
    }
    if vacant(v0.disk, v0.start as int, r.ring) {
        assert(vacant(v1.disk, v0.start as int, r.ring)) by {
            assert forall|t: int| 0 <= t <= n - 1 implies !((#[trigger] ring::class_at(
                v1.disk,
                v0.start as int,
                r.ring,
                t,
            )) is Valid) by {
                if t != s {
                    assert(ring::class_at(v1.disk, v0.start as int, r.ring, t) == ring::class_at(
                        v0.disk,
                        v0.start as int,
                        r.ring,
                        t,
                    ));
                }
            }
        }
    }
}

/// An unreadable entry in the slot after the head's leaves a mooring at block 0.
pub proof fn lemma_torn_fixed(v0: VaultView, v1: VaultView, s: int, b: Seq<u8>)
    requires
        moored(v0),
        v0.root is None,
        s == (v0.head().gen + 1) % v0.slots(),
        0 <= s < v0.slots(),
        s != v0.head().gen as int % v0.slots(),
        v0.slots() <= v0.disk.len(),
        v1.disk == v0.disk.update(s, b),
        !(spine::class_of(b, s as u64, Some(v0.exponent)) is Valid),
        root::root_of(b) is Err,
        ring::boots(v1.disk, v0.exponent),
        v1.top == v0.top,
        v1.start == v0.start,
        v1.exponent == v0.exponent,
        v1.root == v0.root,
        v1.tract.base == v0.tract.base,
    ensures
        moored(v1),
{
    let n = v0.slots();
    let g = v0.head().gen as int;
    let disk = v1.disk;
    lemma_wide(v0.exponent);
    lemma_mod_bound(g, n);
    assert(ring::history(disk, 0, v0.exponent, 0, g)) by {
        assert forall|t: int| 0 <= t < n implies #[trigger] ring::slot_fits(
            disk,
            0,
            v0.exponent,
            0,
            g,
            t,
        ) by {
            assert(ring::slot_fits(v0.disk, 0, v0.exponent, 0, g, t));
            if t != s {
                assert(disk[t] == v0.disk[t]);
            }
        }
    }
    assert(disk[g % n] == v0.disk[g % n]);
    assert forall|t: int| (#[trigger] root::root_at(disk, t)) is None by {
        assert(root::root_at(v0.disk, t) is None);
        if 0 <= t < 4 && t != s {
            assert(disk[t] == v0.disk[t]);
        }
    }
}

}
