//! What the findings of an inspection mean for the disk that was inspected.
use vstd::prelude::*;
use vstd::arithmetic::power2::*;
use crate::block;
use crate::error::ErrorView;
use crate::inspect;
use crate::inspect::{BlockView, Convergence, InspectOptions, ReportView, Tour, TreeView};
use crate::mooring;
use crate::replicate;
use crate::ring;
use crate::seal;
use crate::spine;
use crate::spine::{ClassView, SpineView};

verus! {

// ---------------------------------------------------------------- orphans

/// Law: an orphan scan lists exactly the sealed blocks that were not reached, each once, in ascending order.
pub proof fn law_scan_lists_what_was_not_reached(
    disk: Seq<Seq<u8>>,
    base: int,
    n: nat,
    reached: Set<u64>,
)
    requires
        n <= u64::MAX,
    ensures
        forall|x: u64| #[trigger]
            inspect::orphans_on(disk, base, n, reached).contains(x) <==> x < n && seal::seal_of(
                disk[base + x],
            ) is Some && !reached.contains(x),
        forall|i: int, j: int|
            0 <= i < j < inspect::orphans_on(disk, base, n, reached).len()
                ==> #[trigger] inspect::orphans_on(disk, base, n, reached)[i]
                < #[trigger] inspect::orphans_on(disk, base, n, reached)[j],
    decreases n,
{
    if n > 0 {
        let less = inspect::orphans_on(disk, base, (n - 1) as nat, reached);
        let all = inspect::orphans_on(disk, base, n, reached);
        let last = (n - 1) as u64;
        law_scan_lists_what_was_not_reached(disk, base, (n - 1) as nat, reached);
        assert forall|i: int| 0 <= i < less.len() implies #[trigger] less[i] < last by {
            assert(less.contains(less[i]));
        }
        assert forall|x: u64| #[trigger]
            all.contains(x) <==> x < n && seal::seal_of(disk[base + x]) is Some
                && !reached.contains(x) by {
            if all != less {
                assert(all == less.push(last));
                if all.contains(x) {
                    let i = choose|i: int| 0 <= i < all.len() && all[i] == x;
                    if i < less.len() {
                        assert(less[i] == x);
                        assert(less.contains(x));
                    }
                }
                if less.contains(x) {
                    let i = choose|i: int| 0 <= i < less.len() && less[i] == x;
                    assert(all[i] == x);
                }
                assert(all[less.len() as int] == last);
                assert(base + last == base + n - 1);
            } else {
                assert(all =~= less);
                assert(!(seal::hp_of(disk[base + n - 1]) is Some && !reached.contains(last)));
                assert(base + last == base + n - 1);
                assert(less.contains(x) ==> x < n - 1);
                assert(x < n ==> x < n - 1 || x == last);
            }
        }
    }
}

/// Law: a report has orphans only where they were asked for. An address is among them exactly where it
/// lies in the tract, on the device, the block there is sealed, and the walk from the head's root did not
/// reach it. So no orphan was reached, and every sealed block of the tract is an orphan or was reached.
pub proof fn law_orphans_were_not_reached(
    disk: Seq<Seq<u8>>,
    opts: InspectOptions,
    chain: Seq<(u64, bool)>,
    v: ReportView,
    t: Tour,
)
    requires
        disk.len() <= u64::MAX,
        inspect::report_on(disk, opts, chain) == Ok::<ReportView, ErrorView>(v),
        inspect::tree_on(disk, v.tract_base as int, v.head) == Ok::<Tour, ErrorView>(t),
        v.ring_log2 < 64,
    ensures
        v.orphans is Some == opts.orphan_scan,
        v.orphans matches Some(o) ==> {
            &&& forall|x: u64| #[trigger]
                o.contains(x) <==> {
                    &&& v.tract_base + x < disk.len()
                    &&& v.head matches Some((_, e)) ==> x < e.tract
                    &&& seal::seal_of(disk[v.tract_base + x]) is Some
                    &&& !t.reached.contains(x)
                }
            &&& forall|x: u64| #[trigger] t.reached.contains(x) ==> !o.contains(x)
            &&& forall|i: int, j: int|
                0 <= i < j < o.len() ==> #[trigger] o[i] < #[trigger] o[j]
        },
{
    let n = pow2(v.ring_log2 as nat);
    vstd::bits::lemma_u64_pow2_no_overflow(v.ring_log2 as nat);
    let blocks = match v.head {
        Some((_, e)) => Some(e.tract),
        None => None,
    };
    law_scan_lists_what_was_not_reached(
        disk,
        n as int,
        inspect::scanned(disk, n as int, blocks),
        t.reached,
    );
}

// ---------------------------------------------------------------- the layout found

/// Law: what a report says of the device and its ring is what the disk holds. The ring's exponent is the
/// one that the first low slot with an entry names; every slot on the device is listed with what stands
/// there; and no valid slot holds a newer entry than the head.
pub proof fn law_report_says_what_stands_there(
    disk: Seq<Seq<u8>>,
    opts: InspectOptions,
    chain: Seq<(u64, bool)>,
    v: ReportView,
)
    requires
        disk.len() <= u64::MAX,
        inspect::report_on(disk, opts, chain) == Ok::<ReportView, ErrorView>(v),
        v.ring_log2 < 64,
    ensures
        v.file_blocks == disk.len(),
        forall|x: u8| #[trigger] ring::boots(disk, x) ==> v.ring_log2 == x,
        (forall|x: u8| !#[trigger] ring::boots(disk, x)) ==> v.ring_log2 == 8,
        v.ring_n == pow2(v.ring_log2 as nat),
        v.tract_base == v.ring_n,
        v.slots.len() <= v.ring_n,
        v.slots.len() <= disk.len(),
        v.slots.len() == v.ring_n || v.slots.len() == disk.len(),
        forall|i: int|
            0 <= i < v.slots.len() ==> (#[trigger] v.slots[i]).0 == i && v.slots[i].1
                == spine::class_of(disk[i], i as u64, Some(v.ring_log2)),
        match v.head {
            Some((s, e)) => {
                &&& s < v.slots.len()
                &&& v.slots[s as int].1 == ClassView::Valid(e)
                &&& v.tract_blocks_field == Some(e.tract)
                &&& forall|i: int|
                    0 <= i < v.slots.len() ==> ((#[trigger] v.slots[i]).1 matches ClassView::Valid(f)
                        ==> f.gen <= e.gen)
            },
            None => {
                &&& v.tract_blocks_field is None
                &&& forall|i: int| 0 <= i < v.slots.len() ==> !((#[trigger] v.slots[i]).1 is Valid)
            },
        },
        v.chain == chain,
{
    let ring = v.ring_log2;
    let n = pow2(ring as nat);
    vstd::bits::lemma_u64_pow2_no_overflow(ring as nat);
    assert forall|x: u8| #[trigger] ring::boots(disk, x) implies ring == x by {
        mooring::lemma_one_boot(disk, inspect::ring_on(disk), x);
    }
    replicate::lemma_best_newest(disk, 0, ring, n);
    assert forall|i: int| 0 <= i < v.slots.len() implies (#[trigger] v.slots[i]).0 == i
        && v.slots[i].1 == ring::class_at(disk, 0, ring, i) by {}
}

// ---------------------------------------------------------------- the hash chain

/// Law: the chain goes down generation by generation from the head's, to genesis or to the first one whose
/// parent the ring no longer has. A link holds exactly where the parent's hash is the one that the child
/// names; at genesis, where the entry names none.
pub proof fn law_chain_goes_down_to_genesis(disk: Seq<Seq<u8>>, ring: u8, gen: u64, prev: Seq<u8>)
    ensures
        ({
            let c = inspect::chain_on(disk, ring, gen, prev);
            let n = pow2(ring as nat) as int;
            &&& 0 < c.len() <= gen + 1
            &&& forall|i: int| 0 <= i < c.len() ==> (#[trigger] c[i]).0 == gen - i
            &&& forall|i: int|
                0 < i < c.len() ==> (ring::class_at(disk, 0, ring, (#[trigger] c[i]).0 as int % n)
                    matches ClassView::Valid(e) && e.gen == c[i].0)
            &&& forall|i: int|
                0 <= i < c.len() - 1 ==> ((#[trigger] c[i]).1 <==> (if i == 0 {
                    prev
                } else {
                    ring::class_at(disk, 0, ring, c[i].0 as int % n)->Valid_0.prev
                }) == spine::spine_hash(
                    ring::class_at(disk, 0, ring, (c[i].0 - 1) as int % n)->Valid_0,
                ))
            &&& c.last().0 == 0 ==> (c.last().1 <==> (if c.len() == 1 {
                prev
            } else {
                ring::class_at(disk, 0, ring, 0)->Valid_0.prev
            }) == block::zeros32())
            &&& c.last().0 > 0 ==> !c.last().1 && !(ring::class_at(
                disk,
                0,
                ring,
                (c.last().0 - 1) as int % n,
            ) matches ClassView::Valid(e) && e.gen == c.last().0 - 1)
        }),
    decreases gen,
{
    let c = inspect::chain_on(disk, ring, gen, prev);
    let n = pow2(ring as nat) as int;
    lemma_pow2_pos(ring as nat);
    if gen > 0 {
        let p = (gen - 1) as u64;
        if let ClassView::Valid(e) = ring::class_at(disk, 0, ring, p as int % n) {
            if e.gen == p {
                law_chain_goes_down_to_genesis(disk, ring, p, e.prev);
                let rest = inspect::chain_on(disk, ring, p, e.prev);
                assert(c == seq![(gen, prev == spine::spine_hash(e))] + rest);
                assert(forall|i: int| 0 < i < c.len() ==> #[trigger] c[i] == rest[i - 1]);
                assert(c.last() == rest.last());
                vstd::arithmetic::div_mod::lemma_small_mod(0, n as nat);
                assert(rest[0].0 == p);
            }
        }
    }
}

// ---------------------------------------------------------------- the checks

/// How many corrupt slots there are, by listing them.
proof fn lemma_corrupt_slots(slots: Seq<(u64, ClassView)>)
    ensures
        inspect::corrupt_slots(slots) == slots.filter(|s: (u64, ClassView)| s.1 is Corrupt).len(),
        inspect::corrupt_slots(slots) == 0 <==> forall|i: int|
            0 <= i < slots.len() ==> !((#[trigger] slots[i]).1 is Corrupt),
    decreases slots.len(),
{
    reveal(Seq::filter);
    if slots.len() > 0 {
        let less = slots.drop_last();
        lemma_corrupt_slots(less);
        assert(forall|i: int| 0 <= i < less.len() ==> less[i] == #[trigger] slots[i]);
        assert(slots[slots.len() - 1] == slots.last());
        if inspect::corrupt_slots(slots) == 0 {
            assert forall|i: int| 0 <= i < slots.len() implies !((#[trigger] slots[i]).1 is Corrupt) by {
                if i < less.len() {
                    assert(!(less[i].1 is Corrupt));
                }
            }
        }
    }
}

/// How many broken links there are, by listing them.
proof fn lemma_broken_links(chain: Seq<(u64, bool)>, n: nat)
    ensures
        inspect::broken_links(chain, n) == chain.filter(|l: (u64, bool)| !l.1 && l.0 < n).len(),
        inspect::broken_links(chain, n) == 0 <==> forall|i: int|
            0 <= i < chain.len() ==> (#[trigger] chain[i]).1 || chain[i].0 >= n,
    decreases chain.len(),
{
    reveal(Seq::filter);
    if chain.len() > 0 {
        let less = chain.drop_last();
        lemma_broken_links(less, n);
        assert(forall|i: int| 0 <= i < less.len() ==> less[i] == #[trigger] chain[i]);
        assert(chain[chain.len() - 1] == chain.last());
        if inspect::broken_links(chain, n) == 0 {
            assert forall|i: int| 0 <= i < chain.len() implies (#[trigger] chain[i]).1 || chain[i].0
                >= n by {
                if i < less.len() {
                    assert(less[i].1 || less[i].0 >= n);
                }
            }
        }
    }
}

/// How many bad blocks there are, by listing them.
proof fn lemma_bad_blocks(tree: Seq<TreeView>)
    ensures
        inspect::bad_blocks(tree) == tree.filter(|t: TreeView| !(t.seal_ok && t.self_addr_ok)).len(),
        inspect::bad_blocks(tree) == 0 <==> forall|i: int|
            0 <= i < tree.len() ==> (#[trigger] tree[i]).seal_ok && tree[i].self_addr_ok,
    decreases tree.len(),
{
    reveal(Seq::filter);
    if tree.len() > 0 {
        let less = tree.drop_last();
        lemma_bad_blocks(less);
        assert(forall|i: int| 0 <= i < less.len() ==> less[i] == #[trigger] tree[i]);
        assert(tree[tree.len() - 1] == tree.last());
        if inspect::bad_blocks(tree) == 0 {
            assert forall|i: int| 0 <= i < tree.len() implies (#[trigger] tree[i]).seal_ok
                && tree[i].self_addr_ok by {
                if i < less.len() {
                    assert(less[i].seal_ok && less[i].self_addr_ok);
                }
            }
        }
    }
}

/// Law: each check of a report passes exactly where what it names holds: no slot is corrupt; there is a
/// head; no link of the first lap is broken; the root seals to the head's index; every block of the tree is
/// sealed and stands where it belongs; and the head counts as many live blocks as were reached. A check
/// that fails says how many there are of what it found.
pub proof fn law_checks_pass_where_all_is_sound(
    disk: Seq<Seq<u8>>,
    opts: InspectOptions,
    chain: Seq<(u64, bool)>,
    v: ReportView,
)
    requires
        inspect::report_on(disk, opts, chain) == Ok::<ReportView, ErrorView>(v),
    ensures
        v.checks.len() == (if v.head is Some {
            6nat
        } else {
            4nat
        }),
        v.checks[0].pass <==> forall|i: int|
            0 <= i < v.slots.len() ==> !((#[trigger] v.slots[i]).1 is Corrupt),
        v.checks[1].pass <==> v.head is Some,
        v.checks[2].pass <==> forall|i: int|
            0 <= i < v.chain.len() ==> (#[trigger] v.chain[i]).1 || v.chain[i].0 >= pow2(
                v.ring_log2 as nat,
            ),
        v.head matches Some((_, e)) ==> {
            &&& v.checks[3].pass <==> e.hamt == block::zeros32() || (v.tree.len() > 0
                && v.tree[0].seal_ok)
            &&& v.checks[5].pass <==> v.reachable == e.live
            &&& v.checks[5].detail == "reachable "@ + crate::text::dec(v.reachable)
                + " vs head.live "@ + crate::text::dec(e.live as nat)
        },
        v.head matches Some((s, e)) ==> v.checks[1].detail == "gen "@ + crate::text::dec(
            e.gen as nat,
        ) + " at slot "@ + crate::text::dec(s as nat),
        v.checks[if v.head is Some {
            4
        } else {
            3
        }].pass <==> forall|i: int|
            0 <= i < v.tree.len() ==> (#[trigger] v.tree[i]).seal_ok && v.tree[i].self_addr_ok,
        v.checks[0].pass || v.checks[0].detail == crate::text::dec(
            v.slots.filter(|s: (u64, ClassView)| s.1 is Corrupt).len(),
        ) + " corrupt/misplaced slot(s)"@,
        v.checks[2].pass || v.checks[2].detail == crate::text::dec(
            v.chain.filter(|l: (u64, bool)| !l.1 && l.0 < pow2(v.ring_log2 as nat)).len(),
        ) + " broken link(s) within the ring window"@,
{
    lemma_corrupt_slots(v.slots);
    lemma_broken_links(v.chain, pow2(v.ring_log2 as nat));
    lemma_bad_blocks(v.tree);
}

// ---------------------------------------------------------------- the walk

/// The blocks of a walk that are index nodes.
pub open spec fn nodes_of(tree: Seq<TreeView>) -> Seq<TreeView> {
    tree.filter(|t: TreeView| t.doc is Node)
}

/// The blocks of a walk that are furrows.
pub open spec fn furrows_of(tree: Seq<TreeView>) -> Seq<TreeView> {
    tree.filter(|t: TreeView| t.doc is Furrow)
}

/// Whether every block of a walk is sealed and stands where it belongs.
pub open spec fn sound(tree: Seq<TreeView>) -> bool {
    forall|i: int| 0 <= i < tree.len() ==> (#[trigger] tree[i]).seal_ok && tree[i].self_addr_ok
}

/// Whether what a walk lists is what it reached and counted. The addresses reached are those of the
/// blocks listed that lie on the device; a block that is called sealed is sealed, and listed as what it
/// decodes to; and where all is sound, every block is counted once, as what it is.
pub open spec fn told(disk: Seq<Seq<u8>>, base: int, t: Tour) -> bool {
    &&& forall|x: u64| #[trigger]
        t.reached.contains(x) <==> base + x < disk.len() && exists|i: int|
            0 <= i < t.tree.len() && (#[trigger] t.tree[i]).lba == x
    &&& forall|i: int|
        0 <= i < t.tree.len() && (#[trigger] t.tree[i]).seal_ok ==> {
            &&& base + t.tree[i].lba < disk.len()
            &&& inspect::tract_of(disk[base + t.tree[i].lba]) matches Ok((_, doc)) && doc
                == t.tree[i].doc
        }
    &&& forall|i: int|
        0 <= i < t.tree.len() && (#[trigger] t.tree[i]).self_addr_ok ==> (t.tree[i].doc matches BlockView::Node {
            depth,
            ..
        } ==> depth == t.tree[i].indent)
    &&& sound(t.tree) ==> t.nodes == nodes_of(t.tree).len() && t.furrows == furrows_of(
        t.tree,
    ).len() && t.nodes + t.leaves + t.furrows == t.tree.len()
    &&& t.nodes + t.leaves + t.furrows <= t.tree.len()
}

/// A walk after another is told where both are.
proof fn lemma_told_followed(disk: Seq<Seq<u8>>, base: int, a: Tour, b: Tour)
    requires
        told(disk, base, a),
        told(disk, base, b),
    ensures
        told(disk, base, a.followed(b)),
{
    let c = a.followed(b);
    assert(forall|i: int| 0 <= i < a.tree.len() ==> #[trigger] c.tree[i] == a.tree[i]);
    assert(forall|i: int|
        a.tree.len() <= i < c.tree.len() ==> #[trigger] c.tree[i] == b.tree[i - a.tree.len()]);
    Seq::filter_distributes_over_add(a.tree, b.tree, |t: TreeView| t.doc is Node);
    Seq::filter_distributes_over_add(a.tree, b.tree, |t: TreeView| t.doc is Furrow);
    assert forall|x: u64| #[trigger]
        c.reached.contains(x) <==> base + x < disk.len() && exists|i: int|
            0 <= i < c.tree.len() && (#[trigger] c.tree[i]).lba == x by {
        if a.reached.contains(x) {
            let i = choose|i: int| 0 <= i < a.tree.len() && (#[trigger] a.tree[i]).lba == x;
            assert(c.tree[i].lba == x);
        }
        if b.reached.contains(x) {
            let i = choose|i: int| 0 <= i < b.tree.len() && (#[trigger] b.tree[i]).lba == x;
            assert(c.tree[a.tree.len() + i].lba == x);
        }
        if exists|i: int| 0 <= i < c.tree.len() && (#[trigger] c.tree[i]).lba == x {
            let i = choose|i: int| 0 <= i < c.tree.len() && (#[trigger] c.tree[i]).lba == x;
            if i < a.tree.len() {
                assert(a.tree[i].lba == x);
            } else {
                assert(b.tree[i - a.tree.len()].lba == x);
            }
        }
    }
    if sound(c.tree) {
        assert forall|i: int| 0 <= i < a.tree.len() implies (#[trigger] a.tree[i]).seal_ok
            && a.tree[i].self_addr_ok by {
            assert(c.tree[i].seal_ok);
        }
        assert forall|i: int| 0 <= i < b.tree.len() implies (#[trigger] b.tree[i]).seal_ok
            && b.tree[i].self_addr_ok by {
            assert(c.tree[a.tree.len() + i].seal_ok);
        }
    }
}

/// A walk of a single block is told where the block is.
proof fn lemma_told_lone(disk: Seq<Seq<u8>>, base: int, t: TreeView, x: Tour)
    requires
        x.tree == seq![t],
        x.reached == (if base + t.lba < disk.len() {
            Set::<u64>::empty().insert(t.lba)
        } else {
            Set::<u64>::empty()
        }),
        t.seal_ok ==> base + t.lba < disk.len() && (inspect::tract_of(
            disk[base + t.lba],
        ) matches Ok((_, doc)) && doc == t.doc),
        t.self_addr_ok ==> (t.doc matches BlockView::Node { depth, .. } ==> depth == t.indent),
        t.seal_ok && t.self_addr_ok ==> x.nodes == (if t.doc is Node {
            1nat
        } else {
            0nat
        }) && x.furrows == (if t.doc is Furrow {
            1nat
        } else {
            0nat
        }) && x.nodes + x.leaves + x.furrows == 1,
        x.nodes + x.leaves + x.furrows <= 1,
    ensures
        told(disk, base, x),
{
    reveal(Seq::filter);
    assert(x.tree.drop_last() =~= Seq::<TreeView>::empty());
    assert(x.tree.last() == t);
    assert(nodes_of(x.tree.drop_last()).len() == 0);
    assert(furrows_of(x.tree.drop_last()).len() == 0);
    assert(x.tree[0] == t);
    assert forall|y: u64| #[trigger]
        x.reached.contains(y) <==> base + y < disk.len() && exists|i: int|
            0 <= i < x.tree.len() && (#[trigger] x.tree[i]).lba == y by {
        if x.reached.contains(y) {
            assert(x.tree[0].lba == y);
        }
    }
    if sound(x.tree) {
        assert(x.tree[0].seal_ok && x.tree[0].self_addr_ok);
    }
}

proof fn lemma_told_none(disk: Seq<Seq<u8>>, base: int)
    ensures
        told(disk, base, inspect::no_tour()),
{
    reveal(Seq::filter);
}

proof fn lemma_told_furrows(
    disk: Seq<Seq<u8>>,
    base: int,
    at: Seq<u64>,
    n: nat,
    owner: Seq<u8>,
    indent: nat,
)
    ensures
        told(disk, base, inspect::furrow_tours(disk, base, at, n, owner, indent)),
    decreases n,
{
    lemma_told_none(disk, base);
    if n > 0 {
        let lba = at[n - 1];
        lemma_told_furrows(disk, base, at, (n - 1) as nat, owner, indent);
        let x = inspect::furrow_tour(disk, base, lba, owner, (n - 1) as u64, indent);
        if base + lba < disk.len() {
            lemma_told_lone(disk, base, x.tree[0], x);
        }
        lemma_told_followed(
            disk,
            base,
            inspect::furrow_tours(disk, base, at, (n - 1) as nat, owner, indent),
            x,
        );
    }
}

proof fn lemma_told_tour(
    disk: Seq<Seq<u8>>,
    base: int,
    lba: u64,
    hash: Seq<u8>,
    depth: nat,
    route: Seq<u8>,
)
    ensures
        inspect::tour(disk, base, lba, hash, depth, route) matches Ok(x) ==> told(disk, base, x)
            && x.tree.len() > 0 && x.tree[0].lba == lba && (x.tree[0].seal_ok <==> base + lba
            < disk.len() && (inspect::tract_of(disk[base + lba]) matches Ok((h, _)) && h == hash)),
    decreases 53 - depth, 0nat,
{
    if let Ok(x) = inspect::tour(disk, base, lba, hash, depth, route) {
        let t = x.tree[0];
        let here = Tour {
            tree: seq![t],
            reached: if base + lba < disk.len() {
                Set::<u64>::empty().insert(lba)
            } else {
                Set::<u64>::empty()
            },
            nodes: if base + lba < disk.len() && (inspect::tract_of(
                disk[base + lba],
            ) matches Ok((_, doc)) && doc is Node) {
                1
            } else {
                0
            },
            leaves: if base + lba < disk.len() && (inspect::tract_of(
                disk[base + lba],
            ) matches Ok((_, doc)) && !(doc is Node) && !(doc is Furrow)) {
                1
            } else {
                0
            },
            furrows: 0,
        };
        if base + lba < disk.len() {
            match inspect::tract_of(disk[base + lba]) {
                Ok((_, BlockView::Node { children, .. })) => {
                    if children.len() > 0 {
                        lemma_told_tours(disk, base, children, children.len(), depth, route);
                        let y = inspect::tours(
                            disk,
                            base,
                            children,
                            children.len(),
                            depth,
                            route,
                        )->Ok_0;
                        assert(x =~= here.followed(y));
                        lemma_told_lone(disk, base, t, here);
                        lemma_told_followed(disk, base, here, y);
                    } else {
                        assert(x =~= here);
                        lemma_told_lone(disk, base, t, here);
                    }
                },
                Ok((_, BlockView::Direct { key, furrows, .. })) => {
                    lemma_told_furrows(disk, base, furrows, furrows.len(), key, depth + 1);
                    let y = inspect::furrow_tours(
                        disk,
                        base,
                        furrows,
                        furrows.len(),
                        key,
                        depth + 1,
                    );
                    assert(x =~= here.followed(y));
                    lemma_told_lone(disk, base, t, here);
                    lemma_told_followed(disk, base, here, y);
                },
                Ok((_, BlockView::Extent { key, size, runs })) => {
                    if let Ok(at) = crate::extent::expanded(runs, size) {
                        lemma_told_furrows(disk, base, at, at.len(), key, depth + 1);
                        let y = inspect::furrow_tours(disk, base, at, at.len(), key, depth + 1);
                        assert(x =~= here.followed(y));
                        lemma_told_lone(disk, base, t, here);
                        lemma_told_followed(disk, base, here, y);
                    } else {
                        assert(x =~= here);
                        lemma_told_lone(disk, base, t, here);
                    }
                },
                _ => {
                    assert(x =~= here);
                    lemma_told_lone(disk, base, t, here);
                },
            }
        } else {
            assert(x =~= here);
            lemma_told_lone(disk, base, t, here);
        }
    }
}

proof fn lemma_told_tours(
    disk: Seq<Seq<u8>>,
    base: int,
    children: Seq<(u8, Seq<u8>, u64)>,
    n: nat,
    depth: nat,
    route: Seq<u8>,
)
    ensures
        inspect::tours(disk, base, children, n, depth, route) matches Ok(x) ==> told(disk, base, x),
    decreases 52 - depth, n,
{
    lemma_told_none(disk, base);
    if n > 0 && depth < 52 {
        if let Ok(_) = inspect::tours(disk, base, children, n, depth, route) {
            let (slot, h, lba) = children[n - 1];
            let below = crate::key::routed(route, depth as int, slot);
            lemma_told_tours(disk, base, children, (n - 1) as nat, depth, route);
            lemma_told_tour(disk, base, lba, h, depth + 1, below);
            lemma_told_followed(
                disk,
                base,
                inspect::tours(disk, base, children, (n - 1) as nat, depth, route)->Ok_0,
                inspect::tour(disk, base, lba, h, depth + 1, below)->Ok_0,
            );
        }
    }
}

/// Law: what a report lists of the tree is what it reached and counted, and the root check looks at the
/// root: it passes exactly where the head's index is empty, or the block at the head's address is on the
/// device, decodes, and is sealed with the hash that the head names.
pub proof fn law_report_counts_what_it_lists(
    disk: Seq<Seq<u8>>,
    opts: InspectOptions,
    chain: Seq<(u64, bool)>,
    v: ReportView,
    t: Tour,
)
    requires
        inspect::report_on(disk, opts, chain) == Ok::<ReportView, ErrorView>(v),
        inspect::tree_on(disk, v.tract_base as int, v.head) == Ok::<Tour, ErrorView>(t),
        v.ring_log2 < 64,
    ensures
        told(disk, v.tract_base as int, t),
        v.tree == t.tree,
        v.nodes == t.nodes,
        v.leaves == t.leaves,
        v.furrows == t.furrows,
        v.reachable == t.reached.len(),
        v.head is None ==> v.tree.len() == 0,
        v.head matches Some((_, e)) ==> {
            &&& e.hamt == block::zeros32() <==> v.tree.len() == 0
            &&& v.checks[3].pass <==> e.hamt == block::zeros32() || (v.tract_base + e.hamtat
                < disk.len() && (inspect::tract_of(
                disk[v.tract_base + e.hamtat],
            ) matches Ok((h, _)) && h == e.hamt))
        },
{
    vstd::bits::lemma_u64_pow2_no_overflow(v.ring_log2 as nat);
    let base = v.tract_base as int;
    lemma_told_none(disk, base);
    if let Some((_, e)) = v.head {
        lemma_told_tour(disk, base, e.hamtat, e.hamt, 0, block::zeros32());
    }
}

/// Law: a walk judges each block that it meets by what points at it. It calls a block sealed where the block
/// decodes and its seal is the pointer's hash; it calls it in place where a node is of the depth that the walk
/// is at, or a leaf's key takes the way that led there. A furrow is in place nowhere in the index.
pub proof fn law_walk_judges_by_the_pointer(
    disk: Seq<Seq<u8>>,
    base: int,
    lba: u64,
    hash: Seq<u8>,
    depth: nat,
    route: Seq<u8>,
    x: Tour,
)
    requires
        inspect::tour(disk, base, lba, hash, depth, route) == Ok::<Tour, ErrorView>(x),
    ensures
        x.tree.len() > 0,
        x.tree[0].lba == lba,
        x.tree[0].indent == depth,
        x.reached.contains(lba) <==> base + lba < disk.len(),
        x.tree[0].seal_ok <==> base + lba < disk.len() && (inspect::tract_of(
            disk[base + lba],
        ) matches Ok((h, _)) && h == hash),
        base + lba >= disk.len() || inspect::tract_of(disk[base + lba]) is Err
            ==> !x.tree[0].self_addr_ok && x.tree[0].note is Some,
        base + lba < disk.len() ==> (inspect::tract_of(disk[base + lba]) matches Ok((_, doc)) ==> {
            &&& x.tree[0].doc == doc
            &&& doc matches BlockView::Node { depth: d, .. } ==> (x.tree[0].self_addr_ok <==> d
                == depth)
            &&& doc matches BlockView::Lone { key, .. } ==> (x.tree[0].self_addr_ok
                <==> crate::key::agree(key, route, depth as int))
            &&& doc matches BlockView::Direct { key, .. } ==> (x.tree[0].self_addr_ok
                <==> crate::key::agree(key, route, depth as int))
            &&& doc matches BlockView::Extent { key, size, runs } ==> (x.tree[0].self_addr_ok
                <==> crate::key::agree(key, route, depth as int) && crate::extent::expanded(
                runs,
                size,
            ) is Ok)
            &&& doc is Furrow ==> !x.tree[0].self_addr_ok && x.tree.len() == 1
        }),
{
    lemma_told_tour(disk, base, lba, hash, depth, route);
    assert(x.tree[0].lba == lba);
}

/// Law: a furrow is in place exactly where it says that it is of the leaf that lists it, under the index at
/// which it is listed; one beyond the device is passed over.
pub proof fn law_furrow_belongs_to_its_leaf(
    disk: Seq<Seq<u8>>,
    base: int,
    lba: u64,
    owner: Seq<u8>,
    index: u64,
    indent: nat,
)
    ensures
        ({
            let x = inspect::furrow_tour(disk, base, lba, owner, index, indent);
            &&& base + lba >= disk.len() ==> x == inspect::no_tour()
            &&& base + lba < disk.len() ==> {
                &&& x.tree.len() == 1
                &&& x.furrows == 1
                &&& x.reached == set![lba]
                &&& x.tree[0].lba == lba
                &&& x.tree[0].seal_ok <==> inspect::tract_of(disk[base + lba]) is Ok
                &&& x.tree[0].self_addr_ok <==> (inspect::tract_of(disk[base + lba]) matches Ok((
                    _,
                    BlockView::Furrow { key, index: i, .. },
                )) && key == owner && i == index)
            }
        }),
{
    let x = inspect::furrow_tour(disk, base, lba, owner, index, indent);
    if base + lba < disk.len() {
        assert(x.reached =~= set![lba]);
    }
}

/// Law: a report's chain is that of its head, and without a head there is none.
pub proof fn law_chain_begins_at_the_head(
    disk: Seq<Seq<u8>>,
    ring: u8,
    head: Option<(u64, SpineView)>,
)
    ensures
        head is None ==> inspect::head_chain(disk, ring, head).len() == 0,
        head matches Some((_, e)) ==> {
            let c = inspect::head_chain(disk, ring, head);
            &&& c.len() > 0
            &&& c[0].0 == e.gen
            &&& e.gen == 0 ==> c == seq![(0u64, e.prev == block::zeros32())]
            &&& e.gen > 0 ==> (c[0].1 <==> (ring::class_at(
                disk,
                0,
                ring,
                (e.gen - 1) % (pow2(ring as nat) as int),
            ) matches ClassView::Valid(f) && f.gen == e.gen - 1 && e.prev == spine::spine_hash(f)))
        },
{
    if let Some((_, e)) = head {
        law_chain_goes_down_to_genesis(disk, ring, e.gen, e.prev);
    }
}

// ---------------------------------------------------------------- two heads

/// Law: two heads have converged exactly where their generations and their indexes are the same, are split
/// where only their generations are, and otherwise the one with the higher generation is newer.
pub proof fn law_heads_compare_by_generation(a: ReportView, b: ReportView)
    ensures
        ({
            let c = inspect::convergence(inspect::head_of(a), inspect::head_of(b));
            match (a.head, b.head) {
                (Some((_, x)), Some((_, y))) => {
                    &&& x.gen == y.gen && x.hamt == y.hamt ==> c == Convergence::Converged(x.gen)
                    &&& x.gen == y.gen && x.hamt != y.hamt ==> c == Convergence::Split(x.gen)
                    &&& x.gen > y.gen ==> c == (Convergence::Behind {
                        first_newer: true,
                        newer: x.gen,
                        older: y.gen,
                    })
                    &&& x.gen < y.gen ==> c == (Convergence::Behind {
                        first_newer: false,
                        newer: y.gen,
                        older: x.gen,
                    })
                },
                _ => c == Convergence::NoHead,
            }
        }),
{
}

/// Law: a block that is sealed with the hash its pointer names needs no remark, and any other has one.
pub proof fn law_wrong_hash_is_remarked(found: Seq<u8>, named: Seq<u8>)
    ensures
        inspect::hash_note(found, named) is None <==> found == named,
        found.len() == 32 ==> inspect::hex8(found) == crate::text::hex(found).take(8),
{
    if found.len() == 32 {
        lemma_hex_begins(found, 4);
        assert(found.take(32) =~= found);
    }
}

/// The numerals of some bytes begin with those of the first ones.
proof fn lemma_hex_begins(b: Seq<u8>, n: int)
    requires
        0 <= n <= b.len(),
    ensures
        crate::text::hex(b).len() == 2 * b.len(),
        crate::text::hex(b).take(2 * n) == crate::text::hex(b.take(n)),
    decreases b.len(),
{
    if n == b.len() {
        assert(b.take(n) =~= b);
        if b.len() > 0 {
            lemma_hex_begins(b.drop_last(), b.len() - 1);
        }
        assert(crate::text::hex(b).take(2 * n) =~= crate::text::hex(b));
    } else {
        lemma_hex_begins(b.drop_last(), n);
        assert(b.drop_last().take(n) =~= b.take(n));
        assert(crate::text::hex(b).take(2 * n) =~= crate::text::hex(b.drop_last()).take(2 * n));
    }
}

}
