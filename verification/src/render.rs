//! An inspection as text.
use vstd::prelude::*;
use vstd::string::*;
use vstd::arithmetic::power2::*;
use crate::inspect;
use crate::inspect::{
    hex8_text, BlockView, Check, CheckView, InspectOptions, InspectReport, ReportView, SlotKind,
    TractBlock, TreeNode, TreeView,
};
use crate::ring::SpineEntry;
use crate::spine::{slot_count, ClassView, SpineView};
use crate::text;
use crate::text::{dec_text, left_text, push_dec, push_dec_wide, push_signed, push_spaces, right_text};

verus! {

// Every spec function below takes the text so far and gives it with its part appended.

/// `a / b`, rounded to the nearest whole number, a tie to the even one.
pub open spec fn nearest(a: nat, b: nat) -> nat {
    let q = a / b;
    let r = a % b;
    if 2 * r > b || (2 * r == b && q % 2 == 1) {
        q + 1
    } else {
        q
    }
}

/// A number of tenths as a decimal with one place.
pub open spec fn tenths(s: Seq<char>, t: nat) -> Seq<char> {
    s + text::dec(t / 10) + "."@ + text::dec(t % 10)
}

/// A number of bytes, in the unit that suits it.
pub open spec fn human(s: Seq<char>, n: nat) -> Seq<char> {
    if n < 1024 {
        s + text::dec(n) + " B"@
    } else if n < 0x10_0000 {
        tenths(s, nearest(10 * n, 1024)) + " KB"@
    } else {
        tenths(s, nearest(10 * n, 0x10_0000)) + " MB"@
    }
}

/// Sizes and places.
pub open spec fn geometry(s: Seq<char>, v: ReportView) -> Seq<char> {
    let a = human(
        s + "=== manifestus vault ===\n"@ + "file:    "@ + text::dec(v.file_blocks as nat)
            + " blocks ("@,
        (v.file_blocks * 4096) as nat,
    );
    let b = a + ")\n"@ + "ring:    N = "@ + text::dec(v.ring_n as nat) + " (log2 "@ + text::dec(
        v.ring_log2 as nat,
    ) + ")\n"@ + "tract:   base lba "@ + text::dec(v.tract_base as nat);
    let c = match v.tract_blocks_field {
        Some(t) => b + ", "@ + text::dec(t as nat) + " blocks (from head)"@,
        None => b,
    };
    c + "\n\n"@
}

/// The ring section so far: its text, the empty slots not shown yet, and the counts.
pub struct RingText {
    pub out: Seq<char>,
    pub run: nat,
    pub valid: nat,
    pub empty: nat,
    pub corrupt: nat,
}

/// Shows a run of empty slots as one line.
pub open spec fn flushed(s: Seq<char>, run: nat, verbose: bool) -> Seq<char> {
    if !verbose && run > 0 {
        s + "  ... "@ + text::dec(run) + " empty slot(s) ...\n"@
    } else {
        s
    }
}

pub open spec fn slot_head(s: Seq<char>, slot: u64) -> Seq<char> {
    s + "  slot "@ + text::right(text::dec(slot as nat), 4)
}

/// The line of an entry.
pub open spec fn entry_line(s: Seq<char>, slot: u64, e: SpineView, is_head: bool) -> Seq<char> {
    let a = slot_head(s, slot) + "  gen "@ + text::right(text::dec(e.gen as nat), 6) + "  plow "@
        + text::right(text::dec(e.plow as nat), 8) + "  live "@ + text::right(
        text::dec(e.live as nat),
        6,
    ) + "  hamt@"@ + text::left(text::dec(e.hamtat as nat), 8) + " "@ + inspect::hex8(e.hamt);
    let b = if is_head {
        a + " <== HEAD"@
    } else {
        a
    };
    b + "\n"@
}

/// The first `n` slots.
pub open spec fn ring_rows(
    s: Seq<char>,
    slots: Seq<(u64, ClassView)>,
    n: nat,
    head: Option<(u64, SpineView)>,
    verbose: bool,
) -> RingText
    decreases n,
{
    if n == 0 {
        RingText { out: s, run: 0, valid: 0, empty: 0, corrupt: 0 }
    } else {
        let t = ring_rows(s, slots, (n - 1) as nat, head, verbose);
        let (slot, kind) = slots[n - 1];
        let left = if verbose {
            t.run
        } else {
            0
        };
        match kind {
            ClassView::Valid(e) => RingText {
                out: entry_line(
                    flushed(t.out, t.run, verbose),
                    slot,
                    e,
                    head matches Some((h, _)) && h == slot,
                ),
                run: left,
                valid: t.valid + 1,
                ..t
            },
            ClassView::Empty => if verbose {
                RingText {
                    out: slot_head(t.out, slot) + "  (empty)\n"@,
                    empty: t.empty + 1,
                    ..t
                }
            } else {
                RingText { run: t.run + 1, empty: t.empty + 1, ..t }
            },
            ClassView::Corrupt => RingText {
                out: slot_head(flushed(t.out, t.run, verbose), slot) + "  CORRUPT\n"@,
                run: left,
                corrupt: t.corrupt + 1,
                ..t
            },
        }
    }
}

/// The ring.
pub open spec fn ring_section(s: Seq<char>, v: ReportView, verbose: bool) -> Seq<char> {
    let t = ring_rows(s + "--- spine ring ---\n"@, v.slots, v.slots.len(), v.head, verbose);
    flushed(t.out, t.run, verbose) + "  occupancy: "@ + text::dec(t.valid) + " valid, "@ + text::dec(
        t.empty,
    ) + " empty, "@ + text::dec(t.corrupt) + " corrupt\n\n"@
}

/// The commit object.
pub open spec fn head_section(s: Seq<char>, slot: u64, e: SpineView) -> Seq<char> {
    let len: nat = if e.tract == 0 {
        1
    } else {
        e.tract as nat
    };
    s + "--- committed commit object ---\n"@ + "  gen     "@ + text::dec(e.gen as nat) + "\n"@
        + "  prev    "@ + inspect::hex8(e.prev) + "\n"@ + "  ring    "@ + text::dec(e.ring as nat)
        + " (N = "@ + text::dec(pow2(e.ring as nat)) + ")\n"@ + "  tract   "@ + text::dec(
        e.tract as nat,
    ) + " blocks\n"@ + "  hamt    "@ + inspect::hex8(e.hamt) + " @ tract lba "@ + text::dec(
        e.hamtat as nat,
    ) + "\n"@ + "  plow    "@ + text::dec(e.plow as nat) + " (lap "@ + text::dec(
        e.plow as nat / len,
    ) + ", pos "@ + text::dec(e.plow as nat % len) + ")\n"@ + "  live    "@ + text::dec(
        e.live as nat,
    ) + "\n"@ + "  time    "@ + text::signed_dec(e.time as int) + "\n"@ + "  (at ring slot "@
        + text::dec(slot as nat) + ")\n\n"@
}

/// The first `n` links of the chain.
pub open spec fn chain_rows(s: Seq<char>, chain: Seq<(u64, bool)>, n: nat) -> Seq<char>
    decreases n,
{
    if n == 0 {
        s
    } else {
        let t = chain_rows(s, chain, (n - 1) as nat);
        let (gen, ok) = chain[n - 1];
        t + "  gen "@ + text::right(text::dec(gen as nat), 6) + "  "@ + (if ok {
            "✓ chains\n"@
        } else {
            "✗ break / lap horizon\n"@
        })
    }
}

/// The commit object and its chain, where there is a head.
pub open spec fn commit_section(s: Seq<char>, v: ReportView) -> Seq<char> {
    match v.head {
        Some((slot, e)) => chain_rows(
            head_section(s, slot, e) + "--- hash chain (head -> genesis) ---\n"@,
            v.chain,
            v.chain.len(),
        ) + "\n"@,
        None => s,
    }
}

/// A block in one phrase.
pub open spec fn doc_phrase(s: Seq<char>, d: BlockView) -> Seq<char> {
    match d {
        BlockView::Node { depth, children, .. } => s + "node  depth "@ + text::dec(depth as nat)
            + "  "@ + text::dec(children.len()) + " child(ren)"@,
        BlockView::Lone { key, value_len } => s + "lone  key "@ + inspect::hex8(key) + "  ("@
            + text::dec(value_len) + " bytes, sealed)"@,
        BlockView::Direct { key, size, furrows } => human(
            s + "direct key "@ + inspect::hex8(key) + "  size "@ + text::dec(size as nat) + " ("@,
            size as nat,
        ) + "), "@ + text::dec(furrows.len()) + " furrow(s)"@,
        BlockView::Extent { key, size, runs } => human(
            s + "extent key "@ + inspect::hex8(key) + "  size "@ + text::dec(size as nat) + " ("@,
            size as nat,
        ) + "), "@ + text::dec(runs.len()) + " run(s)"@,
        BlockView::Furrow { index, payload_len, .. } => s + "furrow #"@ + text::dec(index as nat)
            + "  ("@ + text::dec(payload_len) + " bytes)"@,
    }
}

/// The line of a block in the tree.
pub open spec fn tree_line(s: Seq<char>, t: TreeView) -> Seq<char> {
    let a = doc_phrase(
        s + text::spaces(2 * (t.indent + 1)) + "@"@ + text::left(text::dec(t.lba as nat), 8)
            + " "@,
        t.doc,
    );
    let b = if t.seal_ok {
        a
    } else {
        a + " !seal"@
    };
    let c = if t.self_addr_ok {
        b
    } else {
        b + " !addr"@
    };
    let d = match t.note {
        Some(n) => c + "  ["@ + n + "]"@,
        None => c,
    };
    d + "\n"@
}

/// The first `n` blocks of the tree.
pub open spec fn tree_rows(s: Seq<char>, tree: Seq<TreeView>, n: nat) -> Seq<char>
    decreases n,
{
    if n == 0 {
        s
    } else {
        tree_line(tree_rows(s, tree, (n - 1) as nat), tree[n - 1])
    }
}

/// The tree, where it is not empty.
pub open spec fn tree_section(s: Seq<char>, v: ReportView) -> Seq<char> {
    if v.tree.len() == 0 {
        s
    } else {
        tree_rows(s + "--- HAMT tree ---\n"@, v.tree, v.tree.len()) + "  totals: "@ + text::dec(
            v.nodes,
        ) + " node(s), "@ + text::dec(v.leaves) + " leaf/leaves, "@ + text::dec(v.furrows)
            + " furrow(s), "@ + text::dec(v.reachable) + " reachable block(s)\n\n"@
    }
}

/// The first `n` addresses, with commas between.
pub open spec fn comma_list(s: Seq<char>, xs: Seq<u64>, n: nat) -> Seq<char>
    decreases n,
{
    if n == 0 {
        s
    } else {
        let t = comma_list(s, xs, (n - 1) as nat);
        let u = if n > 1 {
            t + ", "@
        } else {
            t
        };
        u + text::dec(xs[n - 1] as nat)
    }
}

/// The orphans, where they were looked for.
pub open spec fn orphan_section(s: Seq<char>, v: ReportView) -> Seq<char> {
    match v.orphans {
        None => s,
        Some(xs) => {
            let a = s + "--- orphan scan ---\n"@;
            let b = if xs.len() == 0 {
                a + "  no orphaned sealed blocks (every sealed tract block is reachable)\n"@
            } else {
                let n = if xs.len() > 32 {
                    32nat
                } else {
                    xs.len()
                };
                let c = comma_list(
                    a + "  "@ + text::dec(xs.len())
                        + " sealed block(s) not reachable from root (fence-held old gens + plow garbage):\n"@
                        + "  lbas: "@,
                    xs,
                    n,
                );
                (if xs.len() > 32 {
                    c + ", ..."@
                } else {
                    c
                }) + "\n"@
            };
            b + "\n"@
        },
    }
}

/// The first `n` checks.
pub open spec fn check_rows(s: Seq<char>, checks: Seq<CheckView>, n: nat) -> Seq<char>
    decreases n,
{
    if n == 0 {
        s
    } else {
        let t = check_rows(s, checks, (n - 1) as nat);
        let c = checks[n - 1];
        t + (if c.pass {
            "  [PASS] "@
        } else {
            "  [FAIL] "@
        }) + c.name + " — "@ + c.detail + "\n"@
    }
}

/// Whether every check passed.
pub open spec fn sound(checks: Seq<CheckView>) -> bool {
    forall|i: int| 0 <= i < checks.len() ==> (#[trigger] checks[i]).pass
}

/// The checks and the verdict.
pub open spec fn check_section(s: Seq<char>, v: ReportView) -> Seq<char> {
    check_rows(s + "--- spec checks ---\n"@, v.checks, v.checks.len()) + (if sound(v.checks) {
        "  => vault is spec-compliant\n"@
    } else {
        "  => SPEC VIOLATIONS PRESENT\n"@
    })
}

/// The whole report.
pub open spec fn page(v: ReportView, opts: InspectOptions) -> Seq<char> {
    let a = geometry(Seq::<char>::empty(), v);
    let b = if opts.show_ring {
        ring_section(a, v, opts.verbose_ring)
    } else {
        a
    };
    let c = commit_section(b, v);
    let d = if opts.show_tree {
        tree_section(c, v)
    } else {
        c
    };
    check_section(orphan_section(d, v), v)
}

// ---------------------------------------------------------------- writing it

fn put_tenths(o: &mut String, t: u128)
    ensures
        final(o)@ == tenths(old(o)@, t as nat),
{
    push_dec_wide(o, t / 10);
    o.append(".");
    push_dec_wide(o, t % 10);
}

fn nearest_of(a: u128, b: u128) -> (r: u128)
    requires
        0 < b <= 0x10_0000,
        a <= 0x1_0000_0000_0000_0000_0000_0000,
    ensures
        r == nearest(a as nat, b as nat),
{
    let q: u128 = a / b;
    let r: u128 = a % b;
    assert(q <= a) by (nonlinear_arith)
        requires
            q == a / b,
            b > 0,
            a >= 0,
    ;
    if 2 * r > b || (2 * r == b && q % 2 == 1) {
        q + 1
    } else {
        q
    }
}

/// Appends a number of bytes, in the unit that suits it.
fn humanize(o: &mut String, n: u128)
    requires
        n <= 0x1_0000_0000_0000_0000_0000,
    ensures
        final(o)@ == human(old(o)@, n as nat),
{
    if n < 1024 {
        push_dec_wide(o, n);
        o.append(" B");
    } else if n < 0x10_0000 {
        put_tenths(o, nearest_of(10 * n, 1024));
        o.append(" KB");
    } else {
        put_tenths(o, nearest_of(10 * n, 0x10_0000));
        o.append(" MB");
    }
}

fn put_right(o: &mut String, n: u64, width: usize)
    ensures
        final(o)@ == old(o)@ + text::right(text::dec(n as nat), width as nat),
{
    o.append(right_text(dec_text(n).as_str(), width).as_str());
}

fn put_left(o: &mut String, n: u64, width: usize)
    ensures
        final(o)@ == old(o)@ + text::left(text::dec(n as nat), width as nat),
{
    o.append(left_text(dec_text(n).as_str(), width).as_str());
}

fn put_geometry(o: &mut String, v: &InspectReport)
    ensures
        final(o)@ == geometry(old(o)@, v@),
{
    o.append("=== manifestus vault ===\n");
    o.append("file:    ");
    push_dec(o, v.file_blocks);
    o.append(" blocks (");
    humanize(o, v.file_blocks as u128 * 4096);
    o.append(")\n");
    o.append("ring:    N = ");
    push_dec(o, v.ring_n);
    o.append(" (log2 ");
    push_dec(o, v.ring_log2 as u64);
    o.append(")\n");
    o.append("tract:   base lba ");
    push_dec(o, v.tract_base);
    if let Some(t) = v.tract_blocks_field {
        o.append(", ");
        push_dec(o, t);
        o.append(" blocks (from head)");
    }
    o.append("\n\n");
}

fn flush_empty_run(o: &mut String, run: u64, verbose: bool)
    ensures
        final(o)@ == flushed(old(o)@, run as nat, verbose),
{
    if !verbose && run > 0 {
        o.append("  ... ");
        push_dec(o, run);
        o.append(" empty slot(s) ...\n");
    }
}

fn put_slot(o: &mut String, slot: u64)
    ensures
        final(o)@ == slot_head(old(o)@, slot),
{
    o.append("  slot ");
    put_right(o, slot, 4);
}

fn put_entry(o: &mut String, slot: u64, e: &SpineEntry, is_head: bool)
    ensures
        final(o)@ == entry_line(old(o)@, slot, e@, is_head),
{
    put_slot(o, slot);
    o.append("  gen ");
    put_right(o, e.gen, 6);
    o.append("  plow ");
    put_right(o, e.plow, 8);
    o.append("  live ");
    put_right(o, e.live, 6);
    o.append("  hamt@");
    put_left(o, e.hamt_lba, 8);
    o.append(" ");
    o.append(hex8_text(&e.hamt_hash).as_str());
    if is_head {
        o.append(" <== HEAD");
    }
    o.append("\n");
}

fn put_ring(o: &mut String, v: &InspectReport, verbose: bool)
    ensures
        final(o)@ == ring_section(old(o)@, v@, verbose),
{
    o.append("--- spine ring ---\n");
    let ghost start = o@;
    let ghost slots = v@.slots;
    let mut run: u64 = 0;
    let mut valid: u64 = 0;
    let mut empty: u64 = 0;
    let mut corrupt: u64 = 0;
    let mut i: usize = 0;
    while i < v.slots.len()
        invariant
            i <= v.slots@.len(),
            slots == v@.slots,
            (RingText {
                out: o@,
                run: run as nat,
                valid: valid as nat,
                empty: empty as nat,
                corrupt: corrupt as nat,
            }) == ring_rows(start, slots, i as nat, v@.head, verbose),
            run <= i,
            valid <= i,
            empty <= i,
            corrupt <= i,
        decreases v.slots@.len() - i,
    {
        let slot: u64 = v.slots[i].0;
        assert(slots[i as int] == (slot, v.slots@[i as int].1@));
        match &v.slots[i].1 {
            SlotKind::Valid(e) => {
                valid = valid + 1;
                flush_empty_run(o, run, verbose);
                if !verbose {
                    run = 0;
                }
                let is_head = match &v.head {
                    Some(x) => x.0 == slot,
                    None => false,
                };
                put_entry(o, slot, e, is_head);
            },
            SlotKind::Empty => {
                empty = empty + 1;
                if verbose {
                    put_slot(o, slot);
                    o.append("  (empty)\n");
                } else {
                    run = run + 1;
                }
            },
            SlotKind::Corrupt => {
                corrupt = corrupt + 1;
                flush_empty_run(o, run, verbose);
                if !verbose {
                    run = 0;
                }
                put_slot(o, slot);
                o.append("  CORRUPT\n");
            },
        }
        i = i + 1;
    }
    flush_empty_run(o, run, verbose);
    o.append("  occupancy: ");
    push_dec(o, valid);
    o.append(" valid, ");
    push_dec(o, empty);
    o.append(" empty, ");
    push_dec(o, corrupt);
    o.append(" corrupt\n\n");
}

#[verifier::rlimit(40)]
fn put_head(o: &mut String, slot: u64, e: &SpineEntry)
    requires
        e@.ring < 64,
    ensures
        final(o)@ == head_section(old(o)@, slot, e@),
{
    o.append("--- committed commit object ---\n");
    o.append("  gen     ");
    push_dec(o, e.gen);
    o.append("\n");
    o.append("  prev    ");
    o.append(hex8_text(&e.prev_hash).as_str());
    o.append("\n");
    o.append("  ring    ");
    push_dec(o, e.ring_log2 as u64);
    o.append(" (N = ");
    push_dec(o, slot_count(e.ring_log2));
    o.append(")\n");
    o.append("  tract   ");
    push_dec(o, e.tract_blocks);
    o.append(" blocks\n");
    o.append("  hamt    ");
    o.append(hex8_text(&e.hamt_hash).as_str());
    o.append(" @ tract lba ");
    push_dec(o, e.hamt_lba);
    o.append("\n");
    let len: u64 = if e.tract_blocks == 0 {
        1
    } else {
        e.tract_blocks
    };
    o.append("  plow    ");
    push_dec(o, e.plow);
    o.append(" (lap ");
    push_dec(o, e.plow / len);
    o.append(", pos ");
    push_dec(o, e.plow % len);
    o.append(")\n");
    o.append("  live    ");
    push_dec(o, e.live);
    o.append("\n");
    o.append("  time    ");
    push_signed(o, e.eagle_time);
    o.append("\n");
    o.append("  (at ring slot ");
    push_dec(o, slot);
    o.append(")\n\n");
}

fn put_chain(o: &mut String, chain: &Vec<(u64, bool)>)
    ensures
        final(o)@ == chain_rows(old(o)@, chain@, chain@.len()),
{
    let ghost start = o@;
    let mut i: usize = 0;
    while i < chain.len()
        invariant
            i <= chain@.len(),
            o@ == chain_rows(start, chain@, i as nat),
        decreases chain@.len() - i,
    {
        let link: (u64, bool) = chain[i];
        o.append("  gen ");
        put_right(o, link.0, 6);
        o.append("  ");
        if link.1 {
            o.append("✓ chains\n");
        } else {
            o.append("✗ break / lap horizon\n");
        }
        i = i + 1;
    }
}

fn put_doc(o: &mut String, d: &TractBlock)
    ensures
        final(o)@ == doc_phrase(old(o)@, d@),
{
    match d {
        TractBlock::Node { depth, children, .. } => {
            o.append("node  depth ");
            push_dec(o, *depth as u64);
            o.append("  ");
            push_dec(o, children.len() as u64);
            o.append(" child(ren)");
        },
        TractBlock::Lone { key, value_len } => {
            o.append("lone  key ");
            o.append(hex8_text(key).as_str());
            o.append("  (");
            push_dec(o, *value_len as u64);
            o.append(" bytes, sealed)");
        },
        TractBlock::Direct { key, size, furrows } => {
            o.append("direct key ");
            o.append(hex8_text(key).as_str());
            o.append("  size ");
            push_dec(o, *size);
            o.append(" (");
            humanize(o, *size as u128);
            o.append("), ");
            push_dec(o, furrows.len() as u64);
            o.append(" furrow(s)");
        },
        TractBlock::Extent { key, size, runs } => {
            o.append("extent key ");
            o.append(hex8_text(key).as_str());
            o.append("  size ");
            push_dec(o, *size);
            o.append(" (");
            humanize(o, *size as u128);
            o.append("), ");
            push_dec(o, runs.len() as u64);
            o.append(" run(s)");
        },
        TractBlock::Furrow { index, payload_len, .. } => {
            o.append("furrow #");
            push_dec(o, *index);
            o.append("  (");
            push_dec(o, *payload_len as u64);
            o.append(" bytes)");
        },
    }
}

fn put_tree_line(o: &mut String, t: &TreeNode)
    requires
        2 * (t.indent + 1) <= usize::MAX,
    ensures
        final(o)@ == tree_line(old(o)@, t@),
{
    push_spaces(o, 2 * (t.indent + 1));
    o.append("@");
    put_left(o, t.lba, 8);
    o.append(" ");
    put_doc(o, &t.doc);
    if !t.seal_ok {
        o.append(" !seal");
    }
    if !t.self_addr_ok {
        o.append(" !addr");
    }
    if let Some(n) = &t.note {
        o.append("  [");
        o.append(n.as_str());
        o.append("]");
    }
    o.append("\n");
}

fn put_tree(o: &mut String, v: &InspectReport)
    requires
        forall|i: int|
            0 <= i < v.tree@.len() ==> 2 * ((#[trigger] v.tree@[i]).indent + 1) <= usize::MAX,
    ensures
        final(o)@ == tree_section(old(o)@, v@),
{
    if v.tree.len() == 0 {
        return ;
    }
    o.append("--- HAMT tree ---\n");
    let ghost start = o@;
    let ghost tree = v@.tree;
    let mut i: usize = 0;
    while i < v.tree.len()
        invariant
            i <= v.tree@.len(),
            tree == v@.tree,
            forall|j: int|
                0 <= j < v.tree@.len() ==> 2 * ((#[trigger] v.tree@[j]).indent + 1) <= usize::MAX,
            o@ == tree_rows(start, tree, i as nat),
        decreases v.tree@.len() - i,
    {
        assert(tree[i as int] == v.tree@[i as int]@);
        put_tree_line(o, &v.tree[i]);
        i = i + 1;
    }
    o.append("  totals: ");
    push_dec(o, v.reachable_nodes as u64);
    o.append(" node(s), ");
    push_dec(o, v.reachable_leaves as u64);
    o.append(" leaf/leaves, ");
    push_dec(o, v.reachable_furrows as u64);
    o.append(" furrow(s), ");
    push_dec(o, v.reachable_blocks as u64);
    o.append(" reachable block(s)\n\n");
}

fn put_list(o: &mut String, xs: &Vec<u64>, n: usize)
    requires
        n <= xs@.len(),
    ensures
        final(o)@ == comma_list(old(o)@, xs@, n as nat),
{
    let ghost start = o@;
    let mut i: usize = 0;
    while i < n
        invariant
            i <= n <= xs@.len(),
            o@ == comma_list(start, xs@, i as nat),
        decreases n - i,
    {
        if i > 0 {
            o.append(", ");
        }
        push_dec(o, xs[i]);
        i = i + 1;
    }
}

fn put_orphans(o: &mut String, v: &InspectReport)
    ensures
        final(o)@ == orphan_section(old(o)@, v@),
{
    if let Some(xs) = &v.orphans {
        o.append("--- orphan scan ---\n");
        if xs.len() == 0 {
            o.append("  no orphaned sealed blocks (every sealed tract block is reachable)\n");
        } else {
            o.append("  ");
            push_dec(o, xs.len() as u64);
            o.append(
                " sealed block(s) not reachable from root (fence-held old gens + plow garbage):\n",
            );
            o.append("  lbas: ");
            let n: usize = if xs.len() > 32 {
                32
            } else {
                xs.len()
            };
            put_list(o, xs, n);
            if xs.len() > 32 {
                o.append(", ...");
            }
            o.append("\n");
        }
        o.append("\n");
    }
}

fn put_checks(o: &mut String, v: &InspectReport)
    ensures
        final(o)@ == check_section(old(o)@, v@),
{
    o.append("--- spec checks ---\n");
    let ghost start = o@;
    let ghost checks = v@.checks;
    let mut i: usize = 0;
    while i < v.checks.len()
        invariant
            i <= v.checks@.len(),
            checks == v@.checks,
            o@ == check_rows(start, checks, i as nat),
        decreases v.checks@.len() - i,
    {
        let c: &Check = &v.checks[i];
        assert(checks[i as int] == c@);
        if c.pass {
            o.append("  [PASS] ");
        } else {
            o.append("  [FAIL] ");
        }
        o.append(c.name.as_str());
        o.append(" — ");
        o.append(c.detail.as_str());
        o.append("\n");
        i = i + 1;
    }
    if v.all_checks_pass() {
        o.append("  => vault is spec-compliant\n");
    } else {
        o.append("  => SPEC VIOLATIONS PRESENT\n");
    }
}

impl InspectReport {
    /// The report as text, with the sections that the options ask for.
    pub fn render(&self, opts: InspectOptions) -> (s: String)
        requires
            self.showable(),
        ensures
            s@ == page(self@, opts),
    {
        let mut o = String::new();
        assert(o@ =~= Seq::<char>::empty());
        put_geometry(&mut o, self);
        if opts.show_ring {
            put_ring(&mut o, self, opts.verbose_ring);
        }
        if let Some(x) = &self.head {
            put_head(&mut o, x.0, &x.1);
            o.append("--- hash chain (head -> genesis) ---\n");
            put_chain(&mut o, &self.chain);
            o.append("\n");
        }
        if opts.show_tree {
            put_tree(&mut o, self);
        }
        put_orphans(&mut o, self);
        put_checks(&mut o, self);
        o
    }
}

/// Law: a quotient is rounded to the nearest number, and to the even one of two that are as near.
pub proof fn law_quotient_is_rounded_to_the_nearest(a: nat, b: nat)
    requires
        b > 0,
    ensures
        2 * (nearest(a, b) * b - a) <= b,
        2 * (a - nearest(a, b) * b) <= b,
        2 * (nearest(a, b) * b - a) == b || 2 * (a - nearest(a, b) * b) == b ==> nearest(a, b) % 2
            == 0,
{
    let q = a / b;
    let r = a % b;
    vstd::arithmetic::div_mod::lemma_fundamental_div_mod(a as int, b as int);
    vstd::arithmetic::div_mod::lemma_mod_bound(a as int, b as int);
    assert((q + 1) * b == q * b + b) by (nonlinear_arith);
    assert(q * b == b * q) by (nonlinear_arith);
}

/// Law: a size below 1024 is shown in bytes, one below 1024 times that in tenths of kilobytes, and any other
/// in tenths of megabytes, to the nearest tenth.
pub proof fn law_size_is_shown_in_its_unit(s: Seq<char>, n: nat)
    ensures
        n < 1024 ==> human(s, n) == s + text::dec(n) + " B"@,
        1024 <= n < 1024 * 1024 ==> exists|t: nat|
            human(s, n) == #[trigger] tenths(s, t) + " KB"@ && -1024 <= 2 * (1024 * t - 10 * n)
                <= 1024,
        n >= 1024 * 1024 ==> exists|t: nat|
            human(s, n) == #[trigger] tenths(s, t) + " MB"@ && -1024 * 1024 <= 2 * (1024 * 1024 * t
                - 10 * n) <= 1024 * 1024,
{
    law_quotient_is_rounded_to_the_nearest(10 * n, 1024);
    law_quotient_is_rounded_to_the_nearest(10 * n, 0x10_0000);
    if 1024 <= n < 1024 * 1024 {
        assert(human(s, n) == tenths(s, nearest(10 * n, 1024)) + " KB"@);
    }
    if n >= 1024 * 1024 {
        assert(human(s, n) == tenths(s, nearest(10 * n, 0x10_0000)) + " MB"@);
    }
}

/// Law: the occupancy of a ring counts every slot once, as what it holds.
pub proof fn law_occupancy_counts_every_slot_once(
    s: Seq<char>,
    slots: Seq<(u64, ClassView)>,
    n: nat,
    head: Option<(u64, SpineView)>,
    verbose: bool,
)
    requires
        n <= slots.len(),
    ensures
        ({
            let t = ring_rows(s, slots, n, head, verbose);
            let few = slots.take(n as int);
            &&& t.valid == few.filter(|x: (u64, ClassView)| x.1 is Valid).len()
            &&& t.empty == few.filter(|x: (u64, ClassView)| x.1 is Empty).len()
            &&& t.corrupt == few.filter(|x: (u64, ClassView)| x.1 is Corrupt).len()
            &&& t.valid + t.empty + t.corrupt == n
        }),
    decreases n,
{
    reveal(Seq::filter);
    let few = slots.take(n as int);
    if n > 0 {
        law_occupancy_counts_every_slot_once(s, slots, (n - 1) as nat, head, verbose);
        assert(few.drop_last() =~= slots.take(n - 1));
        assert(few.last() == slots[n - 1]);
    }
}

/// Law: a report ends in its verdict, which is good exactly where every check passed; and every check has a
/// line that says whether it did.
pub proof fn law_verdict_is_good_where_every_check_passed(s: Seq<char>, v: ReportView)
    ensures
        (forall|i: int| 0 <= i < v.checks.len() ==> (#[trigger] v.checks[i]).pass) ==> exists|
            p: Seq<char>,
        |
            check_section(s, v) == #[trigger] (p + "  => vault is spec-compliant\n"@),
        (exists|i: int| 0 <= i < v.checks.len() && !(#[trigger] v.checks[i]).pass) ==> exists|
            p: Seq<char>,
        |
            check_section(s, v) == #[trigger] (p + "  => SPEC VIOLATIONS PRESENT\n"@),
        forall|i: int|
            0 <= i < v.checks.len() && (#[trigger] v.checks[i]).pass ==> check_rows(
                s,
                v.checks,
                (i + 1) as nat,
            ) == check_rows(s, v.checks, i as nat) + "  [PASS] "@ + v.checks[i].name + " — "@
                + v.checks[i].detail + "\n"@,
        forall|i: int|
            0 <= i < v.checks.len() && !(#[trigger] v.checks[i]).pass ==> check_rows(
                s,
                v.checks,
                (i + 1) as nat,
            ) == check_rows(s, v.checks, i as nat) + "  [FAIL] "@ + v.checks[i].name + " — "@
                + v.checks[i].detail + "\n"@,
{
    let p = check_rows(s + "--- spec checks ---\n"@, v.checks, v.checks.len());
    if sound(v.checks) {
        assert(check_section(s, v) == p + "  => vault is spec-compliant\n"@);
    } else {
        assert(check_section(s, v) == p + "  => SPEC VIOLATIONS PRESENT\n"@);
    }
}

/// Law: every link of the chain has a line that says whether it holds.
pub proof fn law_every_link_has_a_line(s: Seq<char>, chain: Seq<(u64, bool)>, i: int)
    requires
        0 <= i < chain.len(),
    ensures
        chain[i].1 ==> chain_rows(s, chain, (i + 1) as nat) == chain_rows(s, chain, i as nat)
            + "  gen "@ + text::right(text::dec(chain[i].0 as nat), 6) + "  "@ + "✓ chains\n"@,
        !chain[i].1 ==> chain_rows(s, chain, (i + 1) as nat) == chain_rows(s, chain, i as nat)
            + "  gen "@ + text::right(text::dec(chain[i].0 as nat), 6) + "  "@
            + "✗ break / lap horizon\n"@,
{
}

/// Law: a report shows the ring and the tree only where it was asked to, and always the checks; the orphans
/// where they were looked for.
pub proof fn law_report_shows_what_was_asked_for(v: ReportView, opts: InspectOptions)
    ensures
        !opts.show_ring && !opts.show_tree && v.orphans is None ==> page(v, opts) == check_section(
            commit_section(geometry(Seq::<char>::empty(), v), v),
            v,
        ),
        opts.show_ring && opts.show_tree ==> page(v, opts) == check_section(
            orphan_section(
                tree_section(
                    commit_section(
                        ring_section(geometry(Seq::<char>::empty(), v), v, opts.verbose_ring),
                        v,
                    ),
                    v,
                ),
                v,
            ),
            v,
        ),
{
}

/// Law: the line of the head's slot is that of any entry with a mark at its end.
pub proof fn law_head_is_marked_in_the_ring(s: Seq<char>, slot: u64, e: SpineView)
    ensures
        entry_line(s, slot, e, true) == entry_line(s, slot, e, false).take(
            entry_line(s, slot, e, false).len() - 1,
        ) + " <== HEAD\n"@,
{
    reveal_strlit("\n");
    reveal_strlit(" <== HEAD\n");
    reveal_strlit(" <== HEAD");
    let a = entry_line(s, slot, e, false);
    let b = a.take(a.len() - 1);
    assert(" <== HEAD\n"@ =~= " <== HEAD"@ + "\n"@);
    assert(entry_line(s, slot, e, true) =~= b + " <== HEAD\n"@);
}

/// Law: the lap and the position that the commit object is shown with make up its plow.
pub proof fn law_lap_and_position_make_up_the_plow(s: Seq<char>, slot: u64, e: SpineView)
    requires
        e.tract > 0,
    ensures
        exists|a: Seq<char>, b: Seq<char>, lap: nat, pos: nat|
            head_section(s, slot, e) == #[trigger] shown_plow(a, e.plow as nat, lap, pos, b) && lap
                * e.tract + pos == e.plow && pos < e.tract,
{
    let n = e.tract as nat;
    let lap = e.plow as nat / n;
    let pos = e.plow as nat % n;
    vstd::arithmetic::div_mod::lemma_fundamental_div_mod(e.plow as int, n as int);
    vstd::arithmetic::div_mod::lemma_mod_bound(e.plow as int, n as int);
    assert(lap * n == n * lap) by (nonlinear_arith);
    let a = s + "--- committed commit object ---\n"@ + "  gen     "@ + text::dec(e.gen as nat) + "\n"@
        + "  prev    "@ + inspect::hex8(e.prev) + "\n"@ + "  ring    "@ + text::dec(e.ring as nat)
        + " (N = "@ + text::dec(pow2(e.ring as nat)) + ")\n"@ + "  tract   "@ + text::dec(n)
        + " blocks\n"@ + "  hamt    "@ + inspect::hex8(e.hamt) + " @ tract lba "@ + text::dec(
        e.hamtat as nat,
    ) + "\n"@;
    let b = "  live    "@ + text::dec(e.live as nat) + "\n"@ + "  time    "@ + text::signed_dec(
        e.time as int,
    ) + "\n"@ + "  (at ring slot "@ + text::dec(slot as nat) + ")\n\n"@;
    assert(head_section(s, slot, e) =~= shown_plow(a, e.plow as nat, lap, pos, b));
}

/// Some text with the line of a plow in it.
pub open spec fn shown_plow(a: Seq<char>, plow: nat, lap: nat, pos: nat, b: Seq<char>) -> Seq<char> {
    a + "  plow    "@ + text::dec(plow) + " (lap "@ + text::dec(lap) + ", pos "@ + text::dec(pos)
        + ")\n"@ + b
}

/// Law: a block's line has a mark where its seal or its place is wrong, and none where both are right.
pub proof fn law_wrong_blocks_are_marked(s: Seq<char>, t: TreeView)
    requires
        t.note is None,
        t.seal_ok,
        t.self_addr_ok,
    ensures
        exists|a: Seq<char>|
            #![trigger a + "\n"@]
            {
                &&& tree_line(s, t) == a + "\n"@
                &&& tree_line(s, TreeView { seal_ok: false, ..t }) == a + " !seal"@ + "\n"@
                &&& tree_line(s, TreeView { self_addr_ok: false, ..t }) == a + " !addr"@ + "\n"@
                &&& tree_line(s, TreeView { seal_ok: false, self_addr_ok: false, ..t }) == a
                    + " !seal"@ + " !addr"@ + "\n"@
            },
{
    let a = doc_phrase(
        s + text::spaces(2 * (t.indent + 1)) + "@"@ + text::left(text::dec(t.lba as nat), 8) + " "@,
        t.doc,
    );
    assert(tree_line(s, t) == a + "\n"@);
}

/// Law: a list shows its addresses in order, with a comma between any two.
pub proof fn law_list_shows_its_addresses_in_order(s: Seq<char>, xs: Seq<u64>, n: nat)
    requires
        n < xs.len(),
    ensures
        comma_list(s, xs, 0) == s,
        n == 0 ==> comma_list(s, xs, 1) == s + text::dec(xs[0] as nat),
        n > 0 ==> comma_list(s, xs, n + 1) == comma_list(s, xs, n) + ", "@ + text::dec(xs[n as int] as nat),
{
    reveal_with_fuel(comma_list, 2);
}

}
