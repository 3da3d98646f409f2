//! The inspector: what it finds on a device, and how it shows it.

use std::cell::RefCell;
use std::rc::Rc;

use manifestus::inspect::{compare_heads, decode_tract, Convergence, TractBlock};
use manifestus::{
    inspect, zero_block, Block, BlockDev, Error, InspectOptions, Mirror, Result, Vault, BLOCK,
    HOST_RING_LOG2,
};

/// A device in memory. Clones share the blocks, so a clone reopens what was written.
#[derive(Clone)]
struct MemDev {
    blocks: Rc<RefCell<Vec<Block>>>,
}

impl MemDev {
    fn new(n: u64) -> Self {
        MemDev { blocks: Rc::new(RefCell::new(vec![[0u8; BLOCK]; n as usize])) }
    }
}

impl BlockDev for MemDev {
    fn block_count(&self) -> u64 {
        self.blocks.borrow().len() as u64
    }

    fn read(&mut self, lba: u64, buf: &mut Block) -> Result<()> {
        match self.blocks.borrow().get(lba as usize) {
            Some(b) => {
                *buf = *b;
                Ok(())
            }
            None => Err(Error::Bounds(lba)),
        }
    }

    fn write(&mut self, lba: u64, buf: &Block) -> Result<()> {
        match self.blocks.borrow_mut().get_mut(lba as usize) {
            Some(b) => {
                *b = *buf;
                Ok(())
            }
            None => Err(Error::Bounds(lba)),
        }
    }

    fn flush(&mut self) -> Result<()> {
        Ok(())
    }

    fn grow(&mut self, new_blocks: u64) -> Result<()> {
        let mut blocks = self.blocks.borrow_mut();
        if new_blocks < blocks.len() as u64 {
            return Err(Error::Corrupt("grow cannot shrink".to_string()));
        }
        blocks.resize(new_blocks as usize, [0u8; BLOCK]);
        Ok(())
    }
}

fn two_keys() -> (MemDev, MemDev, Vault<MemDev, MemDev>) {
    let blocks = (1u64 << HOST_RING_LOG2) + 256;
    let a = MemDev::new(blocks);
    let b = MemDev::new(blocks);
    let mut vault = Vault::open(Mirror::new(a.clone(), b.clone()), HOST_RING_LOG2, 0).unwrap();
    let k1 = blake3::hash(b"alpha");
    let k2 = blake3::hash(b"beta");
    vault.put(k1.as_bytes(), b"hello world", 1).unwrap();
    vault.put(k2.as_bytes(), b"second value", 2).unwrap();
    (a, b, vault)
}

#[test]
fn inspect_roundtrip_matches_engine() {
    let (a, _b, vault) = two_keys();
    let gen_check = vault.generation();
    let live_check = vault.live_blocks();

    let mut dev = a.clone();
    let report = inspect(&mut dev, InspectOptions::default()).unwrap();

    assert_eq!(report.ring_log2, HOST_RING_LOG2);
    let head = report.head.as_ref().expect("head present");
    assert_eq!(Some(head.1.gen), gen_check, "explorer head gen == engine generation");
    assert_eq!(report.reachable_blocks, live_check, "reachable == engine live_blocks");
    assert!(report.reachable_leaves >= 2, "two puts => at least two leaves");
    assert!(
        report.all_checks_pass(),
        "a freshly-built vault must be spec-compliant:\n{}",
        report.render(InspectOptions::default())
    );
}

#[test]
fn rendered_report_reads_as_expected() {
    let (a, _b, _v) = two_keys();
    let mut dev = a.clone();
    let opts = InspectOptions { orphan_scan: true, ..InspectOptions::default() };
    let report = inspect(&mut dev, opts).unwrap();
    let text = report.render(opts);
    assert!(text.starts_with(
        "=== manifestus vault ===\nfile:    512 blocks (2.0 MB)\nring:    N = 256 (log2 8)\n\
         tract:   base lba 256, 256 blocks (from head)\n\n--- spine ring ---\n  slot    0  gen      0  plow        0"
    ));
    assert!(text.contains("  ... 253 empty slot(s) ...\n  occupancy: 3 valid, 253 empty, 0 corrupt\n\n"));
    assert!(text.contains(" <== HEAD\n"));
    assert!(text.contains("--- hash chain (head -> genesis) ---\n  gen      2  \u{2713} chains\n  gen      1  \u{2713} chains\n  gen      0  \u{2713} chains\n\n"));
    assert!(text.contains("node  depth 0  2 child(ren)\n"));
    assert!(text.contains("(11 bytes, sealed)\n"));
    assert!(text.contains("  totals: 1 node(s), 2 leaf/leaves, 0 furrow(s), 3 reachable block(s)\n"));
    assert!(text.contains("--- orphan scan ---\n"));
    assert!(text.contains("  [PASS] live count matches commit \u{2014} reachable 3 vs head.live 3\n"));
    assert!(text.ends_with("  => vault is spec-compliant\n"));
}

#[test]
fn damage_is_reported() {
    let (a, _b, _v) = two_keys();
    let mut dev = a.clone();
    let clean = inspect(&mut dev, InspectOptions::default()).unwrap();
    let lba = clean.tree[1].lba;
    {
        let mut blocks = a.blocks.borrow_mut();
        blocks[256 + lba as usize][2000] ^= 1;
        blocks[200][0] = 7;
    }
    let report = inspect(&mut dev, InspectOptions::default()).unwrap();
    assert!(!report.all_checks_pass());
    let bad = &report.tree[1];
    assert!(!bad.seal_ok);
    assert_eq!(bad.note.as_deref(), Some("seal mismatch (hp != BLAKE3(body))"));
    let failed: Vec<&str> =
        report.checks.iter().filter(|c| !c.pass).map(|c| c.detail.as_str()).collect();
    assert_eq!(
        failed,
        vec!["1 corrupt/misplaced slot(s)", "1 block(s) failed seal/self-address"]
    );
    assert!(report.render(InspectOptions::default()).ends_with("  => SPEC VIOLATIONS PRESENT\n"));
}

#[test]
fn empty_device_has_no_head() {
    let mut dev = MemDev::new(300);
    let report = inspect(&mut dev, InspectOptions::default()).unwrap();
    assert!(report.head.is_none());
    assert_eq!(report.ring_log2, HOST_RING_LOG2);
    assert!(!report.all_checks_pass());
    assert_eq!(report.checks.len(), 4);
    assert_eq!(report.checks[1].detail, "no valid spine entry");
    assert_eq!(report.checks[2].detail, "no chain (no head)");
    assert_eq!(report.checks[3].detail, "empty tree");
}

#[test]
fn blocks_that_are_none_say_why() {
    assert_eq!(decode_tract(&zero_block()).unwrap_err(), "no R\u{c5} magic");
    let (a, _b, _v) = two_keys();
    let spine = a.blocks.borrow()[0];
    assert_eq!(decode_tract(&spine).unwrap_err(), "unknown tract schema: custodes.spine");
    let mut dev = a.clone();
    let report = inspect(&mut dev, InspectOptions::default()).unwrap();
    let leaf = a.blocks.borrow()[256 + report.tree[1].lba as usize];
    let (seal, doc) = decode_tract(&leaf).unwrap();
    assert_eq!(seal, *blake3::hash(&leaf[41..]).as_bytes());
    assert!(matches!(doc, TractBlock::Lone { value_len, .. } if value_len == 11 || value_len == 12));
}

#[test]
fn direct_leaves_are_walked_to_their_furrows() {
    let (a, b, vault) = two_keys();
    drop(vault);
    let mut v = Vault::open(Mirror::new(a.clone(), b.clone()), HOST_RING_LOG2, 3).unwrap();
    v.put_legacy_direct_for_tests(blake3::hash(b"gamma").as_bytes(), &[5u8; 9000], 4).unwrap();
    let live = v.live_blocks();
    let mut dev = a.clone();
    let report = inspect(&mut dev, InspectOptions::default()).unwrap();
    assert_eq!(report.reachable_furrows, 3);
    assert_eq!(report.reachable_blocks, live);
    assert!(report.all_checks_pass());
    assert!(report
        .render(InspectOptions::default())
        .contains("size 9000 (8.8 KB), 3 furrow(s)\n"));
}

#[test]
fn heads_of_two_devices_are_compared() {
    let (a, b, vault) = two_keys();
    drop(vault);
    let opts = InspectOptions::default();
    let ra = inspect(&mut a.clone(), opts).unwrap();
    let rb = inspect(&mut b.clone(), opts).unwrap();
    assert_eq!(compare_heads(&ra, &rb), Convergence::Converged(2));
    let solo: Mirror<MemDev, MemDev> = Mirror::from_parts(Some(a.clone()), None).unwrap();
    let mut v = Vault::open(solo, HOST_RING_LOG2, 3).unwrap();
    v.put(&[9u8; 32], b"more", 4).unwrap();
    let rc = inspect(&mut a.clone(), opts).unwrap();
    assert_eq!(
        compare_heads(&rc, &rb),
        Convergence::Behind { first_newer: true, newer: 3, older: 2 }
    );
    assert_eq!(
        compare_heads(&rb, &rc),
        Convergence::Behind { first_newer: false, newer: 3, older: 2 }
    );
    let empty = inspect(&mut MemDev::new(300), opts).unwrap();
    assert_eq!(compare_heads(&empty, &rb), Convergence::NoHead);
}

#[test]
fn extent_leaves_are_walked_to_their_furrows() {
    let (a, _b, mut vault) = two_keys();
    let key = *blake3::hash(b"delta").as_bytes();
    vault.put(&key, &[6u8; 9000], 5).unwrap();
    let live = vault.live_blocks();
    let mut dev = a.clone();
    let report = inspect(&mut dev, InspectOptions::default()).unwrap();
    assert_eq!(report.reachable_furrows, 3);
    assert_eq!(report.reachable_blocks, live);
    assert!(report.all_checks_pass(), "{}", report.render(InspectOptions::default()));
    let mut met = false;
    for t in &report.tree {
        let block = a.blocks.borrow()[256 + t.lba as usize];
        if let Ok((_, TractBlock::Extent { key: k, size, runs })) = decode_tract(&block) {
            assert_eq!(k, key);
            assert_eq!(size, 9000);
            assert_eq!(runs.iter().map(|r| r.1).sum::<u64>(), 3);
            met = true;
        }
    }
    assert!(met);
}

#[test]
fn the_verdict_does_not_depend_on_what_is_shown() {
    let (a, _b, vault) = two_keys();
    let live = vault.live_blocks();
    let mut dev = a.clone();
    let hidden = InspectOptions { show_tree: false, ..InspectOptions::default() };
    let report = inspect(&mut dev, hidden).unwrap();
    assert_eq!(report.reachable_blocks, live);
    assert!(report.all_checks_pass());
    assert!(!report.render(hidden).contains("child(ren)"));
    let lba = report.tree[1].lba;
    a.blocks.borrow_mut()[256 + lba as usize][2000] ^= 1;
    assert!(!inspect(&mut dev, hidden).unwrap().all_checks_pass());
}

#[test]
fn a_lapped_ring_is_in_order() {
    let blocks = 4 + 512u64;
    let a = MemDev::new(blocks);
    let solo: Mirror<MemDev, MemDev> = Mirror::from_parts(Some(a.clone()), None).unwrap();
    let mut vault = Vault::open(solo, 2, 0).unwrap();
    for i in 0u8..7 {
        vault.put(&[i; 32], &[i], i as i64).unwrap();
    }
    assert_eq!(vault.generation(), Some(7));
    let mut dev = a.clone();
    let report = inspect(&mut dev, InspectOptions::default()).unwrap();
    assert!(report.all_checks_pass(), "{}", report.render(InspectOptions::default()));
}
