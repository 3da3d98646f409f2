//! The spine ring: codec, classification, head search, chain enforcement, what a format clears.

use std::cell::RefCell;
use std::rc::Rc;

use manifestus::wire::read_item;
use manifestus::{
    any_sealed_block, classify, zero_block, zero_ring, Block, BlockDev, Classified, Error, Mirror,
    Result, Ring, SpineEntry, BLOCK,
};
use vsf::VsfType;

/// A device in memory. Clones share the blocks, so a clone reopens what was written.
#[derive(Clone)]
struct MemDev {
    blocks: Rc<RefCell<Vec<Block>>>,
}

impl MemDev {
    fn new(n: u64) -> Self {
        MemDev { blocks: Rc::new(RefCell::new(vec![[0u8; BLOCK]; n as usize])) }
    }
}

impl BlockDev for MemDev {
    fn block_count(&self) -> u64 {
        self.blocks.borrow().len() as u64
    }

    fn read(&mut self, lba: u64, buf: &mut Block) -> Result<()> {
        match self.blocks.borrow().get(lba as usize) {
            Some(b) => {
                *buf = *b;
                Ok(())
            }
            None => Err(Error::Bounds(lba)),
        }
    }

    fn write(&mut self, lba: u64, buf: &Block) -> Result<()> {
        match self.blocks.borrow_mut().get_mut(lba as usize) {
            Some(b) => {
                *b = *buf;
                Ok(())
            }
            None => Err(Error::Bounds(lba)),
        }
    }

    fn flush(&mut self) -> Result<()> {
        Ok(())
    }

    fn grow(&mut self, new_blocks: u64) -> Result<()> {
        let mut blocks = self.blocks.borrow_mut();
        if new_blocks < blocks.len() as u64 {
            return Err(Error::Corrupt("grow cannot shrink".to_string()));
        }
        blocks.resize(new_blocks as usize, [0u8; BLOCK]);
        Ok(())
    }
}

fn pair(blocks: u64) -> (MemDev, MemDev) {
    (MemDev::new(blocks), MemDev::new(blocks))
}

fn mk_mirror(blocks: u64) -> Mirror<MemDev, MemDev> {
    Mirror::new(MemDev::new(blocks), MemDev::new(blocks))
}

fn entry(gen: u64, prev: [u8; 32], r: u8) -> SpineEntry {
    SpineEntry {
        gen,
        prev_hash: prev,
        ring_log2: r,
        tract_blocks: 16384,
        hamt_hash: [gen as u8; 32],
        hamt_lba: gen,
        plow: gen * 3,
        reap: None,
        live: gen,
        eagle_time: 1_000_000 + gen as i64,
    }
}

/// Appends generations 0..count, chaining prev_hash properly.
fn build(ring: &mut Ring<MemDev, MemDev>, count: u64, r: u8) {
    for gen in 0..count {
        let prev = ring.head().map(|h| h.body_hash()).unwrap_or([0u8; 32]);
        ring.append(&entry(gen, prev, r)).unwrap();
    }
}

fn build_more(ring: &mut Ring<MemDev, MemDev>, count: u64, r: u8) {
    for _ in 0..count {
        let h = ring.head().unwrap();
        let next = entry(h.gen + 1, h.body_hash(), r);
        ring.append(&next).unwrap();
    }
}

#[test]
fn entry_roundtrip() {
    let e = entry(42, [7u8; 32], 8);
    let block = e.encode();
    let d = SpineEntry::decode(&block).unwrap();
    assert_eq!(e, d);
}

#[test]
fn entry_with_reap_roundtrip() {
    let mut e = entry(42, [7u8; 32], 8);
    e.reap = Some(17);
    e.eagle_time = -5;
    assert_eq!(SpineEntry::decode(&e.encode()).unwrap(), e);
}

#[test]
fn classification_three_way() {
    let e = entry(0, [0u8; 32], 8);
    let block = e.encode();
    assert!(matches!(classify(&block, 0, Some(8)), Classified::Valid(_)));
    assert!(matches!(classify(&zero_block(), 0, Some(8)), Classified::Empty));

    let mut bad = block;
    bad[2000] ^= 1;
    assert!(matches!(classify(&bad, 0, Some(8)), Classified::Corrupt));

    let mut trash = zero_block();
    trash[..4].copy_from_slice(b"YOLO");
    assert!(matches!(classify(&trash, 0, Some(8)), Classified::Corrupt));
}

#[test]
fn misplaced_entry_is_corrupt() {
    let e = entry(5, [0u8; 32], 3);
    let block = e.encode();
    assert!(matches!(classify(&block, 5, Some(3)), Classified::Valid(_)));
    assert!(matches!(classify(&block, 2, Some(3)), Classified::Corrupt));
}

#[test]
fn entry_of_another_ring_is_corrupt() {
    let block = entry(5, [0u8; 32], 3).encode();
    assert!(matches!(classify(&block, 5, Some(4)), Classified::Corrupt));
    assert!(matches!(classify(&block, 5, None), Classified::Valid(_)));
    // Without a ring, where the entry belongs is not asked.
    assert!(matches!(classify(&block, 2, None), Classified::Valid(_)));
}

#[test]
fn genesis_and_head() {
    let mut ring = Ring::open(mk_mirror(8), 3).unwrap();
    assert!(ring.head().is_none(), "fresh ring is pre-genesis");

    build(&mut ring, 1, 3);
    assert_eq!(ring.head().unwrap().gen, 0, "first commit is generation 0 at slot 0");

    build_more(&mut ring, 1, 3);
    assert_eq!(ring.head().unwrap().gen, 1);
}

#[test]
fn head_survives_reopen_across_laps() {
    let (a, b) = pair(8);
    let mut ring = Ring::open(Mirror::new(a.clone(), b.clone()), 3).unwrap();
    build(&mut ring, 1, 3);
    build_more(&mut ring, 29, 3);
    assert_eq!(ring.head().unwrap().gen, 29);
    drop(ring);

    let ring = Ring::open(Mirror::new(a, b), 3).unwrap();
    assert_eq!(ring.head().unwrap().gen, 29);
}

#[test]
fn deflection_counter_example() {
    let (a, b) = pair(8);
    let mut ring = Ring::open(Mirror::new(a.clone(), b.clone()), 3).unwrap();
    build(&mut ring, 1, 3);
    build_more(&mut ring, 14, 3);
    assert_eq!(ring.head().unwrap().gen, 14);
    drop(ring);

    for side in [&a, &b] {
        let mut dev = side.clone();
        let mut buf = zero_block();
        dev.read(4, &mut buf).unwrap();
        buf[3000] ^= 0xFF;
        dev.write(4, &buf).unwrap();
        dev.flush().unwrap();
    }

    let ring = Ring::open(Mirror::new(a, b), 3).unwrap();
    assert_eq!(
        ring.head().unwrap().gen,
        14,
        "branch-on-corrupt must survive the deflection case"
    );
}

#[test]
fn chain_enforcement() {
    let mut ring = Ring::open(mk_mirror(8), 3).unwrap();
    build(&mut ring, 3, 3);
    let h = ring.head().unwrap().clone();

    assert!(ring.append(&entry(h.gen + 2, h.body_hash(), 3)).is_err());
    assert!(ring.append(&entry(h.gen + 1, [9u8; 32], 3)).is_err());
    let mut fresh = Ring::open(mk_mirror(8), 3).unwrap();
    assert!(fresh.append(&entry(1, [0u8; 32], 3)).is_err(), "genesis must be gen 0");
    assert!(fresh.append(&entry(0, [1u8; 32], 3)).is_err(), "genesis prev must be zeros");
}

#[test]
fn bootstrap_discovers_exponent() {
    let (a, b) = pair(16);
    let mut ring = Ring::open(Mirror::new(a.clone(), b.clone()), 3).unwrap();
    build(&mut ring, 5, 3);
    drop(ring);

    let mut mirror = Mirror::new(a, b);
    assert_eq!(Ring::bootstrap_n(&mut mirror).unwrap(), Some(3));

    let (da, _) = mirror.devices();
    let dev = da.unwrap();
    let mut buf = zero_block();
    for slot in 0..3 {
        dev.read(slot, &mut buf).unwrap();
        buf[100] ^= 0xFF;
        dev.write(slot, &buf).unwrap();
    }
    dev.flush().unwrap();
    assert_eq!(Ring::bootstrap_n(&mut mirror).unwrap(), Some(3));

    let mut empty = mk_mirror(16);
    assert_eq!(Ring::bootstrap_n(&mut empty).unwrap(), None);
}

#[test]
fn whole_file_scan_and_zero_ring() {
    let mut dev = MemDev::new(16);
    let mut junk = zero_block();
    junk.fill(0x5A);
    for lba in 0..16 {
        dev.write(lba, &junk).unwrap();
    }
    dev.flush().unwrap();
    assert!(!any_sealed_block(&mut dev).unwrap(), "garbage must not read as real");

    let block = entry(9, [3u8; 32], 4).encode();
    dev.write(11, &block).unwrap();
    dev.flush().unwrap();
    assert!(any_sealed_block(&mut dev).unwrap(), "one valid block anywhere = real");

    let mut mirror = Mirror::new(dev, MemDev::new(16));
    zero_ring(&mut mirror, 4).unwrap();
    let mut buf = zero_block();
    for slot in 0..16 {
        mirror.read(slot, &mut buf).unwrap();
        assert_eq!(buf, zero_block(), "slot {slot} not zeroed");
    }
}

#[test]
fn recent_plows_for_fence() {
    let mut ring = Ring::open(mk_mirror(8), 3).unwrap();
    build(&mut ring, 10, 3);
    let plows = ring.recent_plows(4).unwrap();
    assert_eq!(plows, vec![27, 24, 21, 18], "newest-first plow history");

    let mut young = Ring::open(mk_mirror(8), 3).unwrap();
    build(&mut young, 2, 3);
    assert_eq!(young.recent_plows(4).unwrap(), vec![3, 0]);
}

#[test]
fn torn_append_leaves_the_head_before_it() {
    let (a, b) = pair(8);
    let mut ring = Ring::open(Mirror::new(a.clone(), b.clone()), 3).unwrap();
    build(&mut ring, 12, 3);
    drop(ring);
    // Generation 12 would land in slot 4: a torn write leaves part of it there.
    let torn = entry(12, [0u8; 32], 3).encode();
    for side in [&a, &b] {
        let mut blocks = side.blocks.borrow_mut();
        blocks[4][..150].copy_from_slice(&torn[..150]);
    }
    let ring = Ring::open(Mirror::new(a, b), 3).unwrap();
    assert_eq!(ring.head().unwrap().gen, 11);
}

/// An entry with one more named value behind its own, sealed again.
fn with_field(e: &SpineEntry, name: &str, value: u64) -> Block {
    let mut b = e.encode();
    let mut at = 41;
    while b[at] != 0 {
        at = read_item(&b, at).unwrap().1;
    }
    let mut more = VsfType::d(name.to_string()).flatten();
    more.extend(VsfType::u6(value).flatten());
    b[at..at + more.len()].copy_from_slice(&more);
    let h = blake3::hash(&b[41..]);
    let hp = VsfType::hp(h.as_bytes().to_vec()).flatten();
    b[4..4 + hp.len()].copy_from_slice(&hp);
    b
}

#[test]
fn values_of_unknown_names_are_read_over() {
    let e = entry(42, [7u8; 32], 8);
    let more = with_field(&e, "ledger", 1 << 40);
    assert_ne!(more, e.encode());
    assert_eq!(SpineEntry::decode(&more).unwrap(), e);
    let later = with_field(&e, "plow", 1 << 40);
    assert_eq!(SpineEntry::decode(&later).unwrap().plow, 1 << 40, "the last value of a name counts");
}

#[test]
fn a_tampered_tail_is_no_entry() {
    let mut b = entry(1, [0u8; 32], 8).encode();
    b[BLOCK - 1] = 1;
    assert!(matches!(SpineEntry::decode(&b), Err(Error::Seal)));
}

#[test]
fn every_slot_is_written_once_per_lap() {
    let (a, b) = pair(8);
    let mut ring = Ring::open(Mirror::new(a.clone(), b), 3).unwrap();
    build(&mut ring, 8, 3);
    let lap = a.blocks.borrow().clone();
    build_more(&mut ring, 8, 3);
    for (i, (x, y)) in lap.iter().zip(a.blocks.borrow().iter()).enumerate() {
        match (classify(x, i as u64, Some(3)), classify(y, i as u64, Some(3))) {
            (Classified::Valid(p), Classified::Valid(q)) => assert_eq!(q.gen, p.gen + 8),
            _ => panic!("slot {i} was passed over"),
        }
    }
}
