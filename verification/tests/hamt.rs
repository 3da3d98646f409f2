//! The index: puts, lookups and deletions, leaves of every kind, splits, flush and cold reopening,
//! corruption.

use std::cell::RefCell;
use std::collections::HashMap;
use std::rc::Rc;

use manifestus::{
    lone_capacity, zero_block, Block, BlockDev, Delta, Error, Hamt, Liveness, Mirror, Reloc, Result,
    Tract, BLOCK,
};

/// A device in memory. Clones share the blocks, so a clone reopens what was written.
#[derive(Clone)]
struct MemDev {
    blocks: Rc<RefCell<Vec<Block>>>,
}

impl MemDev {
    fn new(n: u64) -> Self {
        MemDev { blocks: Rc::new(RefCell::new(vec![[0u8; BLOCK]; n as usize])) }
    }
}

impl BlockDev for MemDev {
    fn block_count(&self) -> u64 {
        self.blocks.borrow().len() as u64
    }

    fn read(&mut self, lba: u64, buf: &mut Block) -> Result<()> {
        match self.blocks.borrow().get(lba as usize) {
            Some(b) => {
                *buf = *b;
                Ok(())
            }
            None => Err(Error::Bounds(lba)),
        }
    }

    fn write(&mut self, lba: u64, buf: &Block) -> Result<()> {
        match self.blocks.borrow_mut().get_mut(lba as usize) {
            Some(b) => {
                *b = *buf;
                Ok(())
            }
            None => Err(Error::Bounds(lba)),
        }
    }

    fn flush(&mut self) -> Result<()> {
        Ok(())
    }

    fn grow(&mut self, new_blocks: u64) -> Result<()> {
        let mut blocks = self.blocks.borrow_mut();
        if new_blocks < blocks.len() as u64 {
            return Err(Error::Corrupt("grow cannot shrink".to_string()));
        }
        blocks.resize(new_blocks as usize, [0u8; BLOCK]);
        Ok(())
    }
}

/// A live map that applies the index's deltas and answers for liveness.
#[derive(Default)]
struct LiveMap(HashMap<u64, [u8; 32]>);

impl LiveMap {
    fn apply(&mut self, d: Delta) {
        for (lba, hp) in d.removed {
            if self.0.get(&lba) == Some(&hp) {
                self.0.remove(&lba);
            }
        }
        for (lba, hp) in d.added {
            self.0.insert(lba, hp);
        }
    }
}

impl Liveness for LiveMap {
    fn is_live(&self, lba: u64, hp: &[u8; 32]) -> bool {
        self.0.get(&lba) == Some(hp)
    }
}

fn key(i: u64) -> [u8; 32] {
    *blake3::hash(&i.to_le_bytes()).as_bytes()
}

fn mk(blocks: u64) -> (Mirror<MemDev, MemDev>, Tract) {
    (
        Mirror::new(MemDev::new(blocks), MemDev::new(blocks)),
        Tract { base: 0, len: blocks, plow: 0, reap: 0, fence_limit: None },
    )
}

#[test]
fn lone_put_lookup_roundtrip() {
    let (mut m, mut t) = mk(64);
    let mut live = LiveMap::default();
    let mut h = Hamt::empty();

    h.put(&mut m, &mut t, &key(1), b"hello custodes").unwrap();
    live.apply(h.take_delta());
    assert_eq!(h.lookup(&mut m, &t, &key(1)).unwrap(), Some(b"hello custodes".to_vec()));
    assert_eq!(h.lookup(&mut m, &t, &key(2)).unwrap(), None, "absent key");
}

#[test]
fn overwrite_replaces_value() {
    let (mut m, mut t) = mk(64);
    let mut live = LiveMap::default();
    let mut h = Hamt::empty();

    h.put(&mut m, &mut t, &key(7), b"first").unwrap();
    live.apply(h.take_delta());
    h.put(&mut m, &mut t, &key(7), b"second").unwrap();
    let d = h.take_delta();
    assert!(!d.removed.is_empty(), "old leaf must be superseded");
    live.apply(d);
    assert_eq!(h.lookup(&mut m, &t, &key(7)).unwrap(), Some(b"second".to_vec()));
}

#[test]
fn many_keys_flush_and_cold_reopen() {
    let (mut m, mut t) = mk(2048);
    let mut live = LiveMap::default();
    let mut h = Hamt::empty();

    for i in 0..200u64 {
        let v = format!("value-{i}");
        h.put(&mut m, &mut t, &key(i), v.as_bytes()).unwrap();
        live.apply(h.take_delta());
    }
    for i in 0..200u64 {
        assert_eq!(
            h.lookup(&mut m, &t, &key(i)).unwrap(),
            Some(format!("value-{i}").into_bytes()),
            "warm lookup {i}"
        );
    }

    let (root_hash, root_lba) = h.flush(&mut m, &mut t).unwrap();
    live.apply(h.take_delta());
    assert_ne!(root_hash, [0u8; 32]);

    let mut cold = Hamt::from_root(root_hash, root_lba);
    for i in 0..200u64 {
        assert_eq!(
            cold.lookup(&mut m, &t, &key(i)).unwrap(),
            Some(format!("value-{i}").into_bytes()),
            "cold lookup {i}"
        );
    }
    assert_eq!(cold.lookup(&mut m, &t, &key(999)).unwrap(), None);
}

#[test]
fn deep_split_on_shared_prefix() {
    let (mut m, mut t) = mk(256);
    let mut live = LiveMap::default();
    let mut h = Hamt::empty();

    let mut k1 = [0u8; 32];
    let mut k2 = [0u8; 32];
    k1[31] = 0b0000_0001;
    k2[31] = 0b0000_0010;
    h.put(&mut m, &mut t, &k1, b"one").unwrap();
    live.apply(h.take_delta());
    h.put(&mut m, &mut t, &k2, b"two").unwrap();
    live.apply(h.take_delta());

    assert_eq!(h.lookup(&mut m, &t, &k1).unwrap(), Some(b"one".to_vec()));
    assert_eq!(h.lookup(&mut m, &t, &k2).unwrap(), Some(b"two".to_vec()));

    let (rh, rl) = h.flush(&mut m, &mut t).unwrap();
    live.apply(h.take_delta());
    let mut cold = Hamt::from_root(rh, rl);
    assert_eq!(cold.lookup(&mut m, &t, &k1).unwrap(), Some(b"one".to_vec()));
    assert_eq!(cold.lookup(&mut m, &t, &k2).unwrap(), Some(b"two".to_vec()));
}

#[test]
fn direct_leaf_big_value_roundtrip() {
    let (mut m, mut t) = mk(256);
    let mut live = LiveMap::default();
    let mut h = Hamt::empty();

    let big: Vec<u8> = (0..20_000).map(|i| (i % 251) as u8).collect();
    assert!(big.len() > lone_capacity());
    h.put(&mut m, &mut t, &key(42), &big).unwrap();
    live.apply(h.take_delta());
    assert_eq!(h.lookup(&mut m, &t, &key(42)).unwrap(), Some(big.clone()));

    let (rh, rl) = h.flush(&mut m, &mut t).unwrap();
    live.apply(h.take_delta());
    let mut cold = Hamt::from_root(rh, rl);
    assert_eq!(cold.lookup(&mut m, &t, &key(42)).unwrap(), Some(big));
}

#[test]
fn delete_zeroes_and_returns_none() {
    let (mut m, mut t) = mk(256);
    let mut live = LiveMap::default();
    let mut h = Hamt::empty();

    let big: Vec<u8> = vec![0xAB; 12_000];
    h.put(&mut m, &mut t, &key(5), &big).unwrap();
    live.apply(h.take_delta());
    h.put(&mut m, &mut t, &key(6), b"small").unwrap();
    live.apply(h.take_delta());

    assert!(h.delete(&mut m, &mut t, &key(5)).unwrap());
    live.apply(h.take_delta());
    assert_eq!(h.lookup(&mut m, &t, &key(5)).unwrap(), None, "fast delete -> None");
    assert_eq!(
        h.lookup(&mut m, &t, &key(6)).unwrap(),
        Some(b"small".to_vec()),
        "neighbor untouched"
    );
    assert!(!h.delete(&mut m, &mut t, &key(5)).unwrap(), "double delete is a no-op");

    h.put(&mut m, &mut t, &key(5), b"reborn").unwrap();
    live.apply(h.take_delta());
    assert_eq!(h.lookup(&mut m, &t, &key(5)).unwrap(), Some(b"reborn".to_vec()));
}

#[test]
fn corrupt_committed_node_is_loud() {
    let (mut m, mut t) = mk(256);
    let mut live = LiveMap::default();
    let mut h = Hamt::empty();
    for i in 0..40u64 {
        h.put(&mut m, &mut t, &key(i), b"x").unwrap();
        live.apply(h.take_delta());
    }
    let (rh, rl) = h.flush(&mut m, &mut t).unwrap();
    live.apply(h.take_delta());

    let mut buf = zero_block();
    t.read(&mut m, rl, &mut buf).unwrap();
    buf[2500] ^= 1;
    m.write_verified(t.base + rl, &buf).unwrap();

    let mut cold = Hamt::from_root(rh, rl);
    let mut any_err = false;
    for i in 0..40u64 {
        if cold.lookup(&mut m, &t, &key(i)).is_err() {
            any_err = true;
            break;
        }
    }
    assert!(any_err, "corrupt index node must error loudly, never return wrong data");
}

#[test]
fn relocation_repair_keeps_index_correct() {
    let (mut m, mut t) = mk(64);
    let mut live = LiveMap::default();
    let mut h = Hamt::empty();

    h.put(&mut m, &mut t, &key(1), b"alpha").unwrap();
    live.apply(h.take_delta());
    h.put(&mut m, &mut t, &key(2), b"beta").unwrap();
    live.apply(h.take_delta());
    h.flush(&mut m, &mut t).unwrap();
    live.apply(h.take_delta());

    // Move every live block of the first window behind the plow, byte for byte.
    let mut relocations: Vec<Reloc> = Vec::new();
    let mut held: Vec<(u64, [u8; 32])> = live.0.iter().map(|(l, h)| (*l, *h)).collect();
    held.sort();
    for (from, hp) in held {
        let mut buf = zero_block();
        t.read(&mut m, from, &mut buf).unwrap();
        let to = t.append(&mut m, &[buf]).unwrap()[0];
        relocations.push(Reloc { hp, from, to });
    }
    assert!(!relocations.is_empty());
    h.repair_relocs(&mut m, &t, &relocations).unwrap();
    for r in &relocations {
        live.0.remove(&r.from);
        live.0.insert(r.to, r.hp);
    }

    assert_eq!(h.lookup(&mut m, &t, &key(1)).unwrap(), Some(b"alpha".to_vec()));
    assert_eq!(h.lookup(&mut m, &t, &key(2)).unwrap(), Some(b"beta".to_vec()));

    let (rh2, rl2) = h.flush(&mut m, &mut t).unwrap();
    live.apply(h.take_delta());
    let mut cold = Hamt::from_root(rh2, rl2);
    assert_eq!(cold.lookup(&mut m, &t, &key(1)).unwrap(), Some(b"alpha".to_vec()));
    assert_eq!(cold.lookup(&mut m, &t, &key(2)).unwrap(), Some(b"beta".to_vec()));
}

#[test]
fn empty_flush_is_zero_root() {
    let (mut m, mut t) = mk(16);
    let mut h = Hamt::empty();
    let (rh, _) = h.flush(&mut m, &mut t).unwrap();
    assert_eq!(rh, [0u8; 32]);
    let _ = m.block_count();
}

#[test]
fn value_byte_sizes_roundtrip_near_lone_boundary() {
    let (mut m, mut t) = mk(512);
    let mut live = LiveMap::default();
    let mut h = Hamt::empty();
    let cap = lone_capacity();
    for (i, len) in [0usize, 1, cap - 1, cap, cap + 1, cap * 2 + 7].into_iter().enumerate() {
        let v: Vec<u8> = (0..len).map(|j| (j % 256) as u8).collect();
        let k = key(1000 + i as u64);
        h.put(&mut m, &mut t, &k, &v).unwrap();
        live.apply(h.take_delta());
        assert_eq!(h.lookup(&mut m, &t, &k).unwrap(), Some(v), "len {len}");
    }
}

#[test]
fn reap_window_moves_what_is_live() {
    let (mut m, mut t) = mk(64);
    let mut live = LiveMap::default();
    let mut h = Hamt::empty();
    for i in 0..6u64 {
        h.put(&mut m, &mut t, &key(i), format!("v{i}").as_bytes()).unwrap();
        live.apply(h.take_delta());
    }
    h.flush(&mut m, &mut t).unwrap();
    live.apply(h.take_delta());
    let before = t.reap;
    h.reap_window(&mut m, &mut t, &live, 4).unwrap();
    live.apply(h.take_delta());
    assert_eq!(t.reap, before + 4);
    for i in 0..6u64 {
        assert_eq!(h.lookup(&mut m, &t, &key(i)).unwrap(), Some(format!("v{i}").into_bytes()));
    }
    let mut found: Vec<(u64, [u8; 32])> = Vec::new();
    let (rh, rl) = h.flush(&mut m, &mut t).unwrap();
    Hamt::from_root(rh, rl).walk_live(&mut m, &t, &mut found).unwrap();
    assert!(found.iter().all(|(lba, _)| *lba >= 4), "nothing live is left in the retired window");
}

#[test]
fn walks_list_keys_and_report_what_dangles() {
    let (mut m, mut t) = mk(128);
    let mut h = Hamt::empty();
    for i in 0..10u64 {
        h.put(&mut m, &mut t, &key(i), b"payload").unwrap();
    }
    let (rh, rl) = h.flush(&mut m, &mut t).unwrap();
    let mut cold = Hamt::from_root(rh, rl);
    let mut keys: Vec<[u8; 32]> = Vec::new();
    cold.walk_keys(&mut m, &t, &mut keys).unwrap();
    keys.sort();
    let mut want: Vec<[u8; 32]> = (0..10).map(key).collect();
    want.sort();
    assert_eq!(keys, want);

    // Leaf 3 was the fourth append: break its seal.
    let mut buf = zero_block();
    t.read(&mut m, 3, &mut buf).unwrap();
    buf[900] ^= 1;
    m.write_verified(3, &buf).unwrap();
    let mut live: Vec<(u64, [u8; 32])> = Vec::new();
    assert!(matches!(
        cold.walk_live(&mut m, &t, &mut live),
        Err(Error::Corrupt(s)) if s == "unsealed block at tract lba 3"
    ));
    let mut stale = Vec::new();
    let mut dangling = Vec::new();
    cold.walk_live_repair(&mut m, &t, &mut live, &mut stale, &mut dangling).unwrap();
    assert!(stale.is_empty());
    assert_eq!(dangling.len(), 1);
    assert_eq!(dangling[0].lba, 3);
}

#[test]
fn a_value_whose_leaf_does_not_fit_moves_nothing() {
    let (mut m, mut t) = mk(64);
    let mut h = Hamt::empty();
    h.put(&mut m, &mut t, &key(1), b"here").unwrap();
    let plow = t.plow;
    // Three furrows would fit before the fence, their leaf would not.
    t.fence_limit = Some(plow + 3);
    assert!(matches!(
        h.put(&mut m, &mut t, &key(2), &[9u8; 9000]),
        Err(Error::Fenced(at)) if at == plow + 3
    ));
    assert_eq!(t.plow, plow);
    let mut out = zero_block();
    m.read(plow, &mut out).unwrap();
    assert_eq!(out, zero_block());
    assert_eq!(h.lookup(&mut m, &t, &key(2)).unwrap(), None);
    assert_eq!(h.take_delta().added.len(), 1);

    t.fence_limit = Some(plow + 4);
    h.put(&mut m, &mut t, &key(2), &[9u8; 9000]).unwrap();
    assert_eq!(t.plow, plow + 4);
}

#[test]
fn flushing_says_where_the_root_stands() {
    let (mut m, mut t) = mk(64);
    let mut h = Hamt::empty();
    assert_eq!(h.flush(&mut m, &mut t).unwrap(), ([0u8; 32], 0));
    h.put(&mut m, &mut t, &key(1), b"one").unwrap();
    h.put(&mut m, &mut t, &key(2), b"two").unwrap();
    let first = h.flush(&mut m, &mut t).unwrap();
    let plow = t.plow;
    assert_eq!(h.flush(&mut m, &mut t).unwrap(), first);
    assert_eq!(t.plow, plow);
    assert!(h.delete(&mut m, &mut t, &key(1)).unwrap());
    assert!(h.delete(&mut m, &mut t, &key(2)).unwrap());
}

#[test]
fn a_move_to_an_unsealed_block_is_refused() {
    let (mut m, mut t) = mk(64);
    let mut h = Hamt::empty();
    h.put(&mut m, &mut t, &key(1), b"one").unwrap();
    let (lba, hp) = h.take_delta().added[0];
    let away = [Reloc { hp, from: lba, to: 40 }];
    match h.repair_relocs(&mut m, &t, &away) {
        Err(Error::Corrupt(s)) => assert_eq!(s, "relocated block unreadable at destination"),
        _ => panic!("nothing is there"),
    }
    assert_eq!(h.lookup(&mut m, &t, &key(1)).unwrap(), Some(b"one".to_vec()));
}
