//! The migrating layout: two-level bootstrap, hops between residences, fallback after a torn
//! migration, replication across a migration.

use std::cell::RefCell;
use std::rc::Rc;

use manifestus::{
    append_root, read_root, verified_replicate, zero_block, Block, BlockDev, Error, Mirror, Result,
    RootEntry, Vault, BLOCK, ROOT_SLOTS,
};

/// A device in memory. Clones share the blocks, so a clone reopens what was written.
#[derive(Clone)]
struct MemDev {
    blocks: Rc<RefCell<Vec<Block>>>,
}

impl MemDev {
    fn new(n: u64) -> Self {
        MemDev { blocks: Rc::new(RefCell::new(vec![[0u8; BLOCK]; n as usize])) }
    }
}

impl BlockDev for MemDev {
    fn block_count(&self) -> u64 {
        self.blocks.borrow().len() as u64
    }

    fn read(&mut self, lba: u64, buf: &mut Block) -> Result<()> {
        match self.blocks.borrow().get(lba as usize) {
            Some(b) => {
                *buf = *b;
                Ok(())
            }
            None => Err(Error::Bounds(lba)),
        }
    }

    fn write(&mut self, lba: u64, buf: &Block) -> Result<()> {
        match self.blocks.borrow_mut().get_mut(lba as usize) {
            Some(b) => {
                *b = *buf;
                Ok(())
            }
            None => Err(Error::Bounds(lba)),
        }
    }

    fn flush(&mut self) -> Result<()> {
        Ok(())
    }

    fn grow(&mut self, new_blocks: u64) -> Result<()> {
        let mut blocks = self.blocks.borrow_mut();
        if new_blocks < blocks.len() as u64 {
            return Err(Error::Corrupt("grow cannot shrink".to_string()));
        }
        blocks.resize(new_blocks as usize, [0u8; BLOCK]);
        Ok(())
    }
}

// Tiny geometry so residencies expire fast: 16 slots, 3 residences, 2 rotations each, so a hop every
// 32 generations.
const R_LOG2: u8 = 4;
const N: u64 = 1 << R_LOG2;
const RESIDENCES: u64 = 3;
const RESIDENCY: u64 = 2;
const BLOCKS: u64 = ROOT_SLOTS + RESIDENCES * N + 512;

fn key(i: u64) -> [u8; 32] {
    *blake3::hash(&i.to_le_bytes()).as_bytes()
}

fn val(i: u64) -> Vec<u8> {
    format!("value-{i}-{}", "y".repeat((i % 5) as usize * 80)).into_bytes()
}

fn pair() -> (MemDev, MemDev) {
    (MemDev::new(BLOCKS), MemDev::new(BLOCKS))
}

fn genesis(a: &MemDev, b: &MemDev) -> Vault<MemDev, MemDev> {
    Vault::open_migrating(
        Mirror::new(a.clone(), b.clone()),
        R_LOG2,
        RESIDENCES,
        RESIDENCY,
        1_000,
    )
    .unwrap()
}

fn reopen(a: &MemDev, b: &MemDev) -> Vault<MemDev, MemDev> {
    Vault::open(Mirror::new(a.clone(), b.clone()), R_LOG2, 2_000).unwrap()
}

#[test]
fn migrating_genesis_and_plain_reopen() {
    let (a, b) = pair();
    {
        let mut v = genesis(&a, &b);
        v.put(&key(1), b"alpha", 1_001).unwrap();
        v.put(&key(2), b"beta", 1_002).unwrap();
        assert_eq!(v.get(&key(1)).unwrap(), Some(b"alpha".to_vec()));
    }
    let root = read_root(&mut a.clone()).unwrap().expect("root entry present");
    assert_eq!(root.at, ROOT_SLOTS, "first residence");

    let mut v = reopen(&a, &b);
    assert_eq!(v.get(&key(1)).unwrap(), Some(b"alpha".to_vec()));
    assert_eq!(v.get(&key(2)).unwrap(), Some(b"beta".to_vec()));
}

#[test]
fn spine_hops_residences_and_data_survives() {
    let (a, b) = pair();
    {
        let mut v = genesis(&a, &b);
        let mut latest: [Vec<u8>; 7] = Default::default();
        for i in 0..100u64 {
            v.put(&key(i % 7), &val(i), 1_000 + i as i64).unwrap();
            latest[(i % 7) as usize] = val(i);
            v.put(&key(100 + i), &val(i), 1_000 + i as i64).unwrap();
        }
        for i in 0..7u64 {
            assert_eq!(
                v.get(&key(i)).unwrap().as_deref(),
                Some(&latest[i as usize][..]),
                "small-set key {i} readable"
            );
        }
    }
    let root = read_root(&mut a.clone()).unwrap().expect("root entry present");
    assert!(root.gen >= 3, "multiple migrations happened (root gen {})", root.gen);
    assert!(root.at != root.was, "current and previous residences differ");

    let mut v = reopen(&a, &b);
    for i in 0..100u64 {
        assert_eq!(v.get(&key(100 + i)).unwrap(), Some(val(i)), "key {} after reopen", 100 + i);
    }
}

#[test]
fn ab_fallback_when_migration_tore_before_first_commit() {
    let (a, b) = pair();
    {
        let mut v = genesis(&a, &b);
        for i in 0..10u64 {
            v.put(&key(i), &val(i), 1_000 + i as i64).unwrap();
        }
    }
    {
        let mut mirror = Mirror::new(a.clone(), b.clone());
        let (da, _) = mirror.devices();
        let old = read_root(da.unwrap()).unwrap().unwrap();
        let next = ROOT_SLOTS + (((old.at - ROOT_SLOTS) / N + 1) % RESIDENCES) * N;
        for slot in 0..N {
            mirror.write_verified(next + slot, &zero_block()).unwrap();
        }
        let torn = RootEntry {
            gen: old.gen + 1,
            prev_hash: old.body_hash(),
            at: next,
            was: old.at,
            since: 10_000,
            ..old
        };
        append_root(&mut mirror, &torn).unwrap();
    }
    let mut v = reopen(&a, &b);
    for i in 0..10u64 {
        assert_eq!(v.get(&key(i)).unwrap(), Some(val(i)), "key {i} after fallback");
    }
    v.put(&key(99), b"post-fallback", 3_000).unwrap();
    assert_eq!(v.get(&key(99)).unwrap(), Some(b"post-fallback".to_vec()));
}

#[test]
fn replication_converges_migrating_pair() {
    let (mut a, mut b) = pair();
    {
        let mut v = genesis(&a, &b);
        for i in 0..10u64 {
            v.put(&key(i), &val(i), 1_000 + i as i64).unwrap();
        }
    }
    {
        let mirror: Mirror<MemDev, MemDev> = Mirror::from_parts(Some(a.clone()), None).unwrap();
        let mut v = Vault::open(mirror, R_LOG2, 2_000).unwrap();
        for i in 10..60u64 {
            v.put(&key(i), &val(i), 2_000 + i as i64).unwrap();
        }
    }
    verified_replicate(&mut a, &mut b, R_LOG2).unwrap();
    let out2 = verified_replicate(&mut a, &mut b, R_LOG2).unwrap();
    assert_eq!((out2.spine_copied, out2.tract_copied), (0, 0));

    let mut v = Vault::open(Mirror::new(a, b), R_LOG2, 3_000).unwrap();
    for i in 0..60u64 {
        assert_eq!(v.get(&key(i)).unwrap(), Some(val(i)), "key {i} after replication");
    }
}

#[test]
fn root_entry_reads_back() {
    let e = RootEntry {
        gen: 6,
        prev_hash: [9u8; 32],
        ring_log2: 4,
        at: 20,
        was: 4,
        since: 77,
        residences: 3,
        residency: 2,
        eagle_time: -3,
    };
    let d = RootEntry::decode(&e.encode()).unwrap();
    assert_eq!(d, e);
    assert!(d.is_sane());
    let far = RootEntry { at: 1000, ..e };
    assert!(!far.is_sane());
    let mut bad = e.encode();
    bad[700] ^= 1;
    assert!(RootEntry::decode(&bad).is_err());
}
