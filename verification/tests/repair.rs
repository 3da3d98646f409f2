//! Batches, torn commits, reaping on demand, and the repair of damaged vaults.

use std::cell::RefCell;
use std::rc::Rc;

use manifestus::inspect::{decode_tract, TractBlock};
use manifestus::{Block, BlockDev, Error, Mirror, Result, Vault, BLOCK};

/// A device in memory. Clones share the blocks, so a clone reopens what was written.
#[derive(Clone)]
struct MemDev {
    blocks: Rc<RefCell<Vec<Block>>>,
}

impl MemDev {
    fn new(n: u64) -> Self {
        MemDev { blocks: Rc::new(RefCell::new(vec![[0u8; BLOCK]; n as usize])) }
    }
}

impl BlockDev for MemDev {
    fn block_count(&self) -> u64 {
        self.blocks.borrow().len() as u64
    }

    fn read(&mut self, lba: u64, buf: &mut Block) -> Result<()> {
        match self.blocks.borrow().get(lba as usize) {
            Some(b) => {
                *buf = *b;
                Ok(())
            }
            None => Err(Error::Bounds(lba)),
        }
    }

    fn write(&mut self, lba: u64, buf: &Block) -> Result<()> {
        match self.blocks.borrow_mut().get_mut(lba as usize) {
            Some(b) => {
                *b = *buf;
                Ok(())
            }
            None => Err(Error::Bounds(lba)),
        }
    }

    fn flush(&mut self) -> Result<()> {
        Ok(())
    }

    fn grow(&mut self, new_blocks: u64) -> Result<()> {
        let mut blocks = self.blocks.borrow_mut();
        if new_blocks < blocks.len() as u64 {
            return Err(Error::Corrupt("grow cannot shrink".to_string()));
        }
        blocks.resize(new_blocks as usize, [0u8; BLOCK]);
        Ok(())
    }
}

const RING_LOG2: u8 = 5;
const RING: u64 = 1 << RING_LOG2;

fn key(i: u64) -> [u8; 32] {
    *blake3::hash(&i.to_le_bytes()).as_bytes()
}

fn val(i: u64) -> Vec<u8> {
    format!("value {i}").into_bytes()
}

fn pair(blocks: u64) -> (MemDev, MemDev) {
    (MemDev::new(blocks), MemDev::new(blocks))
}

fn open(a: &MemDev, b: &MemDev, now: i64) -> Vault<MemDev, MemDev> {
    Vault::open(Mirror::new(a.clone(), b.clone()), RING_LOG2, now).unwrap()
}

/// Where the leaf of a key lies in the tract, by a look at every block.
fn leaf_of(dev: &MemDev, k: &[u8; 32]) -> u64 {
    let blocks = dev.blocks.borrow();
    for (i, b) in blocks.iter().enumerate().skip(RING as usize) {
        if let Ok((_, TractBlock::Lone { key, .. })) = decode_tract(b) {
            if key == *k {
                return i as u64 - RING;
            }
        }
    }
    panic!("no leaf")
}

fn damage(devs: [&MemDev; 2], lba: u64, f: fn(&mut Block)) {
    for d in devs {
        f(&mut d.blocks.borrow_mut()[lba as usize]);
    }
}

fn zero(b: &mut Block) {
    *b = [0u8; BLOCK];
}

fn flip(b: &mut Block) {
    b[100] ^= 0xFF;
}

#[test]
fn repair_takes_out_what_is_lost_and_nothing_else() {
    let (a, b) = pair(RING + 256);
    {
        let mut v = open(&a, &b, 1_000);
        for i in 0..8 {
            v.put(&key(i), &val(i), 1_001 + i as i64).unwrap();
        }
    }
    let gone = leaf_of(&a, &key(2));
    let torn = leaf_of(&a, &key(5));
    damage([&a, &b], RING + gone, zero);
    damage([&a, &b], RING + torn, flip);

    let strict = Vault::open(Mirror::new(a.clone(), b.clone()), RING_LOG2, 2_000);
    match strict {
        Err(Error::Corrupt(s)) => assert_eq!(s, format!("unsealed block at tract lba {torn}")),
        _ => panic!("an ordinary opening refuses the damage"),
    }

    let (mut v, report) =
        Vault::open_repairing(Mirror::new(a.clone(), b.clone()), RING_LOG2, 3_000).unwrap();
    assert_eq!(report.stale.len(), 1);
    assert_eq!(report.stale[0].lba, gone);
    assert_eq!(report.dangling.len(), 1);
    assert_eq!(report.dangling[0].lba, torn);
    assert_eq!(report.dangling[0].key, None);
    assert_eq!(v.generation(), Some(9));
    for i in 0..8 {
        let want = if i == 2 || i == 5 { None } else { Some(val(i)) };
        assert_eq!(v.get(&key(i)).unwrap(), want);
    }
    drop(v);

    let mut v = open(&a, &b, 4_000);
    let mut keys = v.live_keys().unwrap();
    let mut want: Vec<[u8; 32]> = [0, 1, 3, 4, 6, 7].iter().map(|i| key(*i)).collect();
    keys.sort();
    want.sort();
    assert_eq!(keys, want);
    v.put(&key(5), b"again", 4_001).unwrap();
    assert_eq!(v.get(&key(5)).unwrap(), Some(b"again".to_vec()));
}

#[test]
fn a_sound_vault_has_nothing_to_repair() {
    let (a, b) = pair(RING + 128);
    open(&a, &b, 1_000).put(&key(1), b"one", 1_001).unwrap();
    let (mut v, report) = Vault::open_repairing(Mirror::new(a, b), RING_LOG2, 2_000).unwrap();
    assert!(report.stale.is_empty());
    assert!(report.dangling.is_empty());
    assert_eq!(v.generation(), Some(2));
    assert_eq!(v.get(&key(1)).unwrap(), Some(b"one".to_vec()));
}

#[test]
fn repair_wants_a_vault() {
    let (a, b) = pair(RING + 64);
    match Vault::open_repairing(Mirror::new(a, b), RING_LOG2, 1) {
        Err(Error::Corrupt(s)) => {
            assert_eq!(s, "nothing bootstraps: not a vault (repair needs an existing spine)")
        }
        _ => panic!("a blank device is no vault"),
    }
}

#[test]
fn a_batch_lands_under_one_generation() {
    let (a, b) = pair(RING + 256);
    let mut v = open(&a, &b, 1_000);
    v.put(&key(0), b"before", 1_001).unwrap();
    let (k1, k2) = (key(1), key(2));
    let big = vec![7u8; 10_000];
    let items: Vec<(&[u8; 32], &[u8])> =
        vec![(&k1, b"first"), (&k2, big.as_slice()), (&k1, b"second")];
    v.put_batch(&items, 1_002).unwrap();
    assert_eq!(v.generation(), Some(2));
    assert_eq!(v.get(&k1).unwrap(), Some(b"second".to_vec()));

    let again: Vec<(&[u8; 32], &[u8])> = vec![(&k1, b"second"), (&k2, big.as_slice())];
    v.put_batch(&again, 1_003).unwrap();
    v.put_batch(&[], 1_004).unwrap();
    assert_eq!(v.generation(), Some(2), "what is committed already is not committed again");

    drop(v);
    let mut v = open(&a, &b, 2_000);
    assert_eq!(v.get(&key(0)).unwrap(), Some(b"before".to_vec()));
    assert_eq!(v.get(&k1).unwrap(), Some(b"second".to_vec()));
    assert_eq!(v.get(&k2).unwrap(), Some(big));
}

#[test]
fn the_value_already_committed_is_not_written_again() {
    let (a, b) = pair(RING + 128);
    let mut v = open(&a, &b, 1_000);
    v.put(&key(1), b"same", 1_001).unwrap();
    let plowed = v.tract_blocks_plowed();
    v.put(&key(1), b"same", 1_002).unwrap();
    assert_eq!(v.generation(), Some(1));
    assert_eq!(v.tract_blocks_plowed(), plowed);
}

#[test]
fn a_torn_commit_leaves_the_one_before() {
    let (a, b) = pair(RING + 128);
    {
        let mut v = open(&a, &b, 1_000);
        v.put(&key(1), b"kept", 1_001).unwrap();
        v.put(&key(1), b"torn", 1_002).unwrap();
        v.put(&key(2), b"torn too", 1_003).unwrap();
        assert_eq!(v.generation(), Some(3));
    }
    damage([&a, &b], 3, flip);
    {
        let mut v = open(&a, &b, 2_000);
        assert_eq!(v.generation(), Some(2));
        assert_eq!(v.get(&key(1)).unwrap(), Some(b"torn".to_vec()));
        assert_eq!(v.get(&key(2)).unwrap(), None);
    }
    damage([&a, &b], 2, zero);
    let mut v = open(&a, &b, 3_000);
    assert_eq!(v.generation(), Some(1));
    assert_eq!(v.get(&key(1)).unwrap(), Some(b"kept".to_vec()));
}

#[test]
fn a_deleted_key_stays_absent() {
    let (a, b) = pair(RING + 128);
    {
        let mut v = open(&a, &b, 1_000);
        v.put(&key(1), b"one", 1_001).unwrap();
        v.put(&key(2), b"two", 1_002).unwrap();
        assert!(v.delete(&key(1), 1_003).unwrap());
        assert!(!v.delete(&key(9), 1_004).unwrap());
    }
    let mut v = open(&a, &b, 2_000);
    assert_eq!(v.get(&key(1)).unwrap(), None);
    assert_eq!(v.get(&key(2)).unwrap(), Some(b"two".to_vec()));
    assert_eq!(v.live_keys().unwrap(), vec![key(2)]);
}

#[test]
fn a_window_of_dead_blocks_is_reaped() {
    let (a, b) = pair(RING + 256);
    let mut v = open(&a, &b, 1_000);
    for i in 0..20 {
        v.put(&key(1), &val(i), 1_001 + i as i64).unwrap();
    }
    assert_eq!(v.tract_blocks_reaped(), 0);
    assert!(v.reap_one_window(2_000).unwrap());
    assert_eq!(v.tract_blocks_reaped(), 16);
    assert_eq!(v.generation(), Some(21));
    assert_eq!(v.get(&key(1)).unwrap(), Some(val(19)));
    drop(v);
    let mut v = open(&a, &b, 3_000);
    assert_eq!(v.get(&key(1)).unwrap(), Some(val(19)));
}

#[test]
fn nothing_occupied_leaves_nothing_to_rescue() {
    let (a, b) = pair(RING + 128);
    let mut v = open(&a, &b, 1_000);
    assert_eq!(v.rescue(1_001).unwrap(), 0);
    assert!(!v.reap_one_window(1_002).unwrap());
    assert_eq!(v.generation(), Some(0));
}

#[test]
fn a_vault_runs_on_either_side_of_its_mirror() {
    let (a, b) = pair(RING + 128);
    {
        let mut v = open(&a, &b, 1_000);
        v.put(&key(1), b"one", 1_001).unwrap();
        assert!(!v.degraded());
    }
    let alone: Mirror<MemDev, MemDev> = Mirror::from_parts(None, Some(b)).unwrap();
    let mut v = Vault::open(alone, RING_LOG2, 2_000).unwrap();
    assert!(v.degraded());
    assert_eq!(v.get(&key(1)).unwrap(), Some(b"one".to_vec()));
}

#[test]
fn appends_that_never_finished_leave_the_vault_as_committed() {
    let (a, b) = pair(RING + 128);
    let plowed = {
        let mut v = open(&a, &b, 1_000);
        v.put(&key(1), b"one", 1_001).unwrap();
        v.put(&key(2), b"two", 1_002).unwrap();
        v.tract_blocks_plowed()
    };
    for i in 0..8 {
        damage([&a, &b], RING + plowed + i, flip);
    }
    let mut v = open(&a, &b, 2_000);
    assert_eq!(v.generation(), Some(2));
    assert_eq!(v.get(&key(1)).unwrap(), Some(b"one".to_vec()));
    assert_eq!(v.get(&key(2)).unwrap(), Some(b"two".to_vec()));
    v.put(&key(3), b"three", 2_001).unwrap();
    assert_eq!(v.get(&key(3)).unwrap(), Some(b"three".to_vec()));
}
