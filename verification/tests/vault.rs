//! The vault: genesis, durability, cold resume, replication, reaping and growing.

use std::cell::RefCell;
use std::rc::Rc;

use manifestus::{
    sealed_hp, verified_replicate, zero_block, Block, BlockDev, Error, Mirror, Result, Vault, BLOCK,
    HOST_RING_LOG2,
};

/// A device in memory. Clones share the blocks, so a clone reopens what was written.
#[derive(Clone)]
struct MemDev {
    blocks: Rc<RefCell<Vec<Block>>>,
}

impl MemDev {
    fn new(n: u64) -> Self {
        MemDev {
            blocks: Rc::new(RefCell::new(vec![[0u8; BLOCK]; n as usize])),
        }
    }
}

impl BlockDev for MemDev {
    fn block_count(&self) -> u64 {
        self.blocks.borrow().len() as u64
    }

    fn read(&mut self, lba: u64, buf: &mut Block) -> Result<()> {
        match self.blocks.borrow().get(lba as usize) {
            Some(b) => {
                *buf = *b;
                Ok(())
            }
            None => Err(Error::Bounds(lba)),
        }
    }

    fn write(&mut self, lba: u64, buf: &Block) -> Result<()> {
        match self.blocks.borrow_mut().get_mut(lba as usize) {
            Some(b) => {
                *b = *buf;
                Ok(())
            }
            None => Err(Error::Bounds(lba)),
        }
    }

    fn flush(&mut self) -> Result<()> {
        Ok(())
    }

    fn grow(&mut self, new_blocks: u64) -> Result<()> {
        let mut blocks = self.blocks.borrow_mut();
        if new_blocks < blocks.len() as u64 {
            return Err(Error::Corrupt("grow cannot shrink".to_string()));
        }
        blocks.resize(new_blocks as usize, [0u8; BLOCK]);
        Ok(())
    }
}

const RING: u64 = 1 << HOST_RING_LOG2;

fn key(i: u64) -> [u8; 32] {
    *blake3::hash(&i.to_le_bytes()).as_bytes()
}

fn val(i: u64) -> Vec<u8> {
    format!("value-{i}-{}", "x".repeat((i % 7) as usize * 100)).into_bytes()
}

fn pair(blocks: u64) -> (MemDev, MemDev) {
    (MemDev::new(blocks), MemDev::new(blocks))
}

fn open(a: &MemDev, b: &MemDev, now: i64) -> Vault<MemDev, MemDev> {
    Vault::open(Mirror::new(a.clone(), b.clone()), HOST_RING_LOG2, now).unwrap()
}

#[test]
fn genesis_kv_and_resume() {
    let (a, b) = pair(RING + 128);
    {
        let mut v = open(&a, &b, 1_000);
        assert_eq!(v.generation(), Some(0), "genesis is generation 0");
        v.put(&key(1), b"alpha", 1_001).unwrap();
        v.put(&key(2), b"beta", 1_002).unwrap();
        assert_eq!(v.generation(), Some(2), "commit-per-write");
        assert_eq!(v.get(&key(1)).unwrap(), Some(b"alpha".to_vec()));
        assert!(v.delete(&key(1), 1_003).unwrap());
        assert_eq!(v.get(&key(1)).unwrap(), None);
        assert!(!v.delete(&key(1), 1_004).unwrap(), "absent delete is a no-op, no commit");
        assert_eq!(v.generation(), Some(3));
    }
    let mut v = open(&a, &b, 2_000);
    assert_eq!(v.generation(), Some(3));
    assert_eq!(v.get(&key(2)).unwrap(), Some(b"beta".to_vec()));
    assert_eq!(v.get(&key(1)).unwrap(), None);
    assert!(v.live_blocks() > 0);
}

#[test]
fn open_ladder_genesis_over_trash_refuses_real() {
    let (a, b) = pair(RING + 32);
    for p in [&a, &b] {
        let mut dev = p.clone();
        let mut junk = zero_block();
        junk.fill(0x6B);
        for lba in 0..dev.block_count() {
            dev.write(lba, &junk).unwrap();
        }
        dev.flush().unwrap();
    }
    let mut v = open(&a, &b, 1_000);
    v.put(&key(9), b"reborn over trash", 1_001).unwrap();
    assert_eq!(v.get(&key(9)).unwrap(), Some(b"reborn over trash".to_vec()));
    drop(v);

    let (mut c, d) = pair(RING + 32);
    {
        let mut donor = a.clone();
        let mut buf = zero_block();
        let mut found = None;
        for lba in RING..donor.block_count() {
            donor.read(lba, &mut buf).unwrap();
            if sealed_hp(&buf).is_some() {
                found = Some(buf);
                break;
            }
        }
        c.write(RING + 5, &found.expect("donor vault has sealed tract blocks")).unwrap();
        c.flush().unwrap();
    }
    let err = Vault::open(Mirror::new(c, d), HOST_RING_LOG2, 1_000);
    assert!(err.is_err(), "sealed block anywhere = real vault = never format");
}

#[test]
fn many_keys_cold_resume_with_big_values() {
    let (a, b) = pair(RING + 2048);
    {
        let mut v = open(&a, &b, 1_000);
        for i in 0..60 {
            v.put(&key(i), &val(i), 1_000 + i as i64).unwrap();
        }
        let big = vec![0xCD; 18_000];
        v.put(&key(777), &big, 2_000).unwrap();
    }
    let mut v = open(&a, &b, 3_000);
    for i in 0..60 {
        assert_eq!(v.get(&key(i)).unwrap(), Some(val(i)), "key {i}");
    }
    assert_eq!(v.get(&key(777)).unwrap(), Some(vec![0xCD; 18_000]));
}

#[test]
fn replication_converges_stale_mirror() {
    let (mut a, mut b) = pair(RING + 256);
    {
        let mut v = open(&a, &b, 1_000);
        for i in 0..10 {
            v.put(&key(i), &val(i), 1_000 + i as i64).unwrap();
        }
    }
    {
        let mirror: Mirror<MemDev, MemDev> = Mirror::from_parts(Some(a.clone()), None).unwrap();
        let mut v = Vault::open(mirror, HOST_RING_LOG2, 2_000).unwrap();
        for i in 10..20 {
            v.put(&key(i), &val(i), 2_000 + i as i64).unwrap();
        }
    }
    let out = verified_replicate(&mut a, &mut b, HOST_RING_LOG2).unwrap();
    assert!(out.spine_copied > 0, "stale spine slots copied");
    assert!(out.tract_copied > 0, "diverged live blocks copied");

    let out2 = verified_replicate(&mut a, &mut b, HOST_RING_LOG2).unwrap();
    assert_eq!((out2.spine_copied, out2.tract_copied), (0, 0));

    let mut v = open(&a, &b, 3_000);
    for i in 0..20 {
        assert_eq!(v.get(&key(i)).unwrap(), Some(val(i)), "key {i} after replication");
    }
    // The replica serves everything by itself.
    let solo: Mirror<MemDev, MemDev> = Mirror::from_parts(Some(b.clone()), None).unwrap();
    let mut w = Vault::open(solo, HOST_RING_LOG2, 3_500).unwrap();
    for i in 0..20 {
        assert_eq!(w.get(&key(i)).unwrap(), Some(val(i)));
    }
}

#[test]
fn churn_triggers_reap_and_reclaims() {
    let (a, b) = pair(RING + 64);
    let mut v = open(&a, &b, 1_000);
    for round in 0..30 {
        for k in 0..4u64 {
            v.put(&key(k), &val(round * 4 + k), 10_000 + round as i64).unwrap();
        }
    }
    for k in 0..4u64 {
        assert_eq!(v.get(&key(k)).unwrap(), Some(val(29 * 4 + k)), "latest value survives churn");
    }
    assert!(v.tract_blocks() == 64);
}

#[test]
fn grow_expands_full_tract_and_survives_resume() {
    let (a, b) = pair(RING + 24);
    let mut written: Vec<u64> = Vec::new();
    {
        let mut v = open(&a, &b, 1_000);
        let mut i = 0u64;
        loop {
            match v.put(&key(i), &val(i), 1_000 + i as i64) {
                Ok(()) => {
                    written.push(i);
                    i += 1;
                }
                Err(Error::TractFull) | Err(Error::Fenced(_)) => break,
                Err(e) => panic!("unexpected error while filling: {e:?}"),
            }
            assert!(i < 10_000, "tiny tract never filled");
        }
        let old_len = v.tract_blocks();
        v.grow(old_len * 4, 5_000).unwrap();
        assert_eq!(v.tract_blocks(), old_len * 4);

        for &j in &written {
            assert_eq!(v.get(&key(j)).unwrap(), Some(val(j)), "key {j} lost across grow");
        }
        for j in i..i + 20 {
            v.put(&key(j), &val(j), 6_000 + j as i64).unwrap();
            written.push(j);
        }
    }
    let mut v = open(&a, &b, 9_000);
    for &j in &written {
        assert_eq!(v.get(&key(j)).unwrap(), Some(val(j)), "key {j} lost across resume");
    }
}

#[test]
fn grow_mid_lap_after_churn_keeps_data() {
    let (a, b) = pair(RING + 64);
    let mut v = open(&a, &b, 1_000);
    for round in 0..30 {
        for k in 0..4u64 {
            v.put(&key(k), &val(round * 4 + k), 10_000 + round as i64).unwrap();
        }
    }
    v.grow(64 * 3, 20_000).unwrap();
    assert_eq!(v.tract_blocks(), 192);
    for k in 0..4u64 {
        assert_eq!(v.get(&key(k)).unwrap(), Some(val(29 * 4 + k)), "value survives mid-lap grow");
    }
    for round in 30..80 {
        for k in 0..8u64 {
            v.put(&key(k), &val(round * 8 + k), 20_000 + round as i64).unwrap();
        }
    }
    for k in 0..8u64 {
        assert_eq!(v.get(&key(k)).unwrap(), Some(val(79 * 8 + k)));
    }
}

#[test]
fn replication_grows_smaller_loser() {
    let (mut a, mut b) = pair(RING + 32);
    {
        let mut v = open(&a, &b, 1_000);
        for i in 0..5 {
            v.put(&key(i), &val(i), 1_000 + i as i64).unwrap();
        }
    }
    {
        let mirror: Mirror<MemDev, MemDev> = Mirror::from_parts(Some(a.clone()), None).unwrap();
        let mut v = Vault::open(mirror, HOST_RING_LOG2, 2_000).unwrap();
        v.grow(1024, 2_100).unwrap();
        for i in 5..40 {
            v.put(&key(i), &val(i), 2_200 + i as i64).unwrap();
        }
    }
    assert!(b.block_count() < a.block_count(), "precondition: loser smaller");
    verified_replicate(&mut a, &mut b, HOST_RING_LOG2).unwrap();
    assert_eq!(b.block_count(), a.block_count(), "loser extended to winner's extent");

    let mut v = open(&a, &b, 3_000);
    assert_eq!(v.tract_blocks(), 1024);
    for i in 0..40 {
        assert_eq!(v.get(&key(i)).unwrap(), Some(val(i)), "key {i} after grow+replicate");
    }
}

#[test]
fn huge_value_survives_reap_laps() {
    let (a, b) = pair(RING + 2048);
    let big: Vec<u8> = (0..3_000_000u32).map(|i| i.wrapping_mul(2654435761) as u8).collect();
    {
        let mut v = open(&a, &b, 1_000);
        v.put(&key(9000), &big, 1_000).unwrap();
        assert_eq!(v.get(&key(9000)).unwrap().as_deref(), Some(&big[..]), "fresh read");

        let lap = 2048u64;
        let start_lap = 0u64;
        let mut round = 0u64;
        while (v.tract_blocks_plowed() / lap) < start_lap + 3 {
            for k in 0..8u64 {
                v.put(&key(k), &val(round * 8 + k), 10_000 + round as i64).unwrap();
            }
            round += 1;
            assert!(round < 200_000, "never lapped: reap starved?");
        }
        assert_eq!(
            v.get(&key(9000)).unwrap().as_deref(),
            Some(&big[..]),
            "read after {round} churn rounds and 3+ laps"
        );
        for k in 0..8u64 {
            assert_eq!(v.get(&key(k)).unwrap(), Some(val((round - 1) * 8 + k)));
        }
    }
    let mut v = open(&a, &b, 99_000);
    assert_eq!(v.get(&key(9000)).unwrap().as_deref(), Some(&big[..]), "read after cold resume");
}

#[test]
fn legacy_direct_value_migrates_thru_reap() {
    let (a, b) = pair(RING + 256);
    let old: Vec<u8> = (0..60_000u32).map(|i| i.wrapping_mul(97) as u8).collect();
    {
        let mut v = open(&a, &b, 1_000);
        v.put_legacy_direct_for_tests(&key(7000), &old, 1_000).unwrap();
        assert_eq!(v.get(&key(7000)).unwrap().as_deref(), Some(&old[..]), "legacy decode");

        let mut round = 0u64;
        while v.tract_blocks_reaped() < 32 {
            for k in 0..4u64 {
                v.put(&key(k), &val(round * 4 + k), 10_000 + round as i64).unwrap();
            }
            round += 1;
            assert!(round < 100_000, "reap never advanced");
        }
        assert_eq!(v.get(&key(7000)).unwrap().as_deref(), Some(&old[..]), "readable after migration");
    }
    let mut v = open(&a, &b, 99_000);
    assert_eq!(
        v.get(&key(7000)).unwrap().as_deref(),
        Some(&old[..]),
        "readable after cold resume"
    );
}

#[test]
fn a_batch_with_one_key_twice_keeps_one_leaf() {
    let (a, b) = pair(RING + 128);
    let mut v = open(&a, &b, 1_000);
    v.put(&key(1), b"first", 1_001).unwrap();
    v.put_batch(&[(&key(1), b"second"), (&key(2), b"two"), (&key(1), b"third")], 1_002).unwrap();
    assert_eq!(v.get(&key(1)).unwrap(), Some(b"third".to_vec()));
    assert_eq!(v.get(&key(2)).unwrap(), Some(b"two".to_vec()));
    let live = v.live_blocks();
    assert_eq!(live, 3, "two leaves and a node");
    drop(v);
    let v = open(&a, &b, 2_000);
    assert_eq!(v.live_blocks(), live, "as many as an opening finds");
}

#[test]
fn each_commit_is_one_generation() {
    let (a, b) = pair(RING + 512);
    let mut v = open(&a, &b, 1_000);
    for i in 0..6u64 {
        v.put(&key(i), &val(i), 1_001).unwrap();
        assert_eq!(v.generation(), Some(i + 1));
    }
    v.put(&key(3), &val(3), 1_002).unwrap();
    assert_eq!(v.generation(), Some(6), "what is there already is not committed again");
    v.put_batch(&[(&key(7), b"a"), (&key(8), b"b")], 1_003).unwrap();
    assert_eq!(v.generation(), Some(7));
    assert!(v.delete(&key(7), 1_004).unwrap());
    assert_eq!(v.generation(), Some(8));
}

#[test]
fn a_foundation_takes_what_the_ring_leaves() {
    let (a, b) = pair(RING + 96);
    let v = open(&a, &b, 1_000);
    assert_eq!(v.tract_blocks(), 96);
    assert_eq!(v.generation(), Some(0));
    assert_eq!(v.live_blocks(), 0);
}

#[test]
fn a_device_shorter_than_its_vault_is_refused() {
    let (a, b) = pair(RING + 128);
    {
        let mut v = open(&a, &b, 1_000);
        v.put(&key(1), b"alpha", 1_001).unwrap();
    }
    a.blocks.borrow_mut().truncate((RING + 100) as usize);
    b.blocks.borrow_mut().truncate((RING + 100) as usize);
    let again = Vault::open(Mirror::new(a.clone(), b.clone()), HOST_RING_LOG2, 2_000);
    assert!(matches!(again, Err(Error::Corrupt(_))));
}

#[test]
fn a_refused_value_leaves_the_vault_as_it_was() {
    let (a, b) = pair(RING + 64);
    let mut v = open(&a, &b, 1_000);
    v.put(&key(1), b"alpha", 1_001).unwrap();
    let huge = vec![7u8; 64 * 4096];
    assert!(matches!(v.put(&key(2), &huge, 1_002), Err(Error::TractFull)));
    assert_eq!(v.tract_blocks(), 64, "growing is the caller's");
    assert_eq!(v.get(&key(2)).unwrap(), None);
    assert_eq!(v.get(&key(1)).unwrap(), Some(b"alpha".to_vec()));
    v.grow(256, 1_003).unwrap();
    v.put(&key(2), &huge, 1_004).unwrap();
    assert_eq!(v.get(&key(2)).unwrap(), Some(huge));
}

#[test]
fn a_damaged_block_is_read_from_the_mirror() {
    let (a, b) = pair(RING + 128);
    let big: Vec<u8> = (0..12_000u32).map(|i| (i % 251) as u8).collect();
    let mut v = open(&a, &b, 1_000);
    v.put(&key(1), b"alpha", 1_001).unwrap();
    v.put(&key(2), &big, 1_002).unwrap();
    let sealed: Vec<usize> = (RING as usize..(RING + 128) as usize)
        .filter(|&i| sealed_hp(&a.blocks.borrow()[i]).is_some())
        .collect();
    assert!(sealed.len() >= 6);
    for &i in &sealed {
        a.blocks.borrow_mut()[i][2_000] ^= 0x40;
    }
    assert_eq!(v.get(&key(1)).unwrap(), Some(b"alpha".to_vec()));
    assert_eq!(v.get(&key(2)).unwrap(), Some(big.clone()));
    assert_eq!(v.get(&key(3)).unwrap(), None);
    // On both devices there is nothing to read instead.
    for &i in &sealed {
        b.blocks.borrow_mut()[i][2_000] ^= 0x40;
    }
    assert!(v.get(&key(1)).is_err());
}

#[test]
fn a_block_of_another_age_is_read_from_the_mirror() {
    let (a, b) = pair(RING + 128);
    let mut v = open(&a, &b, 1_000);
    v.put(&key(1), b"alpha", 1_001).unwrap();
    v.put(&key(2), b"bravo", 1_002).unwrap();
    // The first device holds, where the newest blocks are, sealed blocks that are not they.
    let sealed: Vec<usize> = (RING as usize..(RING + 128) as usize)
        .filter(|&i| sealed_hp(&a.blocks.borrow()[i]).is_some())
        .collect();
    let first = a.blocks.borrow()[sealed[0]];
    for &i in &sealed[1..] {
        a.blocks.borrow_mut()[i] = first;
    }
    assert_eq!(v.get(&key(1)).unwrap(), Some(b"alpha".to_vec()));
    assert_eq!(v.get(&key(2)).unwrap(), Some(b"bravo".to_vec()));
}

#[test]
fn a_small_ring_is_found_again() {
    for ring in [2u8, 3] {
        let (a, b) = pair((1 << ring) + 96);
        let n: u64 = 11;
        {
            let mut v = Vault::open(Mirror::new(a.clone(), b.clone()), ring, 1_000).unwrap();
            for i in 0..n {
                v.put(&key(i), &val(i), 1_001 + i as i64).unwrap();
            }
        }
        let mut v = Vault::open(Mirror::new(a.clone(), b.clone()), ring, 2_000).unwrap();
        assert!(v.generation().unwrap() >= n);
        assert_eq!(v.tract_blocks(), 96);
        for i in 0..n {
            assert_eq!(v.get(&key(i)).unwrap(), Some(val(i)));
        }
    }
}

#[test]
fn a_shorter_loser_grows_in_a_resync() {
    let (mut a, _) = pair(RING + 128);
    {
        let solo: Mirror<MemDev, MemDev> = Mirror::from_parts(Some(a.clone()), None).unwrap();
        let mut v = Vault::open(solo, HOST_RING_LOG2, 1_000).unwrap();
        v.put(&key(1), b"alpha", 1_001).unwrap();
    }
    let mut b = MemDev::new(RING);
    verified_replicate(&mut a, &mut b, HOST_RING_LOG2).unwrap();
    assert_eq!(b.block_count(), RING + 128);
    let solo: Mirror<MemDev, MemDev> = Mirror::from_parts(Some(b), None).unwrap();
    let mut v = Vault::open(solo, HOST_RING_LOG2, 2_000).unwrap();
    assert_eq!(v.get(&key(1)).unwrap(), Some(b"alpha".to_vec()));
}

#[test]
fn growing_extends_both_devices() {
    let (a, b) = pair(RING + 64);
    let mut v = open(&a, &b, 1_000);
    v.put(&key(1), b"alpha", 1_001).unwrap();
    v.grow(200, 1_002).unwrap();
    assert_eq!(a.block_count(), RING + 200);
    assert_eq!(b.block_count(), RING + 200);
    assert_eq!(v.get(&key(1)).unwrap(), Some(b"alpha".to_vec()));
}

#[test]
fn a_deleted_value_is_zeroed_on_both_devices() {
    let (a, b) = pair(RING + 128);
    let mut v = open(&a, &b, 1_000);
    let secret = b"only here".to_vec();
    v.put(&key(1), &secret, 1_001).unwrap();
    v.put(&key(2), b"bravo", 1_002).unwrap();
    let holds = |d: &MemDev| {
        d.blocks.borrow().iter().any(|x| x.windows(secret.len()).any(|w| w == &secret[..]))
    };
    assert!(holds(&a) && holds(&b));
    assert!(v.delete(&key(1), 1_003).unwrap());
    assert!(!holds(&a) && !holds(&b));
}

#[test]
fn the_live_set_is_what_the_index_leads_to() {
    let (a, b) = pair(RING + 128);
    let mut v = open(&a, &b, 1_000);
    assert_eq!(v.live_blocks(), 0);
    // Leaf; then leaf, leaf and the node that parts them.
    v.put(&key(1), b"alpha", 1_001).unwrap();
    assert_eq!(v.live_blocks(), 1);
    v.put(&key(2), b"bravo", 1_002).unwrap();
    assert_eq!(v.live_blocks(), 3);
    // A leaf and a node take the places of others.
    v.put(&key(2), b"charlie", 1_003).unwrap();
    assert_eq!(v.live_blocks(), 3);
    assert_eq!(v.generation(), Some(3));
    drop(v);
    let v = open(&a, &b, 2_000);
    assert_eq!(v.live_blocks(), 3);
}

#[test]
fn a_batch_with_a_key_twice_leaves_one_leaf() {
    let (a, b) = pair(RING + 128);
    let mut v = open(&a, &b, 1_000);
    let k = key(1);
    v.put_batch(&[(&k, b"alpha".as_slice()), (&k, b"bravo".as_slice())], 1_001).unwrap();
    assert_eq!(v.live_blocks(), 1);
    assert_eq!(v.generation(), Some(1));
    assert_eq!(v.get(&k).unwrap(), Some(b"bravo".to_vec()));
}
