//! A deleted key must not outlive its deletion as a pointer into a slot that is used again.

use std::cell::RefCell;
use std::rc::Rc;

use manifestus::{Block, BlockDev, Error, Mirror, Result, Vault, BLOCK, HOST_RING_LOG2};

/// A device in memory. Clones share the blocks, so a clone reopens what was written.
#[derive(Clone)]
struct MemDev {
    blocks: Rc<RefCell<Vec<Block>>>,
}

impl MemDev {
    fn new(n: u64) -> Self {
        MemDev { blocks: Rc::new(RefCell::new(vec![[0u8; BLOCK]; n as usize])) }
    }
}

impl BlockDev for MemDev {
    fn block_count(&self) -> u64 {
        self.blocks.borrow().len() as u64
    }

    fn read(&mut self, lba: u64, buf: &mut Block) -> Result<()> {
        match self.blocks.borrow().get(lba as usize) {
            Some(b) => {
                *buf = *b;
                Ok(())
            }
            None => Err(Error::Bounds(lba)),
        }
    }

    fn write(&mut self, lba: u64, buf: &Block) -> Result<()> {
        match self.blocks.borrow_mut().get_mut(lba as usize) {
            Some(b) => {
                *b = *buf;
                Ok(())
            }
            None => Err(Error::Bounds(lba)),
        }
    }

    fn flush(&mut self) -> Result<()> {
        Ok(())
    }

    fn grow(&mut self, new_blocks: u64) -> Result<()> {
        let mut blocks = self.blocks.borrow_mut();
        if new_blocks < blocks.len() as u64 {
            return Err(Error::Corrupt("grow cannot shrink".to_string()));
        }
        blocks.resize(new_blocks as usize, [0u8; BLOCK]);
        Ok(())
    }
}

const RING: u64 = 1 << HOST_RING_LOG2;
const TRACT: u64 = 128;

fn key(name: &[u8]) -> [u8; 32] {
    *blake3::hash(name).as_bytes()
}

#[test]
fn deleted_key_pointer_survives_slot_reuse() {
    let a = MemDev::new(RING + TRACT);
    let b = MemDev::new(RING + TRACT);
    let victim = key(b"victim");
    let churn = key(b"churn");
    let legacy = key(b"legacy");

    {
        let mut v =
            Vault::open(Mirror::new(a.clone(), b.clone()), HOST_RING_LOG2, 0).unwrap();

        v.put(&victim, &[0xAAu8; 700], 1).unwrap();
        v.put_legacy_direct_for_tests(&legacy, &[0xBBu8; 9000], 2).unwrap();

        assert!(v.delete(&victim, 3).unwrap());

        let start = v.tract_blocks_plowed();
        let mut now = 4i64;
        let mut i = 0u64;
        while v.tract_blocks_plowed() < start + 2 * TRACT {
            let val = vec![(i % 251) as u8; 600 + (i % 5) as usize * 100];
            v.put(&churn, &val, now).unwrap();
            now += 1;
            i += 1;
        }

        match v.get(&victim) {
            Ok(None) => {}
            Ok(Some(_)) => panic!("deleted key resurrected"),
            Err(Error::Seal) => panic!("tombstone pointer dangles into a reused slot"),
            Err(e) => panic!("unexpected error on deleted-key get: {e:?}"),
        }

        assert!(v.get(&churn).unwrap().is_some());
        assert_eq!(v.get(&legacy).unwrap(), Some(vec![0xBBu8; 9000]));
    }

    let mut v = match Vault::open(Mirror::new(a, b), HOST_RING_LOG2, 100_000) {
        Ok(v) => v,
        Err(e) => panic!("reopen after delete + lap failed ({e:?})"),
    };
    assert_eq!(v.get(&victim).unwrap(), None);
    assert!(v.get(&churn).unwrap().is_some());
    assert_eq!(v.get(&legacy).unwrap(), Some(vec![0xBBu8; 9000]));
}
