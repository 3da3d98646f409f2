//! The tract: append placement, contiguity, wrap, fence, full, clean accounting, zero-delete.

use std::cell::RefCell;
use std::rc::Rc;

use manifestus::ring::MAGIC;
use manifestus::{sealed_hp, zero_block, Block, BlockDev, Error, Mirror, Result, Tract, BLOCK};
use vsf::types::VsfType;

/// A device in memory. Clones share the blocks, so a clone reopens what was written.
#[derive(Clone)]
struct MemDev {
    blocks: Rc<RefCell<Vec<Block>>>,
}

impl MemDev {
    fn new(n: u64) -> Self {
        MemDev { blocks: Rc::new(RefCell::new(vec![[0u8; BLOCK]; n as usize])) }
    }
}

impl BlockDev for MemDev {
    fn block_count(&self) -> u64 {
        self.blocks.borrow().len() as u64
    }

    fn read(&mut self, lba: u64, buf: &mut Block) -> Result<()> {
        match self.blocks.borrow().get(lba as usize) {
            Some(b) => {
                *buf = *b;
                Ok(())
            }
            None => Err(Error::Bounds(lba)),
        }
    }

    fn write(&mut self, lba: u64, buf: &Block) -> Result<()> {
        match self.blocks.borrow_mut().get_mut(lba as usize) {
            Some(b) => {
                *b = *buf;
                Ok(())
            }
            None => Err(Error::Bounds(lba)),
        }
    }

    fn flush(&mut self) -> Result<()> {
        Ok(())
    }

    fn grow(&mut self, new_blocks: u64) -> Result<()> {
        let mut blocks = self.blocks.borrow_mut();
        if new_blocks < blocks.len() as u64 {
            return Err(Error::Corrupt("grow cannot shrink".to_string()));
        }
        blocks.resize(new_blocks as usize, [0u8; BLOCK]);
        Ok(())
    }
}

/// Minimal sealed block: a magic, a hash, a tag and zeros.
fn seal(tag: u64) -> Block {
    let mut buf = zero_block();
    buf[..4].copy_from_slice(&MAGIC);
    let hp0 = VsfType::hp(vec![0u8; 32]).flatten();
    let hp_len = hp0.len();
    buf[4..4 + hp_len].copy_from_slice(&hp0);
    buf[4 + hp_len] = b'>';
    let body = 4 + hp_len + 1;
    buf[body..body + 8].copy_from_slice(&tag.to_le_bytes());
    let h = blake3::hash(&buf[body..]);
    let hp = VsfType::hp(h.as_bytes().to_vec()).flatten();
    buf[4..4 + hp_len].copy_from_slice(&hp);
    buf
}

fn mk(blocks: u64) -> Mirror<MemDev, MemDev> {
    Mirror::new(MemDev::new(blocks), MemDev::new(blocks))
}

fn tract(len: u64) -> Tract {
    Tract { base: 0, len, plow: 0, reap: 0, fence_limit: None }
}

#[test]
fn sealed_hp_accepts_and_rejects() {
    let b = seal(7);
    assert!(sealed_hp(&b).is_some());
    let mut bad = b;
    bad[600] ^= 1;
    assert!(sealed_hp(&bad).is_none());
    assert!(sealed_hp(&zero_block()).is_none());
}

#[test]
fn sealed_hp_is_the_hash_of_the_body() {
    let b = seal(7);
    assert_eq!(sealed_hp(&b).unwrap(), *blake3::hash(&b[41..]).as_bytes());
}

#[test]
fn appends_are_sequential_and_contiguous() {
    let mut m = mk(8);
    let mut t = tract(8);
    let placed = t.append(&mut m, &[seal(1), seal(2), seal(3)]).unwrap();
    assert_eq!(placed, vec![0, 1, 2]);
    assert_eq!(t.plow, 3);
    assert_eq!(t.position(), 3);
    assert_eq!(t.clean_blocks(), 5);
    let mut buf = zero_block();
    t.read(&mut m, 1, &mut buf).unwrap();
    assert_eq!(buf, seal(2));
}

#[test]
fn append_wraps_once_reap_has_advanced() {
    let mut m = mk(8);
    let mut t = tract(8);
    t.append(&mut m, &[seal(1), seal(2), seal(3), seal(4), seal(5), seal(6)]).unwrap();
    t.reap = 4;
    assert_eq!(t.clean_blocks(), 6);
    let placed = t.append(&mut m, &[seal(7), seal(8), seal(9)]).unwrap();
    assert_eq!(placed, vec![6, 7, 0], "run split exactly once at the ring boundary");
    assert_eq!(t.position(), 1);
}

#[test]
fn fence_refuses_before_writing() {
    let mut m = mk(8);
    let mut t = tract(8);
    t.fence_limit = Some(2);
    t.append(&mut m, &[seal(1), seal(2)]).unwrap();
    let err = t.append(&mut m, &[seal(3)]);
    assert!(matches!(err, Err(Error::Fenced(2))));
    assert_eq!(t.plow, 2);
    let mut buf = zero_block();
    t.read(&mut m, 2, &mut buf).unwrap();
    assert_eq!(buf, zero_block());
}

#[test]
fn full_tract_refuses_before_writing() {
    let mut m = mk(8);
    let mut t = tract(8);
    let blocks: Vec<Block> = (0..8).map(seal).collect();
    t.append(&mut m, &blocks).unwrap();
    assert_eq!(t.clean_blocks(), 0);
    assert!(matches!(t.append(&mut m, &[seal(9)]), Err(Error::TractFull)));
    assert_eq!(t.plow, 8, "refusal is side-effect free");
}

#[test]
fn zero_delete_zeroes_both_mirrors() {
    let mut m = mk(8);
    let mut t = tract(8);
    t.append(&mut m, &[seal(1)]).unwrap();
    t.zero_delete(&mut m, 0).unwrap();
    let (a, b) = m.devices();
    let mut buf = zero_block();
    a.unwrap().read(0, &mut buf).unwrap();
    assert_eq!(buf, zero_block());
    b.unwrap().read(0, &mut buf).unwrap();
    assert_eq!(buf, zero_block());
}

#[test]
fn originals_survive_until_reap_retires_them() {
    let mut m = mk(8);
    let mut t = tract(8);
    t.append(&mut m, &[seal(1), seal(2), seal(3)]).unwrap();
    t.append(&mut m, &[seal(4), seal(5)]).unwrap();
    for (lba, tag) in [(0u64, 1u64), (1, 2), (2, 3), (3, 4), (4, 5)] {
        let mut buf = zero_block();
        t.read(&mut m, lba, &mut buf).unwrap();
        assert_eq!(buf, seal(tag), "block {lba} intact");
    }
}

#[test]
fn reads_past_the_tract_are_refused() {
    let mut m = mk(16);
    let t = tract(8);
    let mut buf = zero_block();
    assert!(matches!(t.read(&mut m, 8, &mut buf), Err(Error::Bounds(8))));
    assert_eq!(t.lap(), 0);
}
