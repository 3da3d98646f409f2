//! Mirrors: what a write leaves on two devices, and what the failure of one of them does.

use std::cell::RefCell;
use std::rc::Rc;

use manifestus::{zero_block, Block, BlockDev, Error, Mirror, Result, BLOCK};

/// A device in memory. Clones share the blocks, so a clone reopens what was written.
#[derive(Clone)]
struct MemDev {
    blocks: Rc<RefCell<Vec<Block>>>,
}

impl MemDev {
    fn new(n: u64) -> Self {
        MemDev { blocks: Rc::new(RefCell::new(vec![[0u8; BLOCK]; n as usize])) }
    }
}

impl BlockDev for MemDev {
    fn block_count(&self) -> u64 {
        self.blocks.borrow().len() as u64
    }

    fn read(&mut self, lba: u64, buf: &mut Block) -> Result<()> {
        match self.blocks.borrow().get(lba as usize) {
            Some(b) => {
                *buf = *b;
                Ok(())
            }
            None => Err(Error::Bounds(lba)),
        }
    }

    fn write(&mut self, lba: u64, buf: &Block) -> Result<()> {
        match self.blocks.borrow_mut().get_mut(lba as usize) {
            Some(b) => {
                *b = *buf;
                Ok(())
            }
            None => Err(Error::Bounds(lba)),
        }
    }

    fn flush(&mut self) -> Result<()> {
        Ok(())
    }

    fn grow(&mut self, new_blocks: u64) -> Result<()> {
        let mut blocks = self.blocks.borrow_mut();
        if new_blocks < blocks.len() as u64 {
            return Err(Error::Corrupt("grow cannot shrink".to_string()));
        }
        blocks.resize(new_blocks as usize, [0u8; BLOCK]);
        Ok(())
    }
}

fn pattern(lba: u64, seed: u8) -> Block {
    let mut b = [0u8; BLOCK];
    let v = (lba as u8) ^ seed;
    b.fill(v);
    b
}

#[test]
fn mirror_writes_both_devices() {
    let a = MemDev::new(16);
    let b = MemDev::new(16);
    let mut m = Mirror::new(a.clone(), b.clone());

    m.write_verified(5, &pattern(5, 0x33)).unwrap();
    assert!(!m.degraded());
    drop(m);

    for d in [&a, &b] {
        assert_eq!(d.blocks.borrow()[5], pattern(5, 0x33));
    }
}

/// Forwards to a device, and fails writes after a fuse burns.
struct Flaky {
    inner: MemDev,
    writes_left: usize,
}

impl BlockDev for Flaky {
    fn block_count(&self) -> u64 {
        self.inner.block_count()
    }
    fn read(&mut self, lba: u64, buf: &mut Block) -> Result<()> {
        self.inner.read(lba, buf)
    }
    fn write(&mut self, lba: u64, buf: &Block) -> Result<()> {
        if self.writes_left == 0 {
            return Err(Error::Verify(lba));
        }
        self.writes_left -= 1;
        self.inner.write(lba, buf)
    }
    fn flush(&mut self) -> Result<()> {
        self.inner.flush()
    }
    fn grow(&mut self, new_blocks: u64) -> Result<()> {
        self.inner.grow(new_blocks)
    }
}

#[test]
fn mirror_secondary_failure_degrades_but_succeeds() {
    let a = MemDev::new(16);
    let b = Flaky { inner: MemDev::new(16), writes_left: 1 };
    let mut m: Mirror<MemDev, Flaky> = Mirror::new(a, b);

    m.write_verified(0, &pattern(0, 0x44)).unwrap();
    assert!(!m.degraded());
    m.write_verified(1, &pattern(1, 0x44)).unwrap();
    assert!(m.degraded());
    assert!(!m.has_b());
    m.write_verified(2, &pattern(2, 0x44)).unwrap();

    let mut out = zero_block();
    m.read(2, &mut out).unwrap();
    assert_eq!(out, pattern(2, 0x44));
}

#[test]
fn mirror_primary_failure_is_hard_error_and_secondary_untouched() {
    let a = Flaky { inner: MemDev::new(16), writes_left: 0 };
    let b = MemDev::new(16);
    let mut m: Mirror<Flaky, MemDev> = Mirror::new(a, b.clone());

    assert!(m.write_verified(3, &pattern(3, 0x55)).is_err());

    assert_eq!(b.blocks.borrow()[3], zero_block());
}

#[test]
fn mirror_solo_b_works() {
    let b = MemDev::new(8);
    let mut m: Mirror<MemDev, MemDev> = Mirror::from_parts(None, Some(b)).unwrap();
    assert!(m.degraded(), "missing mirror starts degraded");
    m.write_verified(1, &pattern(1, 0x66)).unwrap();
    let mut out = zero_block();
    m.read(1, &mut out).unwrap();
    assert_eq!(out, pattern(1, 0x66));
}

#[test]
fn mirror_without_devices_is_refused() {
    let r: Result<Mirror<MemDev, MemDev>> = Mirror::from_parts(None, None);
    assert!(r.is_err());
}

#[test]
fn mirror_batch_lands_on_both_devices() {
    let a = MemDev::new(16);
    let b = MemDev::new(16);
    let mut m = Mirror::new(a.clone(), b.clone());
    let x = pattern(1, 0x10);
    let y = pattern(2, 0x20);
    m.write_verified_batch(&[(1, &x), (2, &y)]).unwrap();
    for d in [&a, &b] {
        assert_eq!(d.blocks.borrow()[1], x);
        assert_eq!(d.blocks.borrow()[2], y);
    }
    assert!(m.write_verified_batch(&[(99, &x)]).is_err());
}

/// Stores something else than it was given, once.
struct Liar {
    inner: MemDev,
    lies: usize,
}

impl BlockDev for Liar {
    fn block_count(&self) -> u64 {
        self.inner.block_count()
    }
    fn read(&mut self, lba: u64, buf: &mut Block) -> Result<()> {
        self.inner.read(lba, buf)
    }
    fn write(&mut self, lba: u64, buf: &Block) -> Result<()> {
        let mut b = *buf;
        if self.lies > 0 {
            self.lies -= 1;
            b[17] ^= 1;
        }
        self.inner.write(lba, &b)
    }
    fn flush(&mut self) -> Result<()> {
        self.inner.flush()
    }
    fn grow(&mut self, new_blocks: u64) -> Result<()> {
        self.inner.grow(new_blocks)
    }
}

#[test]
fn wrong_bytes_are_written_again_and_then_refused() {
    let mut once: Mirror<Liar, MemDev> =
        Mirror::from_parts(Some(Liar { inner: MemDev::new(4), lies: 1 }), None).unwrap();
    once.write_verified(2, &pattern(2, 0x70)).unwrap();
    let mut out = zero_block();
    once.read(2, &mut out).unwrap();
    assert_eq!(out, pattern(2, 0x70));

    let mut always: Mirror<Liar, MemDev> =
        Mirror::from_parts(Some(Liar { inner: MemDev::new(4), lies: 9 }), None).unwrap();
    assert!(matches!(always.write_verified(2, &pattern(2, 0x70)), Err(Error::Verify(2))));
}

/// Refuses a number of writes, and then stores what it is given.
struct Stubborn {
    inner: MemDev,
    refusals: usize,
}

impl BlockDev for Stubborn {
    fn block_count(&self) -> u64 {
        self.inner.block_count()
    }
    fn read(&mut self, lba: u64, buf: &mut Block) -> Result<()> {
        self.inner.read(lba, buf)
    }
    fn write(&mut self, lba: u64, buf: &Block) -> Result<()> {
        if self.refusals > 0 {
            self.refusals -= 1;
            return Err(Error::Verify(lba));
        }
        self.inner.write(lba, buf)
    }
    fn flush(&mut self) -> Result<()> {
        self.inner.flush()
    }
    fn grow(&mut self, _new_blocks: u64) -> Result<()> {
        Err(Error::Corrupt("fixed size".to_string()))
    }
}

#[test]
fn a_failed_write_is_tried_once_more() {
    let mut once: Mirror<Stubborn, MemDev> =
        Mirror::from_parts(Some(Stubborn { inner: MemDev::new(4), refusals: 1 }), None).unwrap();
    once.write_verified(2, &pattern(2, 0x71)).unwrap();
    let mut out = zero_block();
    once.read(2, &mut out).unwrap();
    assert_eq!(out, pattern(2, 0x71));

    let mut twice: Mirror<Stubborn, MemDev> =
        Mirror::from_parts(Some(Stubborn { inner: MemDev::new(4), refusals: 2 }), None).unwrap();
    assert!(twice.write_verified(2, &pattern(2, 0x71)).is_err());

    let mut second: Mirror<MemDev, Stubborn> =
        Mirror::new(MemDev::new(4), Stubborn { inner: MemDev::new(4), refusals: 1 });
    second.write_verified(1, &pattern(1, 0x72)).unwrap();
    assert!(second.has_b());

    let mut batch: Mirror<Stubborn, MemDev> =
        Mirror::from_parts(Some(Stubborn { inner: MemDev::new(4), refusals: 1 }), None).unwrap();
    let x = pattern(0, 0x73);
    let y = pattern(3, 0x74);
    batch.write_verified_batch(&[(0, &x), (3, &y)]).unwrap();
    batch.read(0, &mut out).unwrap();
    assert_eq!(out, x);
    batch.read(3, &mut out).unwrap();
    assert_eq!(out, y);
}

#[test]
fn a_second_device_that_cannot_grow_is_dropped() {
    let mut m: Mirror<MemDev, Stubborn> =
        Mirror::new(MemDev::new(4), Stubborn { inner: MemDev::new(4), refusals: 0 });
    m.grow(8).unwrap();
    assert_eq!(m.block_count(), 8);
    assert!(m.degraded());
    assert!(!m.has_b());

    let mut stuck: Mirror<Stubborn, MemDev> =
        Mirror::new(Stubborn { inner: MemDev::new(4), refusals: 0 }, MemDev::new(4));
    assert!(matches!(stuck.grow(8), Err(Error::Corrupt(s)) if s == "fixed size"));
    assert_eq!(stuck.block_count(), 4);
    assert!(stuck.has_b());
}
