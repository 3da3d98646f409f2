//! Error words, numbers as text, runs, wire values, the live set and mirror events.

use std::sync::{Arc, Mutex};

use manifestus::extent::{compress_runs, expand_runs};
use manifestus::text::{
    dec_text, left_text, push_dec_wide, push_hex_byte, push_signed, push_spaces, right_text,
};
use manifestus::wire::{as_u64, read_item, Item};
use manifestus::{
    Block, BlockDev, Delta, Error, EventSink, LiveSet, Mirror, Result, StorageEvent, BLOCK,
};
use vsf::{EtType, VsfType};

#[test]
fn each_error_has_its_words() {
    let io = std::io::Error::new(std::io::ErrorKind::Other, "disk on fire");
    let said = io.to_string();
    assert_eq!(Error::from(io).words(&said), "I/O: disk on fire");
    assert_eq!(Error::BadMagic.words(""), "not a custodes file (bad magic)");
    assert_eq!(Error::Seal.words(""), "seal verification failed");
    assert_eq!(Error::Corrupt("why".to_string()).words(""), "corrupt: why");
    assert_eq!(Error::Verify(7).words(""), "write verification failed at block 7");
    assert_eq!(Error::Bounds(4096).words(""), "block 4096 out of device bounds");
    assert_eq!(Error::Fenced(12).words(""), "rollback fence reached at plow 12");
    assert_eq!(Error::TractFull.words(""), "tract full — no dead space in a full lap");
    assert_eq!(Error::UnsupportedVersion(3).words(""), "unsupported format version 3");
}

#[test]
fn numbers_as_text() {
    assert_eq!(dec_text(0), "0");
    assert_eq!(dec_text(u64::MAX), "18446744073709551615");
    let mut s = String::new();
    push_signed(&mut s, i64::MIN);
    push_spaces(&mut s, 2);
    push_hex_byte(&mut s, 0x0f);
    push_dec_wide(&mut s, u128::MAX);
    assert_eq!(s, "-9223372036854775808  0f340282366920938463463374607431768211455");
    assert_eq!(right_text("ab", 4), "  ab");
    assert_eq!(left_text("ab", 4), "ab  ");
    assert_eq!(right_text("abcde", 4), "abcde");
}

#[test]
fn runs_spell_positions_and_back() {
    let ps: Vec<u64> = vec![5, 6, 7, 0, 1, 9];
    let runs = compress_runs(&ps);
    assert_eq!(runs, vec![(5, 3), (0, 2), (9, 1)]);
    assert_eq!(expand_runs(&runs, 6 * 3927).unwrap(), ps);
    assert_eq!(expand_runs(&Vec::new(), 0).unwrap(), Vec::<u64>::new());
    match expand_runs(&runs, 3927) {
        Err(Error::Corrupt(s)) => assert_eq!(s, "extent run total 6 != furrow count 1"),
        _ => panic!("six furrows are too many"),
    }
    match expand_runs(&vec![(u64::MAX, 2)], 2 * 3927) {
        Err(Error::Corrupt(s)) => assert_eq!(s, "extent run beyond the address space"),
        _ => panic!("there is no such position"),
    }
}

fn read(v: VsfType) -> (Item, usize, usize) {
    let bytes = v.flatten();
    let (item, end) = read_item(&bytes, 0).unwrap();
    (item, end, bytes.len())
}

#[test]
fn wire_values_read_as_what_they_are() {
    let (item, end, len) = read(VsfType::hp(vec![9u8; 32]));
    assert!(matches!(item, Item::Hp(h) if h == vec![9u8; 32]));
    assert_eq!(end, len);

    let (item, end, len) = read(VsfType::d("spine".to_string()));
    assert!(matches!(item, Item::Name(s) if s == "spine"));
    assert_eq!(end, len);

    let (item, end, len) = read(VsfType::u6(0x1_0000_0000));
    assert_eq!(as_u64(&item), Some(0x1_0000_0000));
    assert_eq!(end, len);

    for n in [0usize, 1, 255, 256, 65_536] {
        let (item, end, len) = read(VsfType::u(n, false));
        assert_eq!(as_u64(&item), Some(n as u64));
        assert_eq!(end, len);
    }

    let (item, end, len) = read(VsfType::v(b'x', vec![1, 2, 3]));
    assert!(matches!(item, Item::Wrap(b'x', b) if b == vec![1, 2, 3]));
    assert_eq!(end, len);

    let (item, end, len) = read(VsfType::e(EtType::e6(-5)));
    assert!(matches!(item, Item::Time(-5)));
    assert_eq!(end, len);

    assert_eq!(as_u64(&Item::Other), None);
    assert!(read_item(&[], 0).is_err());
    assert!(read_item(&[0x70, 0x33, 0x01], 0).is_err(), "no depth and no shape");
}

#[test]
fn a_delta_brings_the_live_set_up_to_date() {
    let mut live = LiveSet::default();
    assert!(live.is_empty());
    live.apply(Delta { added: vec![(1, [1; 32]), (2, [2; 32])], removed: Vec::new() });
    assert_eq!(live.len(), 2);
    live.apply(Delta { added: vec![(3, [3; 32])], removed: vec![(1, [1; 32]), (2, [9; 32])] });
    assert_eq!(live.len(), 2, "only what is still there as it was given up goes");
}

/// A device of one block that refuses writes or alters them, as often as it is told to.
#[test]
fn values_of_kinds_that_blocks_do_not_write_are_stepped_over() {
    // A vector of three bytes, and another value behind it.
    let mut bytes = vec![b't', b'n', b'3', 3, b'u', b'3', 7, 8, 9];
    let end = bytes.len();
    bytes.extend_from_slice(&VsfType::u(5, false).flatten());
    match read_item(&bytes, 0) {
        Ok((Item::Other, at)) => assert_eq!(at, end),
        _ => panic!("a vector of bytes is read"),
    }
    let (item, _) = read_item(&bytes, end).unwrap();
    assert_eq!(as_u64(&item), Some(5));

    // A packed tensor of four bits, and a place on the globe.
    assert!(matches!(read_item(&[b'p', b'3', 1, 1, b'3', 4, 0xa0], 0), Ok((Item::Other, 7))));
    let place = [b'w', b'6', 1, 2, 3, 4, 5, 6, 7, 8];
    assert!(matches!(read_item(&place, 0), Ok((Item::Other, 10))));

    // Shapes of several dimensions are refused, and so are lengths beyond a block.
    assert!(read_item(&[b't', b'3', 1, b'u', b'3', b'3', 1, 9], 0).is_err());
    assert!(read_item(&[b't', b'n', b'5', 0, 1, 0, 0, b'u', b'3'], 0).is_err());
}

struct Moody {
    block: Block,
    refuse: bool,
    alter: u32,
}

impl Moody {
    fn calm() -> Self {
        Moody { block: [0u8; BLOCK], refuse: false, alter: 0 }
    }
}

impl BlockDev for Moody {
    fn block_count(&self) -> u64 {
        1
    }

    fn read(&mut self, lba: u64, buf: &mut Block) -> Result<()> {
        if lba > 0 {
            return Err(Error::Bounds(lba));
        }
        *buf = self.block;
        Ok(())
    }

    fn write(&mut self, lba: u64, buf: &Block) -> Result<()> {
        if lba > 0 || self.refuse {
            return Err(Error::Bounds(lba));
        }
        self.block = *buf;
        if self.alter > 0 {
            self.alter -= 1;
            self.block[0] ^= 1;
        }
        Ok(())
    }

    fn flush(&mut self) -> Result<()> {
        Ok(())
    }

    fn grow(&mut self, _new_blocks: u64) -> Result<()> {
        Err(Error::Corrupt("device cannot grow".to_string()))
    }
}

struct Notes(Arc<Mutex<Vec<StorageEvent>>>);

impl EventSink for Notes {
    fn emit(&mut self, event: StorageEvent) {
        self.0.lock().unwrap().push(event);
    }
}

#[test]
fn what_a_mirror_survives_reaches_the_sink() {
    let seen = Arc::new(Mutex::new(Vec::new()));
    let flaky = Moody { alter: 1, ..Moody::calm() };
    let dead = Moody { refuse: true, ..Moody::calm() };
    let mut m = Mirror::new(flaky, dead).with_events(Box::new(Notes(seen.clone())));
    assert!(m.has_a() && m.has_b());
    m.write_verified(0, &[7u8; BLOCK]).unwrap();
    assert_eq!(*seen.lock().unwrap(), vec![StorageEvent::MirrorDegraded]);
    m.emit(StorageEvent::VerifyRetried { lba: 0 });
    assert_eq!(seen.lock().unwrap().len(), 2);
    assert!(m.degraded());
    assert!(m.has_a() && !m.has_b());
}

#[test]
fn a_device_of_fixed_size_does_not_grow() {
    let mut m: Mirror<Moody, Moody> =
        Mirror::from_parts(Some(Moody::calm()), None).unwrap();
    match m.grow(2) {
        Err(Error::Corrupt(s)) => assert_eq!(s, "device cannot grow"),
        _ => panic!("it has one block"),
    }
    assert_eq!(m.block_count(), 1);
}
