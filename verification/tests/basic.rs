//! The record store, under no clean shutdown.

use manifestus::record::{Record, FLAG_EXPIRES, FLAG_TOMBSTONE};
use manifestus::store::{file_header, Pending, Recovery, Store};
use manifestus::{Error, Result};

const ANCHOR: [u8; 32] = [0xABu8; 32];

/// A store and the bytes of its file.
struct FileStore {
    bytes: Vec<u8>,
    store: Store,
}

impl FileStore {
    fn open_or_create(mut bytes: Vec<u8>, key: &[u8; 32]) -> Result<Self> {
        let (store, recovery) = Store::open_or_create(&bytes, key)?;
        match recovery {
            Recovery::Sound => {}
            Recovery::Cut(n) => bytes.truncate(n as usize),
            Recovery::Begin => bytes = file_header(),
        }
        Ok(FileStore { bytes, store })
    }

    fn append(&mut self, p: Pending) {
        assert_eq!(p.offset, self.bytes.len() as u64);
        self.bytes.extend_from_slice(&p.bytes);
        self.store.landed(p);
    }

    fn put(
        &mut self,
        k: [u8; 32],
        value: &[u8],
        tag: u8,
        expires: Option<i64>,
        now: i64,
    ) -> Result<()> {
        let p = self.store.put(k, value, tag, expires, now)?;
        self.append(p);
        Ok(())
    }

    fn delete(&mut self, k: &[u8; 32], now: i64) -> Result<()> {
        let p = self.store.delete(k, now)?;
        self.append(p);
        Ok(())
    }

    fn get(&self, k: &[u8; 32]) -> Result<Option<Vec<u8>>> {
        match self.store.get(k) {
            None => Ok(None),
            Some(m) => {
                let from = m.offset as usize;
                let v = self.store.read_value(&self.bytes[from..from + m.size as usize])?;
                Ok(Some(v))
            }
        }
    }
}

fn fresh() -> FileStore {
    FileStore::open_or_create(Vec::new(), &ANCHOR).unwrap()
}

#[test]
fn put_get_roundtrip() {
    let mut s = fresh();
    s.put([1u8; 32], b"hello", 7, None, 100).unwrap();
    assert_eq!(s.get(&[1u8; 32]).unwrap(), Some(b"hello".to_vec()));
}

#[test]
fn missing_key_returns_none() {
    let s = fresh();
    assert_eq!(s.get(&[99u8; 32]).unwrap(), None);
}

#[test]
fn persistence_across_open() {
    let mut s = fresh();
    s.put([2u8; 32], b"persistent", 0, None, 0).unwrap();
    let s = FileStore::open_or_create(s.bytes, &ANCHOR).unwrap();
    assert_eq!(s.get(&[2u8; 32]).unwrap(), Some(b"persistent".to_vec()));
}

#[test]
fn overwrite_returns_latest_value() {
    let mut s = fresh();
    s.put([3u8; 32], b"first", 0, None, 0).unwrap();
    s.put([3u8; 32], b"second", 0, None, 0).unwrap();
    assert_eq!(s.get(&[3u8; 32]).unwrap(), Some(b"second".to_vec()));
}

#[test]
fn overwrite_accumulates_waste() {
    let mut s = fresh();
    s.put([3u8; 32], b"first", 0, None, 0).unwrap();
    assert_eq!(s.store.wasted_bytes(), 0);
    s.put([3u8; 32], b"second", 0, None, 0).unwrap();
    assert!(s.store.wasted_bytes() > 0, "overwriting should produce waste");
    assert_eq!(s.store.wasted_bytes(), 104 + 5);
}

#[test]
fn delete_makes_key_invisible() {
    let mut s = fresh();
    s.put([4u8; 32], b"value", 0, None, 0).unwrap();
    s.delete(&[4u8; 32], 0).unwrap();
    assert_eq!(s.get(&[4u8; 32]).unwrap(), None);
    assert_eq!(s.store.iter().iter().count(), 0);
}

#[test]
fn delete_persists_across_open() {
    let mut s = fresh();
    s.put([5u8; 32], b"value", 0, None, 0).unwrap();
    s.delete(&[5u8; 32], 0).unwrap();
    let s = FileStore::open_or_create(s.bytes, &ANCHOR).unwrap();
    assert_eq!(s.get(&[5u8; 32]).unwrap(), None);
}

#[test]
fn resurrect_after_delete() {
    let mut s = fresh();
    s.put([6u8; 32], b"original", 0, None, 0).unwrap();
    s.delete(&[6u8; 32], 0).unwrap();
    s.put([6u8; 32], b"reborn", 0, None, 0).unwrap();
    assert_eq!(s.get(&[6u8; 32]).unwrap(), Some(b"reborn".to_vec()));
}

#[test]
fn corrupt_tail_silently_truncated() {
    let mut s = fresh();
    s.put([7u8; 32], b"alpha", 0, None, 0).unwrap();
    s.put([8u8; 32], b"beta", 0, None, 0).unwrap();
    let mut bytes = s.bytes;
    let good = bytes.len();
    bytes.extend_from_slice(&[0xFFu8; 200]);
    let (_, recovery) = Store::open_or_create(&bytes, &ANCHOR).unwrap();
    assert_eq!(recovery, Recovery::Cut(good as u64));
    let s = FileStore::open_or_create(bytes, &ANCHOR).unwrap();
    assert_eq!(s.get(&[7u8; 32]).unwrap(), Some(b"alpha".to_vec()));
    assert_eq!(s.get(&[8u8; 32]).unwrap(), Some(b"beta".to_vec()));
}

#[test]
fn truncated_mid_record_loses_only_that_record() {
    let mut s = fresh();
    s.put([10u8; 32], b"durable", 0, None, 0).unwrap();
    let after_first = s.store.file_size();
    s.put([11u8; 32], b"in-flight", 0, None, 0).unwrap();
    let mut bytes = s.bytes;
    bytes.truncate(after_first as usize + 50);
    let s = FileStore::open_or_create(bytes, &ANCHOR).unwrap();
    assert_eq!(s.get(&[10u8; 32]).unwrap(), Some(b"durable".to_vec()));
    assert_eq!(s.get(&[11u8; 32]).unwrap(), None, "second record should be gone");
    assert_eq!(s.store.file_size(), after_first, "file truncated to last valid record");
    assert_eq!(s.bytes.len() as u64, after_first);
}

#[test]
fn anchor_seq_monotonic() {
    let mut s = fresh();
    s.put([12u8; 32], b"a", 0, None, 0).unwrap();
    assert_eq!(s.store.anchor_seq(), 1);
    s.put([13u8; 32], b"b", 0, None, 0).unwrap();
    assert_eq!(s.store.anchor_seq(), 2);
    s.delete(&[12u8; 32], 0).unwrap();
    assert_eq!(s.store.anchor_seq(), 3);
}

#[test]
fn anchor_seq_persists_across_open() {
    let mut s = fresh();
    s.put([14u8; 32], b"x", 0, None, 0).unwrap();
    s.put([15u8; 32], b"y", 0, None, 0).unwrap();
    assert_eq!(s.store.anchor_seq(), 2);
    let mut s = FileStore::open_or_create(s.bytes, &ANCHOR).unwrap();
    assert_eq!(s.store.anchor_seq(), 2);
    s.put([16u8; 32], b"z", 0, None, 0).unwrap();
    assert_eq!(s.store.anchor_seq(), 3);
}

#[test]
fn iter_returns_live_entries() {
    let mut s = fresh();
    s.put([20u8; 32], b"v1", 0, None, 0).unwrap();
    s.put([21u8; 32], b"v2", 0, None, 0).unwrap();
    s.put([22u8; 32], b"v3", 0, None, 0).unwrap();
    s.delete(&[21u8; 32], 0).unwrap();
    let keys: Vec<[u8; 32]> = s.store.iter().iter().map(|(k, _)| *k).collect();
    assert_eq!(keys.len(), 2);
    assert!(keys.contains(&[20u8; 32]));
    assert!(keys.contains(&[22u8; 32]));
    assert!(!keys.contains(&[21u8; 32]));
    assert_eq!(s.store.len(), 2);
}

#[test]
fn wrong_anchor_key_truncates_everything() {
    let mut s = fresh();
    s.put([30u8; 32], b"data", 0, None, 0).unwrap();
    let other_key = [0xFFu8; 32];
    let s = FileStore::open_or_create(s.bytes, &other_key).unwrap();
    assert!(s.store.is_empty(), "wrong anchor key -> all records dropped");
}

#[test]
fn compact_keeps_live_drops_waste() {
    let mut s = fresh();
    s.put([40u8; 32], b"keep_v1", 0, None, 0).unwrap();
    s.put([40u8; 32], b"keep_v2", 0, None, 0).unwrap();
    s.put([41u8; 32], b"alive", 0, None, 0).unwrap();
    s.put([42u8; 32], b"doomed", 0, None, 0).unwrap();
    s.delete(&[42u8; 32], 0).unwrap();

    let pre_compact_size = s.store.file_size();
    assert!(s.store.wasted_bytes() > 0);

    let target = s.store.compact_to(&s.bytes).unwrap();

    let compacted = FileStore::open_or_create(target, &ANCHOR).unwrap();
    assert_eq!(compacted.get(&[40u8; 32]).unwrap(), Some(b"keep_v2".to_vec()));
    assert_eq!(compacted.get(&[41u8; 32]).unwrap(), Some(b"alive".to_vec()));
    assert_eq!(compacted.get(&[42u8; 32]).unwrap(), None);
    assert!(compacted.store.file_size() < pre_compact_size, "compaction shrinks the file");
    assert_eq!(compacted.store.wasted_bytes(), 0, "compacted file has no waste");
}

#[test]
fn compaction_goes_by_age() {
    let mut s = fresh();
    s.put([9u8; 32], b"oldest", 0, None, 0).unwrap();
    s.put([1u8; 32], b"middle", 0, None, 0).unwrap();
    s.put([5u8; 32], b"newest", 0, None, 0).unwrap();
    let out = s.store.compact_to(&s.bytes).unwrap();
    let mut at = 8;
    let mut seqs = Vec::new();
    while at < out.len() {
        let (rec, n) = Record::decode_at(&out, at, &ANCHOR).unwrap();
        seqs.push(rec.anchor_seq);
        at += n;
    }
    assert_eq!(seqs, vec![1, 2, 3]);
    assert!(s.store.compact_to(&s.bytes[..20]).is_err(), "records that are gone cannot be copied");
}

#[test]
fn empty_file_initializes_with_header() {
    let s = fresh();
    assert_eq!(s.store.file_size(), 8, "fresh file should be 8 bytes (header only)");
    assert!(s.store.is_empty());
    assert_eq!(s.bytes, b"PVDB\0\0\0\0".to_vec());
}

#[test]
fn large_value_roundtrip() {
    let mut s = fresh();
    let big: Vec<u8> = (0..100_000).map(|i| (i % 256) as u8).collect();
    s.put([50u8; 32], &big, 0, None, 0).unwrap();
    assert_eq!(s.get(&[50u8; 32]).unwrap(), Some(big));
}

#[test]
fn zero_length_value_roundtrip() {
    let mut s = fresh();
    s.put([60u8; 32], b"", 0, None, 0).unwrap();
    assert_eq!(s.get(&[60u8; 32]).unwrap(), Some(Vec::new()));
}

#[test]
fn foreign_files_are_refused() {
    assert!(matches!(
        Store::open_or_create(b"this is not a vault", &ANCHOR),
        Err(Error::BadMagic)
    ));
    assert!(matches!(
        Store::open_or_create(b"PVDB\x02\0\0\0", &ANCHOR),
        Err(Error::UnsupportedVersion(2))
    ));
    let (s, recovery) = Store::open_or_create(b"PVD", &ANCHOR).unwrap();
    assert!(s.is_empty());
    assert_eq!(recovery, Recovery::Begin);
}

#[test]
fn a_failed_write_spends_its_number_only() {
    let mut s = fresh();
    s.put([1u8; 32], b"one", 0, None, 0).unwrap();
    let lost = s.store.put([1u8; 32], b"two", 0, None, 0).unwrap();
    assert_eq!(lost.offset, s.bytes.len() as u64);
    drop(lost);
    assert_eq!(s.get(&[1u8; 32]).unwrap(), Some(b"one".to_vec()));
    assert_eq!(s.store.anchor_seq(), 2);
    assert_eq!(s.store.file_size(), s.bytes.len() as u64);
}

#[test]
fn record_fields_stand_at_their_offsets() {
    let r = Record {
        entry_key: [0x11u8; 32],
        type_tag: 0x22,
        flags: FLAG_EXPIRES,
        created_at: -2,
        expires_at: 0x0102,
        anchor_seq: 0x0304,
        value: b"body".to_vec(),
    };
    let b = r.encode(&ANCHOR);
    assert_eq!(b.len(), 108);
    assert_eq!(&b[0..4], &[0x44, 0x52, 0x44, 0x56]);
    assert_eq!(&b[4..8], &[108, 0, 0, 0]);
    assert_eq!(&b[8..12], &[0x93, 0xff, 0xff, 0xff]);
    assert_eq!(&b[12..44], &[0x11u8; 32]);
    assert_eq!(&b[44..48], &[0x22, 4, 0, 0]);
    assert_eq!(&b[48..56], &[0xfe, 0xff, 0xff, 0xff, 0xff, 0xff, 0xff, 0xff]);
    assert_eq!(&b[56..64], &[2, 1, 0, 0, 0, 0, 0, 0]);
    assert_eq!(&b[64..72], &[4, 3, 0, 0, 0, 0, 0, 0]);
    let mut all = b[..72].to_vec();
    all.extend_from_slice(b"body");
    assert_eq!(&b[72..104], blake3::keyed_hash(&ANCHOR, &all).as_bytes());
    assert_eq!(&b[104..], b"body");

    let mut shifted = vec![7u8; 13];
    shifted.extend_from_slice(&b);
    shifted.push(9);
    let (d, n) = Record::decode_at(&shifted, 13, &ANCHOR).unwrap();
    assert_eq!(n, 108);
    assert_eq!(d.entry_key, r.entry_key);
    assert_eq!(d.created_at, -2);
    assert_eq!(d.expires_at, 0x0102);
    assert_eq!(d.value, b"body".to_vec());
    assert_eq!(FLAG_TOMBSTONE, 1);
}

fn words(r: Result<(Record, usize)>) -> String {
    match r {
        Ok(_) => "ok".to_string(),
        Err(e) => e.words(""),
    }
}

#[test]
fn each_damage_to_a_record_has_its_error() {
    let r = Record {
        entry_key: [1u8; 32],
        type_tag: 0,
        flags: 0,
        created_at: 0,
        expires_at: 0,
        anchor_seq: 1,
        value: b"value".to_vec(),
    };
    let b = r.encode(&ANCHOR);
    assert_eq!(words(Record::decode_at(&b[..103], 0, &ANCHOR)), "corrupt: record header truncated");
    assert_eq!(words(Record::decode_at(&b, 9, &ANCHOR)), "corrupt: record header truncated");
    let mut m = b.clone();
    m[0] ^= 1;
    assert_eq!(words(Record::decode_at(&m, 0, &ANCHOR)), "corrupt: bad record magic");
    let mut m = b.clone();
    m[8] ^= 1;
    assert_eq!(words(Record::decode_at(&m, 0, &ANCHOR)), "corrupt: size redundancy check failed");
    let mut m = b.clone();
    m[4] = 50;
    m[8] = !50;
    assert_eq!(words(Record::decode_at(&m, 0, &ANCHOR)), "corrupt: record size smaller than header");
    assert_eq!(
        words(Record::decode_at(&b[..b.len() - 1], 0, &ANCHOR)),
        "corrupt: record body extends past file end"
    );
    let mut m = b.clone();
    m[106] ^= 1;
    assert!(matches!(Record::decode_at(&m, 0, &ANCHOR), Err(Error::Hmac)));
}
