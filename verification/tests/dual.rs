//! Two stores as one: healing, divergence, degradation.

use manifestus::dual::{DualStore, Opening};
use manifestus::store::{file_header, Pending, Recovery, Store};
use manifestus::{Error, Result};

const ANCHOR: [u8; 32] = [0xCDu8; 32];

/// A store and the bytes of its file.
struct FileStore {
    bytes: Vec<u8>,
    store: Store,
}

impl FileStore {
    fn open_or_create(mut bytes: Vec<u8>, key: &[u8; 32]) -> Result<Self> {
        let (store, recovery) = Store::open_or_create(&bytes, key)?;
        match recovery {
            Recovery::Sound => {}
            Recovery::Cut(n) => bytes.truncate(n as usize),
            Recovery::Begin => bytes = file_header(),
        }
        Ok(FileStore { bytes, store })
    }

    fn append(&mut self, p: Pending) {
        assert_eq!(p.offset, self.bytes.len() as u64);
        self.bytes.extend_from_slice(&p.bytes);
        self.store.landed(p);
    }

    fn put(
        &mut self,
        k: [u8; 32],
        value: &[u8],
        tag: u8,
        expires: Option<i64>,
        now: i64,
    ) -> Result<()> {
        let p = self.store.put(k, value, tag, expires, now)?;
        self.append(p);
        Ok(())
    }

    fn delete(&mut self, k: &[u8; 32], now: i64) -> Result<()> {
        let p = self.store.delete(k, now)?;
        self.append(p);
        Ok(())
    }

    fn get(&self, k: &[u8; 32]) -> Result<Option<Vec<u8>>> {
        match self.store.get(k) {
            None => Ok(None),
            Some(m) => {
                let from = m.offset as usize;
                let v = self.store.read_value(&self.bytes[from..from + m.size as usize])?;
                Ok(Some(v))
            }
        }
    }
}

/// A pair of stores and the bytes of their files.
struct Pair {
    files: [Vec<u8>; 2],
    dual: DualStore,
}

fn open_file(file: &mut Vec<u8>) -> Result<Store> {
    let s = FileStore::open_or_create(file.clone(), &ANCHOR)?;
    *file = s.bytes;
    Ok(s.store)
}

impl Pair {
    fn open_or_create(mut files: [Vec<u8>; 2]) -> Result<Self> {
        let r0 = open_file(&mut files[0]);
        let r1 = open_file(&mut files[1]);
        let dual = match DualStore::open_or_create(r0, r1)? {
            Opening::Ready(d) => d,
            Opening::Heal { from } => {
                files[1 - from] = files[from].clone();
                let copy = open_file(&mut files[1 - from]).ok();
                let source = open_file(&mut files[from]).ok();
                DualStore::healed(from, source, copy)
            }
            Opening::Repair { from, survivor } => {
                files[1 - from] = files[from].clone();
                let copy = open_file(&mut files[1 - from]).ok();
                DualStore::repaired(from, survivor, copy)
            }
        };
        Ok(Pair { files, dual })
    }

    fn land(&mut self, i: usize, p: Pending) {
        self.files[i].extend_from_slice(&p.bytes);
        self.dual.landed(i, p);
    }

    fn put(
        &mut self,
        k: [u8; 32],
        value: &[u8],
        tag: u8,
        expires: Option<i64>,
        now: i64,
    ) -> Result<()> {
        let mut any_ok = false;
        for i in 0..2 {
            if let Some(p) = self.dual.put(i, k, value, tag, expires, now) {
                self.land(i, p);
                any_ok = true;
            }
        }
        DualStore::accept_write(any_ok)
    }

    fn delete(&mut self, k: &[u8; 32], now: i64) -> Result<()> {
        let mut any_ok = false;
        for i in 0..2 {
            if let Some(p) = self.dual.delete(i, k, now) {
                self.land(i, p);
                any_ok = true;
            }
        }
        DualStore::accept_delete(any_ok)
    }

    fn get(&self, k: &[u8; 32]) -> Result<Option<Vec<u8>>> {
        let (i, meta) = self.dual.get(k)?;
        match meta {
            None => Ok(None),
            Some(m) => {
                let from = m.offset as usize;
                let bytes = &self.files[i][from..from + m.size as usize];
                let store = if i == 0 { &self.dual.first } else { &self.dual.second };
                Ok(Some(store.as_ref().unwrap().read_value(bytes)?))
            }
        }
    }
}

fn fresh() -> Pair {
    Pair::open_or_create([Vec::new(), Vec::new()]).unwrap()
}

fn value_in(file: &Vec<u8>, k: &[u8; 32]) -> Option<Vec<u8>> {
    FileStore::open_or_create(file.clone(), &ANCHOR).unwrap().get(k).unwrap()
}

#[test]
fn fresh_dual_put_get() {
    let mut d = fresh();
    assert!(!d.dual.degraded());
    d.put([1u8; 32], b"hello", 0, None, 0).unwrap();
    assert_eq!(d.get(&[1u8; 32]).unwrap(), Some(b"hello".to_vec()));
}

#[test]
fn both_rings_written() {
    let mut d = fresh();
    d.put([2u8; 32], b"both", 0, None, 0).unwrap();
    for f in &d.files {
        assert_eq!(value_in(f, &[2u8; 32]), Some(b"both".to_vec()));
    }
}

#[test]
fn missing_ring_heals_on_open() {
    let mut d = fresh();
    d.put([3u8; 32], b"survives", 0, None, 0).unwrap();
    let mut files = d.files;
    files[1] = Vec::new();

    let d = Pair::open_or_create(files).unwrap();
    assert_eq!(d.get(&[3u8; 32]).unwrap(), Some(b"survives".to_vec()));
    assert_eq!(value_in(&d.files[1], &[3u8; 32]), Some(b"survives".to_vec()));
}

#[test]
fn torn_tail_ring_heals_via_seq() {
    let mut d = fresh();
    d.put([4u8; 32], b"first", 0, None, 0).unwrap();
    d.put([5u8; 32], b"second", 0, None, 0).unwrap();
    let mut files = d.files;
    let len = files[1].len();
    files[1].truncate(len - 30);

    let d = Pair::open_or_create(files).unwrap();
    assert_eq!(d.get(&[4u8; 32]).unwrap(), Some(b"first".to_vec()));
    assert_eq!(d.get(&[5u8; 32]).unwrap(), Some(b"second".to_vec()));
    assert_eq!(value_in(&d.files[1], &[5u8; 32]), Some(b"second".to_vec()));
}

#[test]
fn garbage_ring_repaired_from_survivor() {
    let mut d = fresh();
    d.put([6u8; 32], b"good", 0, None, 0).unwrap();
    let mut files = d.files;
    files[1] = b"this is not a vault".to_vec();

    let d = Pair::open_or_create(files).unwrap();
    assert!(d.dual.degraded(), "hard repair should flag degraded");
    assert_eq!(d.get(&[6u8; 32]).unwrap(), Some(b"good".to_vec()));
    assert_eq!(
        value_in(&d.files[1], &[6u8; 32]),
        Some(b"good".to_vec()),
        "ring 1 rebuilt from survivor"
    );
}

#[test]
fn divergent_seqs_converge_to_higher() {
    let mut d = fresh();
    d.put([7u8; 32], b"v1", 0, None, 0).unwrap();
    let mut files = d.files;
    let mut s0 = FileStore::open_or_create(files[0].clone(), &ANCHOR).unwrap();
    s0.put([8u8; 32], b"only-in-0", 0, None, 0).unwrap();
    files[0] = s0.bytes;

    let d = Pair::open_or_create(files).unwrap();
    assert_eq!(d.get(&[8u8; 32]).unwrap(), Some(b"only-in-0".to_vec()));
    assert_eq!(
        value_in(&d.files[1], &[8u8; 32]),
        Some(b"only-in-0".to_vec()),
        "lower-seq ring caught up"
    );
}

#[test]
fn delete_applies_to_both_rings() {
    let mut d = fresh();
    d.put([9u8; 32], b"doomed", 0, None, 0).unwrap();
    d.delete(&[9u8; 32], 0).unwrap();
    for f in &d.files {
        assert_eq!(value_in(f, &[9u8; 32]), None);
    }
}

#[test]
fn empty_dual_reports_clean() {
    let d = fresh();
    assert!(!d.dual.degraded());
    assert!(d.dual.is_empty());
    assert_eq!(d.dual.anchor_seq(), 0);
}

#[test]
fn one_ring_is_enough_and_none_is_not() {
    let mut d = fresh();
    d.put([1u8; 32], b"one", 0, None, 0).unwrap();
    d.dual.failed(0);
    assert!(d.dual.degraded());
    assert_eq!(d.get(&[1u8; 32]).unwrap(), Some(b"one".to_vec()));
    d.put([2u8; 32], b"two", 0, None, 0).unwrap();
    assert_eq!(d.get(&[2u8; 32]).unwrap(), Some(b"two".to_vec()));
    assert_eq!(d.dual.len(), 2);
    assert_eq!(d.dual.anchor_seq(), 2);
    d.dual.failed(1);
    assert!(matches!(d.get(&[1u8; 32]), Err(Error::Corrupt(s)) if s == "no readable ring"));
    assert!(matches!(
        d.put([3u8; 32], b"x", 0, None, 0),
        Err(Error::Corrupt(s)) if s == "both rings failed to accept write"
    ));
    assert!(matches!(
        d.delete(&[3u8; 32], 0),
        Err(Error::Corrupt(s)) if s == "both rings failed to accept delete"
    ));
}

#[test]
fn two_foreign_files_are_an_error() {
    let bad = b"this is not a vault".to_vec();
    assert!(matches!(Pair::open_or_create([bad.clone(), bad]), Err(Error::BadMagic)));
}
