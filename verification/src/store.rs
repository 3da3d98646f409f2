//! An append-only keyed store with crash-safe recovery: the state behind a file of records.
//!
//! Every write appends one record that proves itself. Opening replays the file from front to back and
//! cuts it off at the first record that does not hold, which is what a write that power loss tore
//! leaves behind. The latest record of a key wins; what it replaces is waste until a compaction. A
//! tombstone is a record too: it takes its key out.
//!
//! Reading and writing the file is the caller's: a write is handed out as the bytes to append and
//! where, and counts once the caller says that it landed.
use vstd::prelude::*;
use vstd::bytes::*;
use std::collections::BTreeMap;
use crate::block::{array32, copied, sliced};
use crate::error;
use crate::error::{corrupt_err, Error, ErrorView, Result};
use crate::record;
use crate::record::{get_le, EntryKey, Record, RecordView};

verus! {

broadcast use vstd::std_specs::btree::group_btree_axioms;

/// What is known of a live entry. The value itself stays in the file.
#[derive(Debug, Clone, Copy)]
pub struct EntryMeta {
    pub offset: u64,
    pub size: u32,
    pub type_tag: u8,
    pub flags: u8,
    pub created_at: i64,
    pub expires_at: i64,
    pub anchor_seq: u64,
}

/// The mathematical view of a store.
#[verifier::ext_equal]
pub struct StoreView {
    /// The key that its records are hashed with.
    pub anchor: Seq<u8>,
    /// The live entries.
    pub entries: Map<Seq<u8>, EntryMeta>,
    /// The sequence number of the next record.
    pub next_seq: u64,
    /// Bytes of tombstones and of records that later ones replaced.
    pub wasted: u64,
    /// Where the next record goes.
    pub size: u64,
}

/// What has to be done to a file that was opened.
#[derive(Debug, Clone, Copy, PartialEq, Eq, Structural)]
pub enum Recovery {
    /// Nothing.
    Sound,
    /// Cut it off at this length: what follows is no record.
    Cut(u64),
    /// Empty it and write the file header: there was none.
    Begin,
}

/// A record to be appended, on its way to the file.
pub struct Pending {
    pub offset: u64,
    pub bytes: Vec<u8>,
    pub record: Record,
}

// ---------------------------------------------------------------- the model

/// `a + b`, but no more than the largest counter.
pub open spec fn capped(a: int) -> u64 {
    if a > u64::MAX {
        u64::MAX
    } else {
        a as u64
    }
}

/// Whether flags mark a tombstone.
pub open spec fn is_tombstone(flags: u8) -> bool {
    flags % 2 == 1
}

/// The entry of a record.
pub open spec fn meta_of(r: RecordView, offset: u64, size: u32) -> EntryMeta {
    EntryMeta {
        offset,
        size,
        type_tag: r.tag,
        flags: r.flags,
        created_at: r.created,
        expires_at: r.expires,
        anchor_seq: r.seq,
    }
}

impl StoreView {
    /// The store after one more record: what its key had is waste now, and so is a tombstone.
    pub open spec fn applied(self, r: RecordView, offset: u64, size: u32) -> StoreView {
        let freed = if self.entries.contains_key(r.key) {
            capped(self.wasted + self.entries[r.key].size)
        } else {
            self.wasted
        };
        if is_tombstone(r.flags) {
            StoreView {
                entries: self.entries.remove(r.key),
                wasted: capped(freed + size),
                ..self
            }
        } else {
            StoreView {
                entries: self.entries.insert(r.key, meta_of(r, offset, size)),
                wasted: freed,
                ..self
            }
        }
    }
}

/// A store without entries.
pub open spec fn fresh(anchor: Seq<u8>) -> StoreView {
    StoreView {
        anchor,
        entries: Map::<Seq<u8>, EntryMeta>::empty(),
        next_seq: 1,
        wasted: 0,
        size: 8,
    }
}

/// What a replay comes to: the store, where the records end, and the highest sequence number.
#[verifier::ext_equal]
pub struct Replay {
    pub store: StoreView,
    pub end: int,
    pub top: u64,
}

/// The replay of a file from `at` on, up to the first record that does not hold.
pub open spec fn replayed(b: Seq<u8>, at: int, v: StoreView, top: u64) -> Replay
    decreases b.len() - at,
{
    match record::record_at(b, at, v.anchor) {
        Ok((r, n)) => if at < b.len() && n > 0 {
            replayed(
                b,
                at + n,
                v.applied(r, at as u64, n as u32),
                if r.seq > top {
                    r.seq
                } else {
                    top
                },
            )
        } else {
            Replay { store: v, end: at, top }
        },
        Err(_) => Replay { store: v, end: at, top },
    }
}

/// The file header.
pub open spec fn header() -> Seq<u8> {
    seq![0x50u8, 0x56u8, 0x44u8, 0x42u8, 0u8, 0u8, 0u8, 0u8]
}

/// What opening a file with these bytes comes to, and what has to be done to it.
pub open spec fn opened(b: Seq<u8>, anchor: Seq<u8>) -> core::result::Result<
    (StoreView, Recovery),
    ErrorView,
> {
    if b.len() < 8 {
        Ok((fresh(anchor), Recovery::Begin))
    } else if b.take(4) != header().take(4) {
        Err(ErrorView::BadMagic)
    } else if record::num(b, 4, 4) != 0 {
        Err(ErrorView::UnsupportedVersion(record::num(b, 4, 4) as u32))
    } else {
        let r = replayed(b, 8, fresh(anchor), 0);
        Ok(
            (
                StoreView { next_seq: capped(r.top + 1), size: r.end as u64, ..r.store },
                if r.end < b.len() {
                    Recovery::Cut(r.end as u64)
                } else {
                    Recovery::Sound
                },
            ),
        )
    }
}

/// The view of an opening.
pub open spec fn open_view(r: Result<(Store, Recovery)>) -> core::result::Result<
    (StoreView, Recovery),
    ErrorView,
> {
    match r {
        Ok((s, w)) => Ok((s@, w)),
        Err(e) => Err(e@),
    }
}

// ---------------------------------------------------------------- the index

/// A key as the pair of numbers it is indexed by.
pub open spec fn split(k: Seq<u8>) -> (u128, u128) {
    (spec_u128_from_le_bytes(k.subrange(0, 16)), spec_u128_from_le_bytes(k.subrange(16, 32)))
}

/// The key of a pair of numbers.
pub open spec fn unsplit(p: (u128, u128)) -> Seq<u8> {
    spec_u128_to_le_bytes(p.0) + spec_u128_to_le_bytes(p.1)
}

/// The entries of an index.
pub open spec fn entries_of(m: Map<(u128, u128), EntryMeta>) -> Map<Seq<u8>, EntryMeta> {
    Map::new(|k: Seq<u8>| k.len() == 32 && m.contains_key(split(k)), |k: Seq<u8>| m[split(k)])
}

proof fn lemma_split(k: Seq<u8>)
    requires
        k.len() == 32,
    ensures
        unsplit(split(k)) == k,
{
    lemma_auto_spec_u128_to_from_le_bytes();
    let a = k.subrange(0, 16);
    let b = k.subrange(16, 32);
    assert(spec_u128_to_le_bytes(spec_u128_from_le_bytes(a)) == a);
    assert(spec_u128_to_le_bytes(spec_u128_from_le_bytes(b)) == b);
    assert(a + b =~= k);
}

proof fn lemma_unsplit(p: (u128, u128))
    ensures
        unsplit(p).len() == 32,
        split(unsplit(p)) == p,
{
    lemma_auto_spec_u128_to_from_le_bytes();
    let a = spec_u128_to_le_bytes(p.0);
    let b = spec_u128_to_le_bytes(p.1);
    assert(spec_u128_to_le_bytes(p.0).len() == 16);
    assert(spec_u128_to_le_bytes(p.1).len() == 16);
    assert(spec_u128_from_le_bytes(a) == p.0);
    assert(spec_u128_from_le_bytes(b) == p.1);
    assert(unsplit(p).subrange(0, 16) =~= a);
    assert(unsplit(p).subrange(16, 32) =~= b);
}

proof fn lemma_entries_insert(m: Map<(u128, u128), EntryMeta>, k: Seq<u8>, x: EntryMeta)
    requires
        k.len() == 32,
    ensures
        entries_of(m.insert(split(k), x)) == entries_of(m).insert(k, x),
{
    let a = entries_of(m.insert(split(k), x));
    let b = entries_of(m).insert(k, x);
    assert forall|j: Seq<u8>| #[trigger] a.contains_key(j) == b.contains_key(j) && (a.contains_key(j)
        ==> a[j] == b[j]) by {
        if j.len() == 32 && split(j) == split(k) {
            lemma_split(j);
            lemma_split(k);
        }
    }
    assert(a =~= b);
}

proof fn lemma_entries_remove(m: Map<(u128, u128), EntryMeta>, k: Seq<u8>)
    requires
        k.len() == 32,
    ensures
        entries_of(m.remove(split(k))) == entries_of(m).remove(k),
{
    let a = entries_of(m.remove(split(k)));
    let b = entries_of(m).remove(k);
    assert forall|j: Seq<u8>| #[trigger] a.contains_key(j) == b.contains_key(j) && (a.contains_key(j)
        ==> a[j] == b[j]) by {
        if j.len() == 32 && split(j) == split(k) {
            lemma_split(j);
            lemma_split(k);
        }
    }
    assert(a =~= b);
}

proof fn lemma_entries_len(m: Map<(u128, u128), EntryMeta>)
    requires
        m.dom().finite(),
    ensures
        entries_of(m).dom().finite(),
        entries_of(m).dom().len() == m.dom().len(),
{
    let f = |p: (u128, u128)| unsplit(p);
    let x = m.dom();
    let y = entries_of(m).dom();
    assert forall|k: Seq<u8>| #[trigger] y.contains(k) == x.map(f).contains(k) by {
        if y.contains(k) {
            lemma_split(k);
            assert(x.contains(split(k)) && f(split(k)) == k);
        }
        if x.map(f).contains(k) {
            let p = choose|p: (u128, u128)| x.contains(p) && f(p) == k;
            lemma_unsplit(p);
        }
    }
    assert(y =~= x.map(f));
    assert(vstd::relations::injective(f)) by {
        assert forall|p: (u128, u128), q: (u128, u128)| #[trigger] f(p) == #[trigger] f(q) implies p
            == q by {
            lemma_unsplit(p);
            lemma_unsplit(q);
        }
    }
    x.lemma_map_finite(f);
    vstd::set_lib::lemma_map_size(x, y, f);
}

fn split_key(k: &EntryKey) -> (p: (u128, u128))
    ensures
        p == split(k@),
{
    let a = sliced(k.as_slice(), 0, 16);
    let b = sliced(k.as_slice(), 16, 32);
    (u128_from_le_bytes(a.as_slice()), u128_from_le_bytes(b.as_slice()))
}

fn join_key(p: (u128, u128)) -> (k: EntryKey)
    ensures
        k@ == unsplit(p),
{
    proof {
        lemma_unsplit(p);
    }
    let mut a = u128_to_le_bytes(p.0);
    let b = u128_to_le_bytes(p.1);
    a.extend_from_slice(b.as_slice());
    assert(a@ =~= unsplit(p));
    array32(a.as_slice())
}

/// The state of a store.
pub struct Store {
    anchor_key: [u8; 32],
    index: BTreeMap<(u128, u128), EntryMeta>,
    next_seq: u64,
    wasted_bytes: u64,
    file_size: u64,
}

impl View for Store {
    type V = StoreView;

    closed spec fn view(&self) -> StoreView {
        StoreView {
            anchor: self.anchor_key@,
            entries: entries_of(self.index@),
            next_seq: self.next_seq,
            wasted: self.wasted_bytes,
            size: self.file_size,
        }
    }
}

/// The bytes that every file begins with.
pub fn file_header() -> (b: Vec<u8>)
    ensures
        b@ == header(),
{
    let b: Vec<u8> = vec![0x50, 0x56, 0x44, 0x42, 0, 0, 0, 0];
    assert(b@ =~= header());
    b
}

impl Store {
    fn begin(anchor_key: &[u8; 32]) -> (s: Self)
        ensures
            s@ == fresh(anchor_key@),
    {
        let s = Store {
            anchor_key: *anchor_key,
            index: BTreeMap::new(),
            next_seq: 1,
            wasted_bytes: 0,
            file_size: 8,
        };
        assert(s@ =~= fresh(anchor_key@));
        s
    }

    /// Takes one more record into account: what its key had is waste now, and so is a tombstone.
    fn apply_record(&mut self, rec: &Record, offset: u64, size: u32)
        ensures
            final(self)@ == old(self)@.applied(rec@, offset, size),
    {
        let ghost v = self@;
        let ghost m = self.index@;
        let p = split_key(&rec.entry_key);
        proof {
            lemma_entries_remove(m, rec@.key);
            lemma_entries_insert(m.remove(p), rec@.key, meta_of(rec@, offset, size));
        }
        let prev = self.index.remove(&p);
        assert(self.index@ =~= m.remove(p));
        if let Some(x) = prev {
            self.wasted_bytes = self.wasted_bytes.saturating_add(x.size as u64);
        }
        if rec.flags % 2 == 1 {
            self.wasted_bytes = self.wasted_bytes.saturating_add(size as u64);
            assert(self@ =~= v.applied(rec@, offset, size));
            return ;
        }
        self.index.insert(
            p,
            EntryMeta {
                offset,
                size,
                type_tag: rec.type_tag,
                flags: rec.flags,
                created_at: rec.created_at,
                expires_at: rec.expires_at,
                anchor_seq: rec.anchor_seq,
            },
        );
        assert(v.entries.remove(rec@.key).insert(rec@.key, meta_of(rec@, offset, size))
            =~= v.entries.insert(rec@.key, meta_of(rec@, offset, size)));
        assert(self@ =~= v.applied(rec@, offset, size));
    }

    /// Replays the records of a file behind its header.
    fn scan_and_rebuild(&mut self, file: &[u8]) -> (end: usize)
        requires
            old(self)@ == fresh(old(self)@.anchor),
            file@.len() >= 8,
        ensures
            8 <= end <= file@.len(),
            ({
                let r = replayed(file@, 8, old(self)@, 0);
                &&& end == r.end
                &&& final(self)@ == (StoreView {
                    next_seq: capped(r.top + 1),
                    size: r.end as u64,
                    ..r.store
                })
            }),
    {
        let ghost whole = replayed(file@, 8, self@, 0);
        let key = self.anchor_key;
        let mut at: usize = 8;
        let mut top: u64 = 0;
        let n: usize = file.len();
        while at < n
            invariant
                n == file@.len(),
                8 <= at <= n,
                self@.anchor == key@,
                replayed(file@, at as int, self@, top) == whole,
            ensures
                8 <= at <= n,
                whole == (Replay { store: self@, end: at as int, top }),
            decreases n - at,
        {
            match Record::decode_at(file, at, &key) {
                Ok((rec, used)) => {
                    proof {
                        record::lemma_record_length(file@, at as int, key@);
                    }
                    self.apply_record(&rec, at as u64, used as u32);
                    if rec.anchor_seq > top {
                        top = rec.anchor_seq;
                    }
                    at = at + used;
                },
                Err(_) => {
                    break ;
                },
            }
        }
        self.next_seq = top.saturating_add(1);
        self.file_size = at as u64;
        at
    }

    /// Opens a store on the bytes of its file, none where there is no file yet; and says what has
    /// to be done to the file. Whatever follows the last record that holds is cut off.
    pub fn open_or_create(file: &[u8], anchor_key: &[u8; 32]) -> (r: Result<(Self, Recovery)>)
        ensures
            open_view(r) == opened(file@, anchor_key@),
    {
        let mut s = Store::begin(anchor_key);
        if file.len() < 8 {
            return Ok((s, Recovery::Begin));
        }
        assert(file@.take(4) == header().take(4) <==> file@[0] == 0x50 && file@[1] == 0x56
            && file@[2] == 0x44 && file@[3] == 0x42) by {
            let a = file@.take(4);
            let b = header().take(4);
            if a == b {
                assert(a[0] == b[0] && a[1] == b[1] && a[2] == b[2] && a[3] == b[3]);
            } else {
                assert(!(a =~= b));
            }
        }
        if file[0] != 0x50 || file[1] != 0x56 || file[2] != 0x44 || file[3] != 0x42 {
            return Err(Error::BadMagic);
        }
        let version: u64 = get_le(file, 4, 4);
        proof {
            record::lemma_limits();
        }
        if version != 0 {
            return Err(Error::UnsupportedVersion(version as u32));
        }
        let end: usize = s.scan_and_rebuild(file);
        if end < file.len() {
            Ok((s, Recovery::Cut(end as u64)))
        } else {
            Ok((s, Recovery::Sound))
        }
    }

    /// Where the record of a key lies, if the key is live.
    pub fn get(&self, entry_key: &EntryKey) -> (r: Option<EntryMeta>)
        ensures
            r == (if self@.entries.contains_key(entry_key@) {
                Some(self@.entries[entry_key@])
            } else {
                None
            }),
    {
        let p = split_key(entry_key);
        match self.index.get(&p) {
            Some(m) => Some(*m),
            None => None,
        }
    }

    /// The value in the bytes of a record, which are verified once more.
    pub fn read_value(&self, bytes: &[u8]) -> (r: Result<Vec<u8>>)
        ensures
            match r {
                Ok(v) => record::record_at(bytes@, 0, self@.anchor) matches Ok((rec, _)) && rec.value
                    == v@,
                Err(e) => record::record_at(bytes@, 0, self@.anchor) == Err::<
                    (RecordView, int),
                    ErrorView,
                >(e@),
            },
    {
        match Record::decode_at(bytes, 0, &self.anchor_key) {
            Ok((rec, _)) => Ok(rec.value),
            Err(e) => Err(e),
        }
    }

    /// Whether one more record of this length has a place and a number.
    pub open spec fn takes(&self, len: nat) -> bool {
        self@.next_seq < u64::MAX && self@.size + 104 + len <= u64::MAX
    }

    /// Makes a record the next one: its number is spent, whatever becomes of it.
    fn stage(&mut self, rec: Record) -> (r: Result<Pending>)
        requires
            104 + rec.value@.len() <= u32::MAX,
            rec.anchor_seq == old(self)@.next_seq,
        ensures
            r is Ok == old(self).takes(rec.value@.len()),
            match r {
                Ok(p) => {
                    &&& p.record@ == rec@
                    &&& p.offset == old(self)@.size
                    &&& p.bytes@ == record::record_bytes(rec@, old(self)@.anchor)
                    &&& p.bytes@.len() == 104 + rec.value@.len()
                    &&& final(self)@ == (StoreView {
                        next_seq: (old(self)@.next_seq + 1) as u64,
                        ..old(self)@
                    })
                },
                Err(e) => e@ == error::corrupt("record numbers are used up") && final(self)@ == old(
                    self,
                )@,
            },
    {
        let len: u64 = rec.value.len() as u64;
        if self.next_seq == u64::MAX || self.file_size > u64::MAX - 104 - len {
            return Err(corrupt_err("record numbers are used up"));
        }
        let bytes = rec.encode(&self.anchor_key);
        self.next_seq = self.next_seq + 1;
        Ok(Pending { offset: self.file_size, bytes, record: rec })
    }

    /// Inserts or overwrites a value: the record to append. The entry changes once it has landed.
    /// `now` is the caller's clock, in the caller's units.
    pub fn put(
        &mut self,
        entry_key: EntryKey,
        value: &[u8],
        type_tag: u8,
        expires_at: Option<i64>,
        now: i64,
    ) -> (r: Result<Pending>)
        requires
            104 + value@.len() <= u32::MAX,
        ensures
            r is Ok == old(self).takes(value@.len()),
            match r {
                Ok(p) => {
                    let rec = put_record(
                        entry_key@,
                        value@,
                        type_tag,
                        expires_at,
                        now,
                        old(self)@.next_seq,
                    );
                    &&& p.record@ == rec
                    &&& p.offset == old(self)@.size
                    &&& p.bytes@ == record::record_bytes(rec, old(self)@.anchor)
                    &&& p.bytes@.len() == 104 + value@.len()
                    &&& final(self)@ == (StoreView {
                        next_seq: (old(self)@.next_seq + 1) as u64,
                        ..old(self)@
                    })
                },
                Err(e) => e@ == error::corrupt("record numbers are used up") && final(self)@ == old(
                    self,
                )@,
            },
            r matches Ok(p) ==> {
                &&& p.record.entry_key@ == entry_key@
                &&& p.record.value@ == value@
                &&& p.record.type_tag == type_tag
                &&& p.record.created_at == now
                &&& p.record.anchor_seq == old(self)@.next_seq
                &&& expires_at matches Some(t) ==> p.record.expires_at == t && p.record.flags == 4
                &&& expires_at is None ==> p.record.expires_at == 0 && p.record.flags == 0
            },
    {
        let flags: u8 = match expires_at {
            Some(_) => 4,
            None => 0,
        };
        let expiry: i64 = match expires_at {
            Some(t) => t,
            None => 0,
        };
        let rec = Record {
            entry_key,
            type_tag,
            flags,
            created_at: now,
            expires_at: expiry,
            anchor_seq: self.next_seq,
            value: copied(value),
        };
        assert(rec@ =~= put_record(
            entry_key@,
            value@,
            type_tag,
            expires_at,
            now,
            self@.next_seq,
        ));
        self.stage(rec)
    }

    /// Takes a key out: the tombstone to append.
    pub fn delete(&mut self, entry_key: &EntryKey, now: i64) -> (r: Result<Pending>)
        ensures
            r is Ok == old(self).takes(0),
            match r {
                Ok(p) => {
                    let rec = tombstone(entry_key@, now, old(self)@.next_seq);
                    &&& p.record@ == rec
                    &&& p.offset == old(self)@.size
                    &&& p.bytes@ == record::record_bytes(rec, old(self)@.anchor)
                    &&& p.bytes@.len() == 104
                    &&& final(self)@ == (StoreView {
                        next_seq: (old(self)@.next_seq + 1) as u64,
                        ..old(self)@
                    })
                },
                Err(e) => e@ == error::corrupt("record numbers are used up") && final(self)@ == old(
                    self,
                )@,
            },
            r matches Ok(p) ==> {
                &&& p.record.entry_key@ == entry_key@
                &&& p.record.flags == 1
                &&& p.record.value@.len() == 0
                &&& p.record.type_tag == 0
                &&& p.record.created_at == now
                &&& p.record.expires_at == 0
                &&& p.record.anchor_seq == old(self)@.next_seq
            },
    {
        let rec = Record {
            entry_key: *entry_key,
            type_tag: 0,
            flags: 1,
            created_at: now,
            expires_at: 0,
            anchor_seq: self.next_seq,
            value: Vec::new(),
        };
        assert(rec@ =~= tombstone(entry_key@, now, self@.next_seq));
        self.stage(rec)
    }

    /// Takes note that a record was written and is durable.
    pub fn landed(&mut self, p: Pending)
        requires
            p.bytes@.len() <= u32::MAX,
            old(self)@.size + p.bytes@.len() <= u64::MAX,
        ensures
            final(self)@ == (StoreView {
                size: (old(self)@.size + p.bytes@.len()) as u64,
                ..old(self)@
            }).applied(p.record@, p.offset, p.bytes@.len() as u32),
            final(self)@.entries.contains_key(p.record.entry_key@) == (p.record.flags % 2 == 0),
            p.record.flags % 2 == 0 ==> {
                let m = final(self)@.entries[p.record.entry_key@];
                &&& m.offset == p.offset
                &&& m.size == p.bytes@.len()
                &&& m.type_tag == p.record.type_tag
                &&& m.flags == p.record.flags
                &&& m.created_at == p.record.created_at
                &&& m.expires_at == p.record.expires_at
                &&& m.anchor_seq == p.record.anchor_seq
            },
            forall|k: Seq<u8>|
                k != p.record.entry_key@ ==> #[trigger] final(self)@.entries.contains_key(k) == old(
                    self,
                )@.entries.contains_key(k) && (old(self)@.entries.contains_key(k)
                    ==> final(self)@.entries[k] == old(self)@.entries[k]),
            final(self)@.size == old(self)@.size + p.bytes@.len(),
            final(self)@.next_seq == old(self)@.next_seq,
            final(self)@.anchor == old(self)@.anchor,
    {
        let n: u64 = p.bytes.len() as u64;
        self.file_size = self.file_size + n;
        self.apply_record(&p.record, p.offset, n as u32);
    }

    /// The number of live entries.
    pub fn len(&self) -> (n: usize)
        ensures
            self@.entries.dom().finite(),
            n == self@.entries.dom().len(),
    {
        let n: usize = self.index.len();
        proof {
            lemma_entries_len(self.index@);
        }
        n
    }

    /// Whether no entry is live.
    pub fn is_empty(&self) -> (r: bool)
        ensures
            r == (self@.entries.dom() =~= Set::<Seq<u8>>::empty()),
    {
        let n: usize = self.len();
        n == 0
    }

    /// The highest sequence number written so far.
    pub fn anchor_seq(&self) -> (n: u64)
        ensures
            n == (if self@.next_seq == 0 {
                0
            } else {
                self@.next_seq - 1
            }),
    {
        self.next_seq.saturating_sub(1)
    }

    pub fn wasted_bytes(&self) -> (n: u64)
        ensures
            n == self@.wasted,
    {
        self.wasted_bytes
    }

    pub fn file_size(&self) -> (n: u64)
        ensures
            n == self@.size,
    {
        self.file_size
    }
}

/// The record of a put.
pub open spec fn put_record(
    key: Seq<u8>,
    value: Seq<u8>,
    tag: u8,
    expires: Option<i64>,
    now: i64,
    seq: u64,
) -> RecordView {
    RecordView {
        key,
        tag,
        flags: if expires is Some {
            4
        } else {
            0
        },
        created: now,
        expires: match expires {
            Some(t) => t,
            None => 0,
        },
        seq,
        value,
    }
}

/// The record of a deletion.
pub open spec fn tombstone(key: Seq<u8>, now: i64, seq: u64) -> RecordView {
    RecordView {
        key,
        tag: 0,
        flags: 1,
        created: now,
        expires: 0,
        seq,
        value: Seq::<u8>::empty(),
    }
}

// ---------------------------------------------------------------- laws of recovery

proof fn lemma_replay_end(b: Seq<u8>, at: int, v: StoreView, top: u64)
    requires
        0 <= at <= b.len(),
    ensures
        at <= replayed(b, at, v, top).end <= b.len(),
        replayed(b, at, v, top).store.anchor == v.anchor,
    decreases b.len() - at,
{
    match record::record_at(b, at, v.anchor) {
        Ok((r, n)) => {
            record::lemma_record_length(b, at, v.anchor);
            lemma_replay_end(
                b,
                at + n,
                v.applied(r, at as u64, n as u32),
                if r.seq > top {
                    r.seq
                } else {
                    top
                },
            );
        },
        Err(_) => {},
    }
}

/// A replay that reaches the end of a file goes on into what is appended to it.
proof fn lemma_replay_longer(b: Seq<u8>, x: Seq<u8>, at: int, v: StoreView, top: u64)
    requires
        0 <= at,
        replayed(b, at, v, top).end == b.len(),
    ensures
        ({
            let r = replayed(b, at, v, top);
            &&& replayed(b + x, at, v, top) == replayed(b + x, b.len() as int, r.store, r.top)
            &&& r.store.anchor == v.anchor
        }),
    decreases b.len() - at,
{
    match record::record_at(b, at, v.anchor) {
        Ok((r, n)) => {
            record::lemma_record_length(b, at, v.anchor);
            assert((b + x).subrange(at, at + n) =~= b.subrange(at, at + n));
            record::law_record_may_be_moved(b, at, b + x, at, n, v.anchor, r);
            lemma_replay_longer(
                b,
                x,
                at + n,
                v.applied(r, at as u64, n as u32),
                if r.seq > top {
                    r.seq
                } else {
                    top
                },
            );
        },
        Err(_) => {},
    }
}

/// Whether a file is whole: opening it has nothing to do.
pub open spec fn whole_file(b: Seq<u8>, anchor: Seq<u8>, v: StoreView) -> bool {
    opened(b, anchor) == Ok::<(StoreView, Recovery), ErrorView>((v, Recovery::Sound))
}

/// Law: what was appended is there after a reopening. Opening a whole file with one more record gives
/// the store with that record applied, and there is nothing to repair.
#[verifier::rlimit(40)]
pub proof fn law_appended_record_survives(b: Seq<u8>, anchor: Seq<u8>, v: StoreView, r: RecordView)
    requires
        whole_file(b, anchor, v),
        b.len() <= u64::MAX,
        r.key.len() == 32,
        104 + r.value.len() <= u32::MAX,
        b.len() + 104 + r.value.len() <= u64::MAX,
        r.seq == v.next_seq,
        v.next_seq < u64::MAX,
    ensures
        whole_file(
            b + record::record_bytes(r, anchor),
            anchor,
            (StoreView {
                next_seq: (v.next_seq + 1) as u64,
                size: (v.size + 104 + r.value.len()) as u64,
                ..v
            }).applied(r, v.size, (104 + r.value.len()) as u32),
        ),
{
    let x = record::record_bytes(r, anchor);
    let c = b + x;
    let w = replayed(b, 8, fresh(anchor), 0);
    let n = 104 + r.value.len() as int;
    lemma_replay_end(b, 8, fresh(anchor), 0);
    lemma_replay_longer(b, x, 8, fresh(anchor), 0);
    record::law_record_reads_back(r, anchor);
    assert(c.subrange(b.len() as int, b.len() + n) =~= x.subrange(0, n));
    record::law_record_may_be_moved(x, 0, c, b.len() as int, n, anchor, r);
    assert(c.take(4) =~= b.take(4));
    assert(c.subrange(4, 8) =~= b.subrange(4, 8));
    let u = w.store.applied(r, b.len() as u64, n as u32);
    assert(replayed(c, b.len() + n, u, r.seq) == (Replay {
        store: u,
        end: b.len() + n,
        top: r.seq,
    }));
    let got = opened(c, anchor)->Ok_0.0;
    assert(got =~= (StoreView {
        next_seq: (v.next_seq + 1) as u64,
        size: (v.size + n) as u64,
        ..v
    }).applied(r, v.size, n as u32));
}

/// Law: a torn append loses nothing but itself. Opening a whole file with part of a record behind it
/// gives the store without that record, and the part is cut off.
pub proof fn law_torn_append_is_cut_off(
    b: Seq<u8>,
    anchor: Seq<u8>,
    v: StoreView,
    r: RecordView,
    k: int,
)
    requires
        whole_file(b, anchor, v),
        b.len() <= u64::MAX,
        r.key.len() == 32,
        104 + r.value.len() <= u32::MAX,
        0 < k < 104 + r.value.len(),
    ensures
        opened(b + record::record_bytes(r, anchor).take(k), anchor) == Ok::<
            (StoreView, Recovery),
            ErrorView,
        >((v, Recovery::Cut(b.len() as u64))),
{
    let x = record::record_bytes(r, anchor).take(k);
    let c = b + x;
    record::law_record_reads_back(r, anchor);
    lemma_replay_end(b, 8, fresh(anchor), 0);
    lemma_replay_longer(b, x, 8, fresh(anchor), 0);
    record::law_torn_record_is_refused(b, r, k, anchor);
    assert(c.take(4) =~= b.take(4));
    assert(c.subrange(4, 8) =~= b.subrange(4, 8));
}

/// Law: a new file is whole, and its store is empty.
pub proof fn law_new_file_is_empty(anchor: Seq<u8>, v: StoreView, w: Recovery)
    requires
        opened(header(), anchor) == Ok::<(StoreView, Recovery), ErrorView>((v, w)),
    ensures
        w == Recovery::Sound,
        forall|k: Seq<u8>| !(#[trigger] v.entries.contains_key(k)),
        v.anchor == anchor,
        v.next_seq == 1,
        v.wasted == 0,
        v.size == 8,
        whole_file(header(), anchor, v),
{
    assert(record::record_at(header(), 8, anchor) is Err);
}

/// Law: the header of a file is its magic and version zero, and a file with another magic or version is
/// refused; one too short for a header is begun anew.
pub proof fn law_other_files_are_refused(b: Seq<u8>, anchor: Seq<u8>)
    ensures
        header().len() == 8,
        header().take(4) == seq![80u8, 86u8, 68u8, 66u8],
        b.len() < 8 ==> (opened(b, anchor) matches Ok((v, w)) && w == Recovery::Begin && v.entries
            == Map::<Seq<u8>, EntryMeta>::empty() && v.next_seq == 1 && v.size == 8 && v.wasted
            == 0),
        b.len() >= 8 && b.take(4) != seq![80u8, 86u8, 68u8, 66u8] ==> opened(b, anchor) == Err::<
            (StoreView, Recovery),
            ErrorView,
        >(ErrorView::BadMagic),
        b.len() >= 8 && b.take(4) == seq![80u8, 86u8, 68u8, 66u8] && record::num(b, 4, 4) != 0
            ==> opened(b, anchor) == Err::<(StoreView, Recovery), ErrorView>(
            ErrorView::UnsupportedVersion(record::num(b, 4, 4) as u32),
        ),
        b.len() >= 8 && b.take(4) == seq![80u8, 86u8, 68u8, 66u8] && record::num(b, 4, 4) == 0
            ==> opened(b, anchor) is Ok,
{
    assert(header().take(4) =~= seq![80u8, 86u8, 68u8, 66u8]);
}

/// Law: whatever follows the last record that holds is cut off, and nothing before it is lost.
pub proof fn law_what_is_no_record_is_cut_off(
    b: Seq<u8>,
    anchor: Seq<u8>,
    v: StoreView,
    junk: Seq<u8>,
)
    requires
        whole_file(b, anchor, v),
        b.len() <= u64::MAX,
        junk.len() > 0,
        record::record_at(b + junk, b.len() as int, anchor) is Err,
    ensures
        opened(b + junk, anchor) == Ok::<(StoreView, Recovery), ErrorView>(
            (v, Recovery::Cut(b.len() as u64)),
        ),
{
    let c = b + junk;
    lemma_replay_end(b, 8, fresh(anchor), 0);
    lemma_replay_longer(b, junk, 8, fresh(anchor), 0);
    assert(c.take(4) =~= b.take(4));
    assert(c.subrange(4, 8) =~= b.subrange(4, 8));
}

// ---------------------------------------------------------------- what the operations are for

/// Whether two stores have the same entries but for one key.
pub open spec fn same_but(u: StoreView, v: StoreView, k: Seq<u8>) -> bool {
    forall|o: Seq<u8>|
        o != k ==> #[trigger] u.entries.contains_key(o) == v.entries.contains_key(o) && (
        v.entries.contains_key(o) ==> u.entries[o] == v.entries[o])
}

/// Law: a put that landed is the entry of its key, with the tag, the times and the number that it was put
/// with; and it is so after a reopening, when the value reads back. An expiry time marks the entry;
/// without one there is none. Other keys keep their entries.
pub proof fn law_put_is_the_entry(
    b: Seq<u8>,
    anchor: Seq<u8>,
    v: StoreView,
    key: Seq<u8>,
    value: Seq<u8>,
    tag: u8,
    expires: Option<i64>,
    now: i64,
)
    requires
        whole_file(b, anchor, v),
        b.len() <= u64::MAX,
        key.len() == 32,
        104 + value.len() <= u32::MAX,
        b.len() + 104 + value.len() <= u64::MAX,
        v.next_seq < u64::MAX,
    ensures
        ({
            let r = put_record(key, value, tag, expires, now, v.next_seq);
            let c = b + record::record_bytes(r, anchor);
            &&& opened(c, anchor) matches Ok((u, w)) && {
                &&& w == Recovery::Sound
                &&& u.entries.contains_key(key)
                &&& u.entries[key].type_tag == tag
                &&& u.entries[key].created_at == now
                &&& u.entries[key].anchor_seq == v.next_seq
                &&& u.entries[key].offset == b.len()
                &&& u.entries[key].size == 104 + value.len()
                &&& expires matches Some(t) ==> u.entries[key].expires_at == t
                    && u.entries[key].flags == record::FLAG_EXPIRES
                &&& expires is None ==> u.entries[key].expires_at == 0 && u.entries[key].flags == 0
                &&& same_but(u, v, key)
                &&& u.next_seq == v.next_seq + 1
                &&& u.size == c.len()
            }
            &&& record::record_at(c, b.len() as int, anchor) matches Ok((q, n)) && q.value == value
                && q.key == key && q.expires == (match expires {
                Some(t) => t,
                None => 0i64,
            }) && n == 104 + value.len()
        }),
{
    let r = put_record(key, value, tag, expires, now, v.next_seq);
    let x = record::record_bytes(r, anchor);
    let c = b + x;
    let n = 104 + value.len() as int;
    lemma_replay_end(b, 8, fresh(anchor), 0);
    law_appended_record_survives(b, anchor, v, r);
    record::law_record_reads_back(r, anchor);
    assert(c.subrange(b.len() as int, b.len() + n) =~= x.subrange(0, n));
    record::law_record_may_be_moved(x, 0, c, b.len() as int, n, anchor, r);
}

/// Law: a deletion that landed takes its key out, whatever the time, and it is out after a reopening. Other
/// keys keep their entries, and the tombstone and what it took out are waste.
pub proof fn law_deleted_key_is_gone(
    b: Seq<u8>,
    anchor: Seq<u8>,
    v: StoreView,
    key: Seq<u8>,
    now: i64,
)
    requires
        whole_file(b, anchor, v),
        b.len() + 104 <= u64::MAX,
        key.len() == 32,
        v.next_seq < u64::MAX,
    ensures
        ({
            let c = b + record::record_bytes(tombstone(key, now, v.next_seq), anchor);
            opened(c, anchor) matches Ok((u, w)) && {
                &&& w == Recovery::Sound
                &&& !u.entries.contains_key(key)
                &&& same_but(u, v, key)
                &&& u.size == b.len() + 104
                &&& v.wasted + 104 + u32::MAX <= u64::MAX ==> u.wasted == v.wasted + 104 + (
                if v.entries.contains_key(key) {
                    v.entries[key].size as int
                } else {
                    0
                })
            }
        }),
{
    lemma_replay_end(b, 8, fresh(anchor), 0);
    law_appended_record_survives(b, anchor, v, tombstone(key, now, v.next_seq));
}

/// Law: what an entry replaces is waste, and no more than that.
pub proof fn law_replaced_records_are_waste(v: StoreView, r: RecordView, offset: u64, size: u32)
    requires
        v.wasted + u32::MAX + u32::MAX <= u64::MAX,
    ensures
        v.applied(r, offset, size).wasted == v.wasted + (if v.entries.contains_key(r.key) {
            v.entries[r.key].size as int
        } else {
            0
        }) + (if r.flags % 2 == 1 {
            size as int
        } else {
            0
        }),
{
}

/// Law: the latest put of a key wins, and a put after a deletion brings the key back.
pub proof fn law_latest_record_wins(
    v: StoreView,
    r: RecordView,
    at: u64,
    n: u32,
    s: RecordView,
    to: u64,
    m: u32,
)
    requires
        r.key == s.key,
    ensures
        ({
            let u = v.applied(r, at, n).applied(s, to, m);
            &&& u.entries.contains_key(s.key) == (s.flags % 2 == 0)
            &&& s.flags % 2 == 0 ==> u.entries[s.key].anchor_seq == s.seq && u.entries[s.key].offset
                == to && u.entries[s.key].size == m && u.entries[s.key].type_tag == s.tag
                && u.entries[s.key].expires_at == s.expires && u.entries[s.key].created_at
                == s.created && u.entries[s.key].flags == s.flags
            &&& same_but(u, v, s.key)
        }),
{
}

// ---------------------------------------------------------------- what entries stand for

/// Whether an entry is the record of its key in a file.
pub open spec fn is_record_of(b: Seq<u8>, anchor: Seq<u8>, k: Seq<u8>, m: EntryMeta) -> bool {
    record::record_at(b, m.offset as int, anchor) matches Ok((r, n)) && r.key == k && n == m.size
        && !is_tombstone(r.flags) && m == meta_of(r, m.offset, m.size)
}

/// Whether every entry of a store is the record of its key in a file.
pub open spec fn grounded(b: Seq<u8>, v: StoreView) -> bool {
    forall|k: Seq<u8>| #[trigger] v.entries.contains_key(k) ==> is_record_of(
        b,
        v.anchor,
        k,
        v.entries[k],
    )
}

/// The value that a file holds under a key of a store.
pub open spec fn value_in(b: Seq<u8>, v: StoreView, k: Seq<u8>) -> Seq<u8> {
    (record::record_at(b, v.entries[k].offset as int, v.anchor)->Ok_0).0.value
}

/// The record that a file holds under a key of a store.
pub open spec fn record_in(b: Seq<u8>, v: StoreView, k: Seq<u8>) -> RecordView {
    (record::record_at(b, v.entries[k].offset as int, v.anchor)->Ok_0).0
}

/// Entries that stand for the same record say the same, but for where it lies.
proof fn lemma_same_record(b: Seq<u8>, v: StoreView, c: Seq<u8>, u: StoreView, k: Seq<u8>)
    requires
        v.anchor == u.anchor,
        is_record_of(b, v.anchor, k, v.entries[k]),
        is_record_of(c, u.anchor, k, u.entries[k]),
        record_in(b, v, k) == record_in(c, u, k),
    ensures
        value_in(c, u, k) == value_in(b, v, k),
        u.entries[k] == (EntryMeta { offset: u.entries[k].offset, ..v.entries[k] }),
{
    record::lemma_record_length(b, v.entries[k].offset as int, v.anchor);
    record::lemma_record_length(c, u.entries[k].offset as int, u.anchor);
}

proof fn lemma_replay_grounded(b: Seq<u8>, at: int, v: StoreView, top: u64)
    requires
        0 <= at,
        b.len() <= u64::MAX,
        grounded(b, v),
    ensures
        grounded(b, replayed(b, at, v, top).store),
        replayed(b, at, v, top).store.anchor == v.anchor,
    decreases b.len() - at,
{
    match record::record_at(b, at, v.anchor) {
        Ok((r, n)) => {
            record::lemma_record_length(b, at, v.anchor);
            let u = v.applied(r, at as u64, n as u32);
            assert(grounded(b, u)) by {
                assert forall|k: Seq<u8>| #[trigger] u.entries.contains_key(k) implies is_record_of(
                    b,
                    u.anchor,
                    k,
                    u.entries[k],
                ) by {
                    if k != r.key || is_tombstone(r.flags) {
                        assert(v.entries.contains_key(k));
                    }
                }
            }
            lemma_replay_grounded(
                b,
                at + n,
                u,
                if r.seq > top {
                    r.seq
                } else {
                    top
                },
            );
        },
        Err(_) => {},
    }
}

/// Law: after an opening every entry stands for a record of its key that holds.
pub proof fn law_opened_entries_are_records(
    b: Seq<u8>,
    anchor: Seq<u8>,
    v: StoreView,
    w: Recovery,
)
    requires
        b.len() <= u64::MAX,
        opened(b, anchor) == Ok::<(StoreView, Recovery), ErrorView>((v, w)),
    ensures
        grounded(b, v),
{
    if b.len() >= 8 {
        lemma_replay_grounded(b, 8, fresh(anchor), 0);
    }
}

/// Law: a value that was put is read back, and what other keys have stays: once the record has
/// landed, the file holds the value under its key, and the old values under the others.
pub proof fn law_put_value_is_read_back(
    b: Seq<u8>,
    v: StoreView,
    r: RecordView,
    other: Seq<u8>,
)
    requires
        grounded(b, v),
        v.size == b.len(),
        r.key.len() == 32,
        !is_tombstone(r.flags),
        104 + r.value.len() <= u32::MAX,
        v.entries.contains_key(other),
        other != r.key,
    ensures
        ({
            let c = b + record::record_bytes(r, v.anchor);
            let u = v.applied(r, v.size, (104 + r.value.len()) as u32);
            &&& grounded(c, u)
            &&& u.entries.contains_key(r.key)
            &&& value_in(c, u, r.key) == r.value
            &&& u.entries.contains_key(other)
            &&& value_in(c, u, other) == value_in(b, v, other)
        }),
{
    let x = record::record_bytes(r, v.anchor);
    let c = b + x;
    let n = 104 + r.value.len() as int;
    let u = v.applied(r, v.size, n as u32);
    record::law_record_reads_back(r, v.anchor);
    assert(c.subrange(b.len() as int, b.len() + n) =~= x.subrange(0, n));
    record::law_record_may_be_moved(x, 0, c, b.len() as int, n, v.anchor, r);
    assert forall|k: Seq<u8>| #[trigger] v.entries.contains_key(k) && k != r.key implies
        u.entries.contains_key(k) && is_record_of(c, u.anchor, k, u.entries[k]) && value_in(c, u, k)
        == value_in(b, v, k) by {
        let m = v.entries[k];
        assert(is_record_of(b, v.anchor, k, m));
        let (q, l) = record::record_at(b, m.offset as int, v.anchor)->Ok_0;
        record::lemma_record_length(b, m.offset as int, v.anchor);
        assert(c.subrange(m.offset as int, m.offset + l) =~= b.subrange(
            m.offset as int,
            m.offset + l,
        ));
        record::law_record_may_be_moved(
            b,
            m.offset as int,
            c,
            m.offset as int,
            l,
            v.anchor,
            q,
        );
    }
}

// ---------------------------------------------------------------- compaction

/// The view of listed entries.
pub open spec fn pairs_view(v: Seq<(EntryKey, EntryMeta)>) -> Seq<(Seq<u8>, EntryMeta)> {
    Seq::new(v.len(), |i: int| (v[i].0@, v[i].1))
}

/// Whether a list has every entry once.
pub open spec fn lists(order: Seq<(Seq<u8>, EntryMeta)>, entries: Map<Seq<u8>, EntryMeta>) -> bool {
    &&& forall|i: int|
        0 <= i < order.len() ==> entries.contains_key((#[trigger] order[i]).0)
            && entries[order[i].0] == order[i].1
    &&& forall|i: int, j: int|
        0 <= i < j < order.len() ==> (#[trigger] order[i]).0 != (#[trigger] order[j]).0
    &&& forall|k: Seq<u8>| #[trigger]
        entries.contains_key(k) ==> exists|i: int| 0 <= i < order.len() && (#[trigger] order[i]).0 == k
}

/// Whether a list goes by sequence number.
pub open spec fn by_age(order: Seq<(Seq<u8>, EntryMeta)>) -> bool {
    forall|i: int, j: int|
        0 <= i <= j < order.len() ==> (#[trigger] order[i]).1.anchor_seq <= (
        #[trigger] order[j]).1.anchor_seq
}

/// A file of the first `n` records of a list, copied from another file.
pub open spec fn packed(b: Seq<u8>, order: Seq<(Seq<u8>, EntryMeta)>, n: nat) -> Seq<u8>
    decreases n,
{
    if n == 0 {
        header()
    } else {
        let m = order[n - 1].1;
        packed(b, order, (n - 1) as nat) + b.subrange(m.offset as int, m.offset + m.size)
    }
}

/// Whether every entry of a list lies within a file.
pub open spec fn lie_within(order: Seq<(Seq<u8>, EntryMeta)>, len: nat) -> bool {
    forall|i: int| 0 <= i < order.len() ==> (#[trigger] order[i]).1.offset + order[i].1.size <= len
}

/// Whether `out` is a compaction of a file.
pub open spec fn compacted(b: Seq<u8>, v: StoreView, out: Seq<u8>) -> bool {
    exists|order: Seq<(Seq<u8>, EntryMeta)>| #[trigger]
        lists(order, v.entries) && by_age(order) && lie_within(order, b.len()) && out == packed(
            b,
            order,
            order.len(),
        )
}

/// `slice::sort_by_key` by sequence number. It is claimed that the elements are those there were, in
/// ascending order of their sequence numbers.
#[verifier::external_body]
fn sort_by_age(v: &mut Vec<(EntryKey, EntryMeta)>)
    ensures
        final(v)@.to_multiset() == old(v)@.to_multiset(),
        forall|i: int, j: int|
            0 <= i <= j < final(v)@.len() ==> (#[trigger] final(v)@[i]).1.anchor_seq <= (
            #[trigger] final(v)@[j]).1.anchor_seq,
{
    v.sort_by_key(|e| e.1.anchor_seq);
}

/// A rearranged list lists the same entries.
proof fn lemma_rearranged(
    a: Seq<(EntryKey, EntryMeta)>,
    b: Seq<(EntryKey, EntryMeta)>,
    entries: Map<Seq<u8>, EntryMeta>,
)
    requires
        lists(pairs_view(a), entries),
        a.to_multiset() == b.to_multiset(),
    ensures
        lists(pairs_view(b), entries),
{
    broadcast use vstd::seq_lib::group_to_multiset_ensures;

    let av = pairs_view(a);
    let bv = pairs_view(b);
    assert(a.no_duplicates()) by {
        assert forall|i: int, j: int| 0 <= i < a.len() && 0 <= j < a.len() && i != j implies a[i]
            != a[j] by {
            if i < j {
                assert(av[i].0 != av[j].0);
            } else {
                assert(av[j].0 != av[i].0);
            }
        }
    }
    a.lemma_multiset_has_no_duplicates();
    b.lemma_multiset_has_no_duplicates_conv();
    assert forall|i: int| 0 <= i < bv.len() implies entries.contains_key((#[trigger] bv[i]).0)
        && entries[bv[i].0] == bv[i].1 by {
        assert(b.contains(b[i]));
        assert(b.to_multiset().contains(b[i]));
        assert(a.contains(b[i]));
        let j = choose|j: int| 0 <= j < a.len() && a[j] == b[i];
        assert(av[j] == bv[i]);
    }
    assert forall|i: int, j: int| 0 <= i < j < bv.len() implies (#[trigger] bv[i]).0 != (
    #[trigger] bv[j]).0 by {
        if bv[i].0 == bv[j].0 {
            assert(entries[bv[i].0] == bv[i].1);
            assert(entries[bv[j].0] == bv[j].1);
            assert(b[i].0 =~= b[j].0);
            assert(b[i] == b[j]);
        }
    }
    assert forall|k: Seq<u8>| #[trigger] entries.contains_key(k) implies exists|i: int|
        0 <= i < bv.len() && (#[trigger] bv[i]).0 == k by {
        let j = choose|j: int| 0 <= j < av.len() && (#[trigger] av[j]).0 == k;
        assert(a.contains(a[j]));
        assert(a.to_multiset().contains(a[j]));
        assert(b.contains(a[j]));
        let i = choose|i: int| 0 <= i < b.len() && b[i] == a[j];
        assert(bv[i].0 == k);
    }
}

/// Whether a list has the entries of an index, in the order of its keys.
spec fn listed_by(
    r: Seq<(EntryKey, EntryMeta)>,
    ks: Seq<(u128, u128)>,
    m: Map<(u128, u128), EntryMeta>,
) -> bool {
    &&& r.len() == ks.len()
    &&& forall|j: int|
        0 <= j < r.len() ==> (#[trigger] r[j]).0@ == unsplit(ks[j]) && m.contains_key(ks[j]) && r[j].1
            == m[ks[j]]
}

proof fn lemma_listed(
    r: Seq<(EntryKey, EntryMeta)>,
    ks: Seq<(u128, u128)>,
    m: Map<(u128, u128), EntryMeta>,
)
    requires
        listed_by(r, ks, m),
        ks.no_duplicates(),
        ks.to_set() == m.dom(),
    ensures
        lists(pairs_view(r), entries_of(m)),
{
    let rv = pairs_view(r);
    let es = entries_of(m);
    assert forall|i: int| 0 <= i < rv.len() implies es.contains_key((#[trigger] rv[i]).0)
        && es[rv[i].0] == rv[i].1 by {
        assert(r[i].0@ == unsplit(ks[i]));
        lemma_unsplit(ks[i]);
    }
    assert forall|i: int, j: int| 0 <= i < j < rv.len() implies (#[trigger] rv[i]).0 != (
    #[trigger] rv[j]).0 by {
        assert(r[i].0@ == unsplit(ks[i]));
        assert(r[j].0@ == unsplit(ks[j]));
        lemma_unsplit(ks[i]);
        lemma_unsplit(ks[j]);
        assert(ks[i] != ks[j]);
    }
    assert forall|k: Seq<u8>| #[trigger] es.contains_key(k) implies exists|i: int|
        0 <= i < rv.len() && (#[trigger] rv[i]).0 == k by {
        lemma_split(k);
        assert(ks.to_set().contains(split(k)));
        let i = choose|i: int| 0 <= i < ks.len() && ks[i] == split(k);
        assert(r[i].0@ == unsplit(ks[i]));
        assert(rv[i].0 == k);
    }
}

impl Store {
    /// The live entries, each once, in no order that is promised.
    pub fn iter(&self) -> (r: Vec<(EntryKey, EntryMeta)>)
        ensures
            lists(pairs_view(r@), self@.entries),
    {
        let mut r: Vec<(EntryKey, EntryMeta)> = Vec::new();
        let ghost mut ks: Seq<(u128, u128)> = Seq::empty();
        let ghost m = self.index@;
        for k in it: self.index.keys()
            invariant
                m == self.index@,
                r@.len() == it.index(),
                it.seq().unref().to_set() == m.dom(),
                it.seq().no_duplicates(),
                ks == it.seq().unref().take(it.index() as int),
                it.index() == it.seq().len() ==> ks == it.seq().unref(),
                listed_by(r@, ks, m),
        {
            assert(it.seq().unref()[it.index() as int] == *k);
            assert(it.seq().unref().contains(*k));
            assert(it.seq().unref().to_set().contains(*k));
            match self.index.get(k) {
                Some(x) => {
                    r.push((join_key(*k), *x));
                },
                None => {},
            }
            assert(it.seq().unref().take(it.index() as int + 1) =~= ks.push(*k));
            proof {
                ks = ks.push(*k);
            }
            assert(it.index() + 1 == it.seq().len() ==> ks =~= it.seq().unref());
        }
        proof {
            assert(ks.to_set() == m.dom());
            assert(ks.no_duplicates());
            lemma_listed(r@, ks, m);
        }
        r
    }
}

impl Store {
    /// The bytes of a fresh file with the live records alone, oldest first, copied from the bytes of
    /// this store's file. Putting it in place of the old one is the caller's.
    pub fn compact_to(&self, file: &[u8]) -> (r: Result<Vec<u8>>)
        ensures
            match r {
                Ok(out) => compacted(file@, self@, out@),
                Err(e) => e@ == error::corrupt("record body extends past file end") && exists|
                    k: Seq<u8>,
                | #[trigger]
                    self@.entries.contains_key(k) && self@.entries[k].offset + self@.entries[k].size
                        > file@.len(),
            },
    {
        let mut order = self.iter();
        let ghost before = order@;
        sort_by_age(&mut order);
        let ghost ov = pairs_view(order@);
        proof {
            lemma_rearranged(before, order@, self@.entries);
        }
        let mut out = file_header();
        let n: usize = file.len();
        let mut i: usize = 0;
        while i < order.len()
            invariant
                i <= order@.len(),
                n == file@.len(),
                ov == pairs_view(order@),
                lists(ov, self@.entries),
                out@ == packed(file@, ov, i as nat),
                forall|j: int|
                    0 <= j < i ==> (#[trigger] ov[j]).1.offset + ov[j].1.size <= file@.len(),
            decreases order@.len() - i,
        {
            let m: EntryMeta = order[i].1;
            assert(ov[i as int].1 == m);
            let size: u64 = m.size as u64;
            if m.offset > n as u64 || size > n as u64 - m.offset {
                assert(self@.entries.contains_key(ov[i as int].0));
                return Err(corrupt_err("record body extends past file end"));
            }
            let from: usize = m.offset as usize;
            let part = sliced(file, from, from + size as usize);
            out.extend_from_slice(part.as_slice());
            i = i + 1;
            assert(out@ =~= packed(file@, ov, i as nat));
        }
        assert(by_age(ov)) by {
            assert forall|i: int, j: int| 0 <= i <= j < ov.len() implies (
            #[trigger] ov[i]).1.anchor_seq <= (#[trigger] ov[j]).1.anchor_seq by {
                assert(order@[i].1.anchor_seq <= order@[j].1.anchor_seq);
            }
        }
        Ok(out)
    }
}

/// What a file of copied records replays to, whatever the places are.
proof fn lemma_packed(b: Seq<u8>, v: StoreView, order: Seq<(Seq<u8>, EntryMeta)>, n: nat)
    requires
        grounded(b, v),
        lists(order, v.entries),
        n <= order.len(),
        packed(b, order, order.len()).len() <= u64::MAX,
    ensures
        packed(b, order, n).len() <= packed(b, order, order.len()).len(),
        packed(b, order, n).take(8) == header(),
        ({
            let c = packed(b, order, n);
            let r = replayed(c, 8, fresh(v.anchor), 0);
            &&& r.end == c.len()
            &&& r.store.wasted == 0
            &&& r.store.anchor == v.anchor
            &&& forall|k: Seq<u8>| #[trigger]
                r.store.entries.contains_key(k) ==> exists|j: int|
                    0 <= j < n && (#[trigger] order[j]).0 == k
            &&& forall|j: int|
                0 <= j < n ==> r.store.entries.contains_key((#[trigger] order[j]).0) && record_in(
                    c,
                    r.store,
                    order[j].0,
                ) == record_in(b, v, order[j].0) && is_record_of(
                    c,
                    v.anchor,
                    order[j].0,
                    r.store.entries[order[j].0],
                )
        }),
{
    lemma_packed_at(b, v, order, n);
}

/// What a file of copied records replays to.
#[verifier::rlimit(60)]
proof fn lemma_packed_at(b: Seq<u8>, v: StoreView, order: Seq<(Seq<u8>, EntryMeta)>, n: nat)
    requires
        grounded(b, v),
        lists(order, v.entries),
        n <= order.len(),
        packed(b, order, order.len()).len() <= u64::MAX,
    ensures
        packed(b, order, n).len() <= packed(b, order, order.len()).len(),
        packed(b, order, n).take(8) == header(),
        ({
            let c = packed(b, order, n);
            let r = replayed(c, 8, fresh(v.anchor), 0);
            &&& r.end == c.len()
            &&& r.store.wasted == 0
            &&& r.store.anchor == v.anchor
            &&& forall|k: Seq<u8>| #[trigger]
                r.store.entries.contains_key(k) ==> exists|j: int|
                    0 <= j < n && (#[trigger] order[j]).0 == k
            &&& forall|j: int|
                0 <= j < n ==> r.store.entries.contains_key((#[trigger] order[j]).0) && record_in(
                    c,
                    r.store,
                    order[j].0,
                ) == record_in(b, v, order[j].0) && is_record_of(
                    c,
                    v.anchor,
                    order[j].0,
                    r.store.entries[order[j].0],
                ) && r.store.entries[order[j].0].offset == packed(b, order, j as nat).len()
        }),
    decreases n,
{
    lemma_packed_grows(b, order, n, order.len());
    let c = packed(b, order, n);
    if n == 0 {
        assert(c.take(8) =~= header());
        assert(record::record_at(c, 8, v.anchor) is Err);
    } else {
        let m = (n - 1) as nat;
        lemma_packed_at(b, v, order, m);
        let p = packed(b, order, m);
        let (k, e) = order[m as int];
        let x = b.subrange(e.offset as int, e.offset + e.size);
        let w = replayed(p, 8, fresh(v.anchor), 0);
        assert(is_record_of(b, v.anchor, k, v.entries[k]));
        let (q, l) = record::record_at(b, e.offset as int, v.anchor)->Ok_0;
        record::lemma_record_length(b, e.offset as int, v.anchor);
        let at = p.len() as int;
        lemma_replay_end(p, 8, fresh(v.anchor), 0);
        lemma_replay_longer(p, x, 8, fresh(v.anchor), 0);
        assert(c == p + x);
        assert(c.subrange(at, at + l) =~= x);
        record::law_record_may_be_moved(b, e.offset as int, c, at, l, v.anchor, q);
        let u = w.store.applied(q, at as u64, l as u32);
        assert(!w.store.entries.contains_key(k)) by {
            if w.store.entries.contains_key(k) {
                let j = choose|j: int| 0 <= j < m && (#[trigger] order[j]).0 == k;
                assert(order[j].0 != order[m as int].0);
            }
        }
        let r = replayed(c, 8, fresh(v.anchor), 0);
        let top = if q.seq > w.top {
            q.seq
        } else {
            w.top
        };
        assert(w.store.anchor == v.anchor);
        assert(r == replayed(c, at, w.store, w.top));
        assert(r == replayed(c, at + l, u, top));
        assert(record::record_at(c, at + l, u.anchor) is Err);
        assert(r.store == u);
        assert(c.take(8) =~= p.take(8));
        assert forall|j: int| 0 <= j < n implies r.store.entries.contains_key(
            (#[trigger] order[j]).0,
        ) && record_in(c, r.store, order[j].0) == record_in(b, v, order[j].0) && is_record_of(
            c,
            v.anchor,
            order[j].0,
            r.store.entries[order[j].0],
        ) && r.store.entries[order[j].0].offset == packed(b, order, j as nat).len() by {
            if j < m {
                assert(order[j].0 != order[m as int].0);
                let mj = w.store.entries[order[j].0];
                assert(is_record_of(p, v.anchor, order[j].0, mj));
                let (qj, lj) = record::record_at(p, mj.offset as int, v.anchor)->Ok_0;
                record::lemma_record_length(p, mj.offset as int, v.anchor);
                assert(c.subrange(mj.offset as int, mj.offset + lj) =~= p.subrange(
                    mj.offset as int,
                    mj.offset + lj,
                ));
                record::law_record_may_be_moved(
                    p,
                    mj.offset as int,
                    c,
                    mj.offset as int,
                    lj,
                    v.anchor,
                    qj,
                );
            }
        }
        assert forall|h: Seq<u8>| #[trigger] r.store.entries.contains_key(h) implies exists|j: int|
            0 <= j < n && (#[trigger] order[j]).0 == h by {
            if h == k {
                assert(order[m as int].0 == h);
            } else {
                assert(w.store.entries.contains_key(h));
            }
        }
    }
}

proof fn lemma_packed_grows(b: Seq<u8>, order: Seq<(Seq<u8>, EntryMeta)>, n: nat, m: nat)
    requires
        n <= m,
    ensures
        packed(b, order, n).len() <= packed(b, order, m).len(),
    decreases m,
{
    if n < m {
        lemma_packed_grows(b, order, n, (m - 1) as nat);
    }
}

/// Law: a compaction keeps every live value and nothing else: the compacted file opens whole, with
/// the same keys, the same value under each of them, and no waste.
#[verifier::rlimit(40)]
#[verifier::spinoff_prover]
pub proof fn law_compaction_keeps_every_value(b: Seq<u8>, v: StoreView, out: Seq<u8>)
    requires
        grounded(b, v),
        compacted(b, v, out),
        out.len() <= u64::MAX,
    ensures
        opened(out, v.anchor) matches Ok((u, w)) && {
            &&& w == Recovery::Sound
            &&& u.entries.dom() == v.entries.dom()
            &&& u.wasted == 0
            &&& forall|k: Seq<u8>| #[trigger]
                v.entries.contains_key(k) ==> value_in(out, u, k) == value_in(b, v, k)
                    && u.entries[k].type_tag == v.entries[k].type_tag && u.entries[k].flags
                    == v.entries[k].flags && u.entries[k].created_at == v.entries[k].created_at
                    && u.entries[k].expires_at == v.entries[k].expires_at
                    && u.entries[k].anchor_seq == v.entries[k].anchor_seq && u.entries[k].size
                    == v.entries[k].size
        },
{
    let order = choose|order: Seq<(Seq<u8>, EntryMeta)>| #[trigger]
        lists(order, v.entries) && by_age(order) && lie_within(order, b.len()) && out == packed(
            b,
            order,
            order.len(),
        );
    lemma_packed(b, v, order, order.len());
    assert(out.take(8) == header());
    assert(out.take(4) =~= out.take(8).take(4));
    assert(out.subrange(4, 8) =~= header().subrange(4, 8)) by {
        assert(out.subrange(4, 8) =~= out.take(8).subrange(4, 8));
    }
    record::lemma_zero_num(out, 4);
    let u = opened(out, v.anchor)->Ok_0.0;
    assert forall|k: Seq<u8>| #[trigger] u.entries.dom().contains(k) == v.entries.dom().contains(
        k,
    ) by {
        if v.entries.contains_key(k) {
            let i = choose|i: int| 0 <= i < order.len() && (#[trigger] order[i]).0 == k;
            assert(u.entries.contains_key(order[i].0));
        }
        if u.entries.contains_key(k) {
            let j = choose|j: int| 0 <= j < order.len() && (#[trigger] order[j]).0 == k;
            assert(v.entries.contains_key(order[j].0));
        }
    }
    assert(u.entries.dom() =~= v.entries.dom());
    assert forall|k: Seq<u8>| #[trigger] v.entries.contains_key(k) implies value_in(out, u, k)
        == value_in(b, v, k) && u.entries[k] == (EntryMeta {
        offset: u.entries[k].offset,
        ..v.entries[k]
    }) by {
        let i = choose|i: int| 0 <= i < order.len() && (#[trigger] order[i]).0 == k;
        assert(u.entries.contains_key(order[i].0));
        assert(is_record_of(b, v.anchor, k, v.entries[k]));
        lemma_same_record(b, v, out, u, k);
    }
}

/// Law: a compaction lays the records out by age, the oldest first, with nothing between them.
pub proof fn law_compaction_goes_by_age(
    b: Seq<u8>,
    v: StoreView,
    out: Seq<u8>,
    k: Seq<u8>,
    l: Seq<u8>,
)
    requires
        grounded(b, v),
        compacted(b, v, out),
        out.len() <= u64::MAX,
        v.entries.contains_key(k),
        v.entries.contains_key(l),
        v.entries[k].anchor_seq < v.entries[l].anchor_seq,
    ensures
        opened(out, v.anchor) matches Ok((u, _)) && u.entries[k].offset + u.entries[k].size
            <= u.entries[l].offset,
{
    law_compaction_keeps_every_value(b, v, out);
    let order = choose|order: Seq<(Seq<u8>, EntryMeta)>| #[trigger]
        lists(order, v.entries) && by_age(order) && lie_within(order, b.len()) && out == packed(
            b,
            order,
            order.len(),
        );
    lemma_packed_at(b, v, order, order.len());
    let i = choose|i: int| 0 <= i < order.len() && (#[trigger] order[i]).0 == k;
    let j = choose|j: int| 0 <= j < order.len() && (#[trigger] order[j]).0 == l;
    assert(order[i].1.anchor_seq < order[j].1.anchor_seq);
    assert(i < j);
    lemma_packed_grows(b, order, (i + 1) as nat, j as nat);
    let u = opened(out, v.anchor)->Ok_0.0;
    assert(u.entries[order[i].0].offset == packed(b, order, i as nat).len());
    assert(u.entries[order[j].0].offset == packed(b, order, j as nat).len());
    assert(order[i].1.offset + order[i].1.size <= b.len());
}

}
