//! Two stores as one: the same records in two files, so that either file alone is enough.
//!
//! Writes go to both files; reads come from the first that is healthy. A file that fails a write is
//! dropped for the session, and the pair is degraded from there on. On opening, a file that lags
//! behind is replaced by a copy of the other one: every write is synced, so the bytes of the file
//! with the higher sequence number are always a complete store.
//!
//! Copying, reading and writing files is the caller's; what to copy, where to write and whether a
//! write was accepted is decided here.
use vstd::prelude::*;
use crate::error;
use crate::error::{corrupt_err, Result};
use crate::record;
use crate::record::EntryKey;
use crate::store;
use crate::store::{EntryMeta, Pending, Store, StoreView};

verus! {

/// Two stores as one.
pub struct DualStore {
    pub first: Option<Store>,
    pub second: Option<Store>,
    pub degraded: bool,
}

/// The mathematical view of two stores as one.
#[verifier::ext_equal]
pub struct DualView {
    pub first: Option<StoreView>,
    pub second: Option<StoreView>,
    pub degraded: bool,
}

/// The view of a store that may be missing.
pub open spec fn ring_view(s: Option<Store>) -> Option<StoreView> {
    match s {
        Some(x) => Some(x@),
        None => None,
    }
}

impl View for DualStore {
    type V = DualView;

    open spec fn view(&self) -> DualView {
        DualView {
            first: ring_view(self.first),
            second: ring_view(self.second),
            degraded: self.degraded,
        }
    }
}

impl DualView {
    /// One of the two stores.
    pub open spec fn ring(self, i: int) -> Option<StoreView> {
        if i == 0 {
            self.first
        } else {
            self.second
        }
    }

    /// The pair with one of the two replaced.
    pub open spec fn with_ring(self, i: int, s: Option<StoreView>) -> DualView {
        if i == 0 {
            DualView { first: s, ..self }
        } else {
            DualView { second: s, ..self }
        }
    }

    /// The pair without one of the two, which it notes.
    pub open spec fn without(self, i: int) -> DualView {
        DualView { degraded: true, ..self.with_ring(i, None) }
    }

    /// The first store that is there.
    pub open spec fn reader(self) -> Option<int> {
        if self.first is Some {
            Some(0)
        } else if self.second is Some {
            Some(1)
        } else {
            None
        }
    }
}

/// The highest sequence number of a store.
pub open spec fn seq_of(v: StoreView) -> int {
    if v.next_seq == 0 {
        0
    } else {
        v.next_seq - 1
    }
}

/// What is to be done with two files that were opened.
pub enum Opening {
    /// They agree: the pair is ready.
    Ready(DualStore),
    /// The file `from` is ahead: close both, copy it over the other, and open both again.
    Heal { from: usize },
    /// Only the file `from` opened: copy it over the other, and try to open that one again.
    Repair { from: usize, survivor: Store },
}

impl DualStore {
    /// What two openings come to.
    pub fn open_or_create(r0: Result<Store>, r1: Result<Store>) -> (r: Result<Opening>)
        ensures
            match (r0, r1) {
                (Ok(a), Ok(b)) => if seq_of(a@) == seq_of(b@) {
                    r matches Ok(Opening::Ready(d)) && d@ == (DualView {
                        first: Some(a@),
                        second: Some(b@),
                        degraded: false,
                    })
                } else if seq_of(a@) > seq_of(b@) {
                    r matches Ok(Opening::Heal { from }) && from == 0
                } else {
                    r matches Ok(Opening::Heal { from }) && from == 1
                },
                (Ok(a), Err(_)) => r matches Ok(Opening::Repair { from, survivor }) && from == 0
                    && survivor == a,
                (Err(_), Ok(b)) => r matches Ok(Opening::Repair { from, survivor }) && from == 1
                    && survivor == b,
                (Err(e), Err(_)) => r matches Err(f) && f == e,
            },
            r0 matches Ok(a) ==> r1 matches Ok(b) ==> {
                &&& a@.next_seq > b@.next_seq > 0 ==> (r matches Ok(Opening::Heal { from }) && from
                    == 0)
                &&& b@.next_seq > a@.next_seq > 0 ==> (r matches Ok(Opening::Heal { from }) && from
                    == 1)
                &&& a@.next_seq == b@.next_seq ==> (r matches Ok(Opening::Ready(d))
                    && d.first matches Some(x) && d.second matches Some(y) && x@ == a@ && y@ == b@
                    && !d.degraded)
            },
    {
        match (r0, r1) {
            (Ok(a), Ok(b)) => {
                let sa: u64 = a.anchor_seq();
                let sb: u64 = b.anchor_seq();
                if sa == sb {
                    Ok(
                        Opening::Ready(
                            DualStore { first: Some(a), second: Some(b), degraded: false },
                        ),
                    )
                } else if sa > sb {
                    Ok(Opening::Heal { from: 0 })
                } else {
                    Ok(Opening::Heal { from: 1 })
                }
            },
            (Ok(a), Err(_)) => Ok(Opening::Repair { from: 0, survivor: a }),
            (Err(_), Ok(b)) => Ok(Opening::Repair { from: 1, survivor: b }),
            (Err(e), Err(_)) => Err(e),
        }
    }

    /// The pair after a file was copied over the one that lagged behind. It is degraded where
    /// either of the two does not open.
    pub fn healed(from: usize, source: Option<Store>, copy: Option<Store>) -> (d: Self)
        requires
            from < 2,
        ensures
            d@.ring(from as int) == ring_view(source),
            d@.ring(1 - from) == ring_view(copy),
            d@.degraded == (source is None || copy is None),
            from == 0 ==> d.first == source && d.second == copy,
            from == 1 ==> d.second == source && d.first == copy,
    {
        let degraded = source.is_none() || copy.is_none();
        if from == 0 {
            DualStore { first: source, second: copy, degraded }
        } else {
            DualStore { first: copy, second: source, degraded }
        }
    }

    /// The pair after a file was copied over one that did not open. It is degraded in any case:
    /// something was wrong.
    pub fn repaired(from: usize, survivor: Store, copy: Option<Store>) -> (d: Self)
        requires
            from < 2,
        ensures
            d@.ring(from as int) == Some(survivor@),
            d@.ring(1 - from) == ring_view(copy),
            d@.degraded,
            from == 0 ==> d.first == Some(survivor) && d.second == copy,
            from == 1 ==> d.second == Some(survivor) && d.first == copy,
    {
        if from == 0 {
            DualStore { first: Some(survivor), second: copy, degraded: true }
        } else {
            DualStore { first: copy, second: Some(survivor), degraded: true }
        }
    }

    /// Drops one of the two for the session.
    pub fn failed(&mut self, ring: usize)
        requires
            ring < 2,
        ensures
            final(self)@ == old(self)@.without(ring as int),
            final(self).degraded,
            ring == 0 ==> final(self).first is None && final(self).second == old(self).second,
            ring == 1 ==> final(self).second is None && final(self).first == old(self).first,
    {
        if ring == 0 {
            self.first = None;
        } else {
            self.second = None;
        }
        self.degraded = true;
    }

    /// A put on one of the two: the record to append, where that one is there and takes it. One
    /// that does not take it is dropped.
    pub fn put(
        &mut self,
        ring: usize,
        entry_key: EntryKey,
        value: &[u8],
        type_tag: u8,
        expires_at: Option<i64>,
        now: i64,
    ) -> (r: Option<Pending>)
        requires
            ring < 2,
            104 + value@.len() <= u32::MAX,
        ensures
            staged(
                old(self)@,
                final(self)@,
                ring as int,
                r,
                |seq: u64| store::put_record(entry_key@, value@, type_tag, expires_at, now, seq),
                value@.len(),
            ),
            ring == 0 ==> final(self).second == old(self).second,
            ring == 1 ==> final(self).first == old(self).first,
            r matches Some(p) ==> {
                &&& p.record.entry_key@ == entry_key@
                &&& p.record.value@ == value@
                &&& p.record.type_tag == type_tag
                &&& p.record.created_at == now
                &&& expires_at matches Some(t) ==> p.record.expires_at == t && p.record.flags == 4
                &&& expires_at is None ==> p.record.expires_at == 0 && p.record.flags == 0
                &&& ring == 0 ==> (old(self).first matches Some(s) && p.record.anchor_seq
                    == s@.next_seq && p.offset == s@.size)
                &&& ring == 1 ==> (old(self).second matches Some(s) && p.record.anchor_seq
                    == s@.next_seq && p.offset == s@.size)
            },
    {
        let got = if ring == 0 {
            match &mut self.first {
                Some(s) => s.put(entry_key, value, type_tag, expires_at, now),
                None => return None,
            }
        } else {
            match &mut self.second {
                Some(s) => s.put(entry_key, value, type_tag, expires_at, now),
                None => return None,
            }
        };
        match got {
            Ok(p) => Some(p),
            Err(_) => {
                self.failed(ring);
                None
            },
        }
    }

    /// A deletion on one of the two, as `put`.
    pub fn delete(&mut self, ring: usize, entry_key: &EntryKey, now: i64) -> (r: Option<Pending>)
        requires
            ring < 2,
        ensures
            staged(
                old(self)@,
                final(self)@,
                ring as int,
                r,
                |seq: u64| store::tombstone(entry_key@, now, seq),
                0,
            ),
            ring == 0 ==> final(self).second == old(self).second,
            ring == 1 ==> final(self).first == old(self).first,
            r matches Some(p) ==> {
                &&& p.record.entry_key@ == entry_key@
                &&& p.record.flags == 1
                &&& p.record.value@.len() == 0
                &&& p.record.created_at == now
                &&& ring == 0 ==> (old(self).first matches Some(s) && p.record.anchor_seq
                    == s@.next_seq && p.offset == s@.size)
                &&& ring == 1 ==> (old(self).second matches Some(s) && p.record.anchor_seq
                    == s@.next_seq && p.offset == s@.size)
            },
    {
        let got = if ring == 0 {
            match &mut self.first {
                Some(s) => s.delete(entry_key, now),
                None => return None,
            }
        } else {
            match &mut self.second {
                Some(s) => s.delete(entry_key, now),
                None => return None,
            }
        };
        match got {
            Ok(p) => Some(p),
            Err(_) => {
                self.failed(ring);
                None
            },
        }
    }
}

/// What staging a record on one of the two does.
pub open spec fn staged(
    d0: DualView,
    d1: DualView,
    i: int,
    r: Option<Pending>,
    rec: spec_fn(u64) -> record::RecordView,
    len: nat,
) -> bool {
    match d0.ring(i) {
        None => r is None && d1 == d0,
        Some(v) => if v.next_seq < u64::MAX && v.size + 104 + len <= u64::MAX {
            &&& r matches Some(p) && p.record@ == rec(v.next_seq) && p.offset == v.size && p.bytes@
                == record::record_bytes(rec(v.next_seq), v.anchor) && p.bytes@.len() == 104 + len
            &&& d1 == d0.with_ring(
                i,
                Some(StoreView { next_seq: (v.next_seq + 1) as u64, ..v }),
            )
        } else {
            r is None && d1 == d0.without(i)
        },
    }
}

impl DualStore {
    /// Takes note that a record was written to one of the two and is durable.
    pub fn landed(&mut self, ring: usize, p: Pending)
        requires
            ring < 2,
            p.bytes@.len() <= u32::MAX,
            old(self)@.ring(ring as int) matches Some(v) ==> v.size + p.bytes@.len() <= u64::MAX,
        ensures
            final(self)@ == (match old(self)@.ring(ring as int) {
                None => old(self)@,
                Some(v) => old(self)@.with_ring(
                    ring as int,
                    Some(
                        (StoreView { size: (v.size + p.bytes@.len()) as u64, ..v }).applied(
                            p.record@,
                            p.offset,
                            p.bytes@.len() as u32,
                        ),
                    ),
                ),
            }),
            ring == 0 ==> final(self).second == old(self).second,
            ring == 1 ==> final(self).first == old(self).first,
            final(self).degraded == old(self).degraded,
            ring == 0 ==> (old(self).first matches Some(s) ==> final(self).first matches Some(t)
                && t@.entries.contains_key(p.record.entry_key@) == (p.record.flags % 2 == 0)
                && store::same_but(t@, s@, p.record.entry_key@)),
            ring == 1 ==> (old(self).second matches Some(s) ==> final(self).second matches Some(t)
                && t@.entries.contains_key(p.record.entry_key@) == (p.record.flags % 2 == 0)
                && store::same_but(t@, s@, p.record.entry_key@)),
    {
        if ring == 0 {
            if let Some(s) = &mut self.first {
                s.landed(p);
            }
        } else {
            if let Some(s) = &mut self.second {
                s.landed(p);
            }
        }
    }

    /// Whether a write counts: it does where it landed in either of the two.
    pub fn accept_write(any_ok: bool) -> (r: Result<()>)
        ensures
            any_ok ==> r is Ok,
            !any_ok ==> (r matches Err(e) && e@ == error::corrupt(
                "both rings failed to accept write",
            )),
    {
        if any_ok {
            Ok(())
        } else {
            Err(corrupt_err("both rings failed to accept write"))
        }
    }

    /// Whether a deletion counts, as `accept_write`.
    pub fn accept_delete(any_ok: bool) -> (r: Result<()>)
        ensures
            any_ok ==> r is Ok,
            !any_ok ==> (r matches Err(e) && e@ == error::corrupt(
                "both rings failed to accept delete",
            )),
    {
        if any_ok {
            Ok(())
        } else {
            Err(corrupt_err("both rings failed to accept delete"))
        }
    }

    /// Which of the two to read a key from, and where its record lies there.
    pub fn get(&self, entry_key: &EntryKey) -> (r: Result<(usize, Option<EntryMeta>)>)
        ensures
            match self@.reader() {
                None => r matches Err(e) && e@ == error::corrupt("no readable ring"),
                Some(i) => r matches Ok((j, m)) && j == i && ({
                    let v = self@.ring(i)->0;
                    m == (if v.entries.contains_key(entry_key@) {
                        Some(v.entries[entry_key@])
                    } else {
                        None
                    })
                }),
            },
            self.first is None && self.second is None ==> r is Err,
            self.first matches Some(s) ==> (r matches Ok((j, m)) && j == 0 && m is Some
                == s@.entries.contains_key(entry_key@) && (m matches Some(x) ==> x
                == s@.entries[entry_key@])),
            self.first is None ==> (self.second matches Some(s) ==> (r matches Ok((j, m)) && j == 1
                && m is Some == s@.entries.contains_key(entry_key@) && (m matches Some(x) ==> x
                == s@.entries[entry_key@]))),
    {
        if let Some(s) = &self.first {
            return Ok((0, s.get(entry_key)));
        }
        if let Some(s) = &self.second {
            return Ok((1, s.get(entry_key)));
        }
        Err(corrupt_err("no readable ring"))
    }

    /// Whether one of the two needed repair on opening, or failed since.
    pub fn degraded(&self) -> (r: bool)
        ensures
            r == self@.degraded,
    {
        self.degraded
    }

    /// The number of live entries of the first store that is there.
    pub fn len(&self) -> (n: usize)
        ensures
            match self@.reader() {
                None => n == 0,
                Some(i) => n == (self@.ring(i)->0).entries.dom().len(),
            },
            self.first matches Some(s) ==> n == s@.entries.dom().len(),
            self.first is None ==> (self.second matches Some(s) ==> n == s@.entries.dom().len()),
    {
        if let Some(s) = &self.first {
            return s.len();
        }
        if let Some(s) = &self.second {
            return s.len();
        }
        0
    }

    pub fn is_empty(&self) -> (r: bool)
        ensures
            match self@.reader() {
                None => r,
                Some(i) => r == ((self@.ring(i)->0).entries.dom().len() == 0),
            },
    {
        self.len() == 0
    }

    /// The highest sequence number of the stores that are there.
    pub fn anchor_seq(&self) -> (n: u64)
        ensures
            n == (match (self@.first, self@.second) {
                (Some(a), Some(b)) => if seq_of(a) >= seq_of(b) {
                    seq_of(a)
                } else {
                    seq_of(b)
                },
                (Some(a), None) => seq_of(a),
                (None, Some(b)) => seq_of(b),
                (None, None) => 0,
            }),
            self.first matches Some(s) ==> s@.next_seq <= n + 1,
            self.second matches Some(s) ==> s@.next_seq <= n + 1,
            n > 0 ==> (self.first matches Some(s) && s@.next_seq == n + 1) || (
            self.second matches Some(s) && s@.next_seq == n + 1),
    {
        let a: u64 = match &self.first {
            Some(s) => s.anchor_seq(),
            None => 0,
        };
        let b: u64 = match &self.second {
            Some(s) => s.anchor_seq(),
            None => 0,
        };
        if a >= b {
            a
        } else {
            b
        }
    }
}

// ---------------------------------------------------------------- laws

/// The pair after a record landed in one of the two.
pub open spec fn with_record(d: DualView, i: int, r: record::RecordView, n: u32) -> DualView {
    match d.ring(i) {
        None => d,
        Some(v) => d.with_ring(
            i,
            Some(
                (StoreView {
                    next_seq: (v.next_seq + 1) as u64,
                    size: (v.size + n) as u64,
                    ..v
                }).applied(r, v.size, n),
            ),
        ),
    }
}

/// Law: two stores that agree and take the same record agree still.
pub proof fn law_stores_stay_in_step(d: DualView, r: record::RecordView, n: u32)
    requires
        d.first is Some,
        d.first == d.second,
    ensures
        ({
            let e = with_record(with_record(d, 0, r, n), 1, r, n);
            e.first is Some && e.first == e.second && e.degraded == d.degraded
        }),
{
}

/// Law: one store is enough: where a write failed in one of the two, the pair is degraded, and a
/// read gets what the other one has.
pub proof fn law_one_store_is_enough(d: DualView, i: int)
    requires
        0 <= i < 2,
        d.ring(1 - i) is Some,
    ensures
        d.without(i).degraded,
        d.without(i).reader() == Some(1 - i),
        d.without(i).ring(1 - i) == d.ring(1 - i),
{
}

/// Law: a record is staged on a store exactly where that one is there and has a number and a place for it. It
/// goes to the end of the file under the next number, and the other store is left alone; a store that does
/// not take it is dropped.
pub proof fn law_record_is_staged_where_there_is_room(
    d0: DualView,
    d1: DualView,
    i: int,
    r: Option<Pending>,
    rec: spec_fn(u64) -> record::RecordView,
    len: nat,
)
    requires
        0 <= i < 2,
        staged(d0, d1, i, r, rec, len),
    ensures
        r is Some <==> (d0.ring(i) matches Some(v) && v.next_seq < u64::MAX && v.size + 104 + len
            <= u64::MAX),
        r matches Some(p) ==> (d0.ring(i) matches Some(v) && p.offset == v.size && p.record@ == rec(
            v.next_seq,
        ) && p.bytes@.len() == 104 + len && (d1.ring(i) matches Some(w) && w.next_seq == v.next_seq
            + 1 && w.entries == v.entries && w.size == v.size && w.wasted == v.wasted)),
        r is None ==> d1.ring(i) is None,
        r is None && d0.ring(i) is Some ==> d1.degraded,
        d1.ring(1 - i) == d0.ring(1 - i),
        r is Some ==> d1.degraded == d0.degraded,
{
}

/// Law: a pair reads from its first store, or from the second where the first is gone.
pub proof fn law_first_store_is_read(d: DualView)
    ensures
        d.first is Some ==> d.reader() == Some(0int) && d.ring(0) == d.first,
        d.first is None && d.second is Some ==> d.reader() == Some(1int) && d.ring(1) == d.second,
        d.first is None && d.second is None ==> d.reader() is None,
{
}

/// Law: the highest number of a store is the one before its next.
pub proof fn law_highest_number_is_before_the_next(v: StoreView)
    ensures
        v.next_seq > 0 ==> seq_of(v) + 1 == v.next_seq,
        v.next_seq == 0 ==> seq_of(v) == 0,
{
}

}
