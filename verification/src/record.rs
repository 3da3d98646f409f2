//! Records: the entries of an append-only file, each of which proves itself.
//!
//! A record is a header of 104 bytes and a body. The header repeats its length and carries a keyed
//! hash of everything else, so that a torn or damaged record is found out by itself.
//!
//! | offset | bytes | field                                  |
//! |--------|-------|----------------------------------------|
//! | 0      | 4     | magic                                  |
//! | 4      | 4     | length of header and body              |
//! | 8      | 4     | the same length, complemented          |
//! | 12     | 32    | entry key                              |
//! | 44     | 1     | type tag                               |
//! | 45     | 1     | flags                                  |
//! | 46     | 2     | zero                                   |
//! | 48     | 8     | creation time                          |
//! | 56     | 8     | expiry time, 0 for never               |
//! | 64     | 8     | sequence number                        |
//! | 72     | 32    | keyed hash of bytes 0 to 72 and body   |
//! | 104    | n     | body                                   |
//!
//! Numbers are least significant byte first.
use vstd::prelude::*;
use crate::block::{array32, same_bytes, sliced};
use crate::error;
use crate::error::{corrupt_err, Error, ErrorView, Result};
use crate::wire;

verus! {

/// A 32-byte content address, supplied by the caller.
pub type EntryKey = [u8; 32];

pub const FILE_MAGIC: [u8; 4] = [0x50, 0x56, 0x44, 0x42];

pub const FORMAT_VERSION: u32 = 0;

pub const FILE_HEADER_LEN: usize = 8;

pub const RECORD_MAGIC: u32 = 0x5644_5244;

pub const RECORD_HEADER_LEN: usize = 104;

pub const HMAC_OFFSET: usize = 72;

pub const HMAC_LEN: usize = 32;

/// A record that takes its key out.
pub const FLAG_TOMBSTONE: u8 = 1;

/// A record that garbage collection leaves alone.
pub const FLAG_PINNED: u8 = 2;

/// A record whose expiry time means something.
pub const FLAG_EXPIRES: u8 = 4;

/// A record, decoded.
pub struct Record {
    pub entry_key: EntryKey,
    pub type_tag: u8,
    pub flags: u8,
    pub created_at: i64,
    pub expires_at: i64,
    pub anchor_seq: u64,
    pub value: Vec<u8>,
}

/// The mathematical view of a record.
#[verifier::ext_equal]
pub struct RecordView {
    pub key: Seq<u8>,
    pub tag: u8,
    pub flags: u8,
    pub created: i64,
    pub expires: i64,
    pub seq: u64,
    pub value: Seq<u8>,
}

impl View for Record {
    type V = RecordView;

    open spec fn view(&self) -> RecordView {
        RecordView {
            key: self.entry_key@,
            tag: self.type_tag,
            flags: self.flags,
            created: self.created_at,
            expires: self.expires_at,
            seq: self.anchor_seq,
            value: self.value@,
        }
    }
}

// ---------------------------------------------------------------- byte forms

/// `n` in `w` bytes, least significant first.
pub open spec fn le_bytes(n: nat, w: nat) -> Seq<u8>
    decreases w,
{
    if w == 0 {
        Seq::<u8>::empty()
    } else {
        seq![(n % 256) as u8] + le_bytes(n / 256, (w - 1) as nat)
    }
}

/// The number that `s` spells, least significant byte first.
pub open spec fn le(s: Seq<u8>) -> nat
    decreases s.len(),
{
    if s.len() == 0 {
        0
    } else {
        s[0] as nat + 256 * le(s.skip(1))
    }
}

/// One more than the largest number in `w` bytes.
pub open spec fn limit(w: nat) -> nat
    decreases w,
{
    if w == 0 {
        1
    } else {
        256 * limit((w - 1) as nat)
    }
}

proof fn lemma_le(n: nat, w: nat)
    requires
        n < limit(w),
    ensures
        le_bytes(n, w).len() == w,
        le(le_bytes(n, w)) == n,
    decreases w,
{
    if w > 0 {
        lemma_le(n / 256, (w - 1) as nat);
        let s = le_bytes(n, w);
        assert(s.skip(1) =~= le_bytes(n / 256, (w - 1) as nat));
        assert(s[0] == (n % 256) as u8);
    }
}

pub proof fn lemma_limits()
    ensures
        limit(4) == 0x1_0000_0000,
        limit(8) == 0x1_0000_0000_0000_0000,
{
    reveal_with_fuel(limit, 9);
}

proof fn lemma_le_bound(s: Seq<u8>)
    ensures
        le(s) < limit(s.len()),
    decreases s.len(),
{
    if s.len() > 0 {
        lemma_le_bound(s.skip(1));
    }
}

/// The keyed hash of some bytes: what `blake3::keyed_hash` returns.
pub uninterp spec fn blake3_keyed(key: Seq<u8>, data: Seq<u8>) -> [u8; 32];

/// `blake3::keyed_hash`. It is claimed that the hash depends on the key and the bytes alone.
#[verifier::external_body]
fn keyed_hash(key: &[u8; 32], data: &[u8]) -> (h: [u8; 32])
    ensures
        h == blake3_keyed(key@, data@),
{
    *blake3::keyed_hash(key, data).as_bytes()
}

/// The header of a record up to its hash.
pub open spec fn head_bytes(r: RecordView) -> Seq<u8> {
    let total = (104 + r.value.len()) as nat;
    le_bytes(0x5644_5244, 4) + le_bytes(total, 4) + le_bytes((0xffff_ffff - total) as nat, 4) + r.key
        + seq![r.tag, r.flags, 0u8, 0u8] + le_bytes(wire::twos(r.created), 8) + le_bytes(
        wire::twos(r.expires),
        8,
    ) + le_bytes(r.seq as nat, 8)
}

/// The bytes of a record under a key.
pub open spec fn record_bytes(r: RecordView, key: Seq<u8>) -> Seq<u8> {
    head_bytes(r) + blake3_keyed(key, head_bytes(r) + r.value)@ + r.value
}

/// The number in the `w` bytes at `at`.
pub open spec fn num(b: Seq<u8>, at: int, w: int) -> nat {
    le(b.subrange(at, at + w))
}

/// The record at `at`, and its length; or why there is none.
pub open spec fn record_at(b: Seq<u8>, at: int, key: Seq<u8>) -> core::result::Result<
    (RecordView, int),
    ErrorView,
> {
    if at < 0 || at + 104 > b.len() {
        Err(error::corrupt("record header truncated"))
    } else if num(b, at, 4) != 0x5644_5244 {
        Err(error::corrupt("bad record magic"))
    } else {
        let total = num(b, at + 4, 4);
        if num(b, at + 8, 4) != 0xffff_ffff - total {
            Err(error::corrupt("size redundancy check failed"))
        } else if total < 104 {
            Err(error::corrupt("record size smaller than header"))
        } else if at + total > b.len() {
            Err(error::corrupt("record body extends past file end"))
        } else {
            let value = b.subrange(at + 104, at + total);
            if blake3_keyed(key, b.subrange(at, at + 72) + value)@ != b.subrange(
                at + 72,
                at + 104,
            ) {
                Err(ErrorView::Hmac)
            } else {
                Ok(
                    (
                        RecordView {
                            key: b.subrange(at + 12, at + 44),
                            tag: b[at + 44],
                            flags: b[at + 45],
                            created: wire::untwos(num(b, at + 48, 8)),
                            expires: wire::untwos(num(b, at + 56, 8)),
                            seq: num(b, at + 64, 8) as u64,
                            value,
                        },
                        total as int,
                    ),
                )
            }
        }
    }
}

// ---------------------------------------------------------------- writing and reading

/// Appends a number, least significant byte first.
pub(crate) fn put_le(b: &mut Vec<u8>, x: u64, w: usize)
    ensures
        final(b)@ == old(b)@ + le_bytes(x as nat, w as nat),
{
    let ghost start = b@;
    let ghost whole = le_bytes(x as nat, w as nat);
    let mut y: u64 = x;
    let mut i: usize = 0;
    assert(b@ + le_bytes(y as nat, w as nat) =~= start + whole);
    while i < w
        invariant
            i <= w,
            b@ + le_bytes(y as nat, (w - i) as nat) == start + whole,
        decreases w - i,
    {
        let ghost before = b@;
        let ghost rest = le_bytes(y as nat, (w - i) as nat);
        b.push((y % 256) as u8);
        y = y / 256;
        i = i + 1;
        assert(b@ + le_bytes(y as nat, (w - i) as nat) =~= before + rest);
    }
    assert(b@ =~= start + whole);
}

/// The number in the `w` bytes at `at`.
pub(crate) fn get_le(b: &[u8], at: usize, w: usize) -> (x: u64)
    requires
        w <= 8,
        at + w <= b@.len(),
    ensures
        x == num(b@, at as int, w as int),
        x < limit(w as nat),
{
    let ghost s = b@.subrange(at as int, at + w);
    let mut x: u64 = 0;
    let mut i: usize = w;
    let n: usize = b.len();
    assert(s.skip(w as int) =~= Seq::<u8>::empty());
    while i > 0
        invariant
            i <= w <= 8,
            n == b@.len(),
            at + w <= n,
            s == b@.subrange(at as int, at + w),
            x == le(s.skip(i as int)),
        decreases i,
    {
        proof {
            let t = s.skip(i - 1);
            assert(t.skip(1) =~= s.skip(i as int));
            assert(t[0] == b@[at + i - 1]);
            lemma_le_bound(t);
            lemma_limit_grows(t.len(), 8);
            lemma_limits();
        }
        i = i - 1;
        x = b[at + i] as u64 + 256 * x;
    }
    proof {
        assert(s.skip(0) =~= s);
        lemma_le_bound(s);
    }
    x
}

proof fn lemma_limit_grows(a: nat, b: nat)
    requires
        a <= b,
    ensures
        0 < limit(a) <= limit(b),
    decreases b,
{
    if b > 0 {
        if a < b {
            lemma_limit_grows(a, (b - 1) as nat);
        } else {
            lemma_limit_grows((a - 1) as nat, (b - 1) as nat);
        }
    }
}

fn to_twos(t: i64) -> (n: u64)
    ensures
        n == wire::twos(t),
{
    if t >= 0 {
        t as u64
    } else {
        (t - i64::MIN) as u64 + 0x8000_0000_0000_0000
    }
}

fn from_twos(n: u64) -> (t: i64)
    ensures
        t == wire::untwos(n as nat),
{
    if n < 0x8000_0000_0000_0000 {
        n as i64
    } else {
        (n - 0x8000_0000_0000_0000) as i64 + i64::MIN
    }
}

impl Record {
    /// The bytes of this record, ready to be appended to a file.
    pub fn encode(&self, anchor_key: &[u8; 32]) -> (b: Vec<u8>)
        requires
            104 + self.value@.len() <= u32::MAX,
        ensures
            b@ == record_bytes(self@, anchor_key@),
            b@.len() == 104 + self.value@.len(),
    {
        let total: u64 = 104 + self.value.len() as u64;
        let mut b: Vec<u8> = Vec::new();
        put_le(&mut b, 0x5644_5244, 4);
        put_le(&mut b, total, 4);
        put_le(&mut b, 0xffff_ffff - total, 4);
        b.extend_from_slice(self.entry_key.as_slice());
        b.push(self.type_tag);
        b.push(self.flags);
        b.push(0);
        b.push(0);
        put_le(&mut b, to_twos(self.created_at), 8);
        put_le(&mut b, to_twos(self.expires_at), 8);
        put_le(&mut b, self.anchor_seq, 8);
        assert(b@ =~= head_bytes(self@));
        let mut all: Vec<u8> = Vec::new();
        all.extend_from_slice(b.as_slice());
        all.extend_from_slice(self.value.as_slice());
        assert(all@ =~= head_bytes(self@) + self.value@);
        let mac = keyed_hash(anchor_key, all.as_slice());
        b.extend_from_slice(mac.as_slice());
        b.extend_from_slice(self.value.as_slice());
        assert(b@ =~= record_bytes(self@, anchor_key@));
        proof {
            lemma_head_len(self@);
        }
        b
    }

    /// The record at `offset`, and how many bytes it takes, so that a scan can go on behind it.
    pub fn decode_at(buf: &[u8], offset: usize, anchor_key: &[u8; 32]) -> (r: Result<(Self, usize)>)
        ensures
            match r {
                Ok((rec, n)) => record_at(buf@, offset as int, anchor_key@) == Ok::<
                    (RecordView, int),
                    ErrorView,
                >((rec@, n as int)),
                Err(e) => record_at(buf@, offset as int, anchor_key@) == Err::<
                    (RecordView, int),
                    ErrorView,
                >(e@),
            },
    {
        if buf.len() < 104 || offset > buf.len() - 104 {
            return Err(corrupt_err("record header truncated"));
        }
        proof {
            lemma_limits();
        }
        if get_le(buf, offset, 4) != 0x5644_5244 {
            return Err(corrupt_err("bad record magic"));
        }
        let total: u64 = get_le(buf, offset + 4, 4);
        if get_le(buf, offset + 8, 4) != 0xffff_ffff - total {
            return Err(corrupt_err("size redundancy check failed"));
        }
        if total < 104 {
            return Err(corrupt_err("record size smaller than header"));
        }
        if total > (buf.len() - offset) as u64 {
            return Err(corrupt_err("record body extends past file end"));
        }
        let n: usize = total as usize;
        let value = sliced(buf, offset + 104, offset + n);
        let mut all = sliced(buf, offset, offset + 72);
        all.extend_from_slice(value.as_slice());
        assert(all@ =~= buf@.subrange(offset as int, offset + 72) + value@);
        let mac = keyed_hash(anchor_key, all.as_slice());
        let stored = sliced(buf, offset + 72, offset + 104);
        if !same_bytes(mac.as_slice(), stored.as_slice()) {
            return Err(Error::Hmac);
        }
        let rec = Record {
            entry_key: array32(sliced(buf, offset + 12, offset + 44).as_slice()),
            type_tag: buf[offset + 44],
            flags: buf[offset + 45],
            created_at: from_twos(get_le(buf, offset + 48, 8)),
            expires_at: from_twos(get_le(buf, offset + 56, 8)),
            anchor_seq: get_le(buf, offset + 64, 8),
            value,
        };
        Ok((rec, n))
    }
}

// ---------------------------------------------------------------- laws

proof fn lemma_head_len(r: RecordView)
    requires
        r.key.len() == 32,
        104 + r.value.len() <= u32::MAX,
    ensures
        head_bytes(r).len() == 72,
{
    lemma_limits();
    let total = (104 + r.value.len()) as nat;
    lemma_le(0x5644_5244, 4);
    lemma_le(total, 4);
    lemma_le((0xffff_ffff - total) as nat, 4);
    lemma_le(wire::twos(r.created), 8);
    lemma_le(wire::twos(r.expires), 8);
    lemma_le(r.seq as nat, 8);
}

/// The parts of a record's header, each at its place.
#[verifier::rlimit(40)]
proof fn lemma_head_parts(r: RecordView)
    requires
        r.key.len() == 32,
        104 + r.value.len() <= u32::MAX,
    ensures
        ({
            let h = head_bytes(r);
            let total = (104 + r.value.len()) as nat;
            &&& h.len() == 72
            &&& num(h, 0, 4) == 0x5644_5244
            &&& num(h, 4, 4) == total
            &&& num(h, 8, 4) == 0xffff_ffff - total
            &&& h.subrange(12, 44) == r.key
            &&& h[44] == r.tag
            &&& h[45] == r.flags
            &&& num(h, 48, 8) == wire::twos(r.created)
            &&& num(h, 56, 8) == wire::twos(r.expires)
            &&& num(h, 64, 8) == r.seq
        }),
{
    lemma_limits();
    let total = (104 + r.value.len()) as nat;
    let a = le_bytes(0x5644_5244, 4);
    let b = le_bytes(total, 4);
    let c = le_bytes((0xffff_ffff - total) as nat, 4);
    let d = le_bytes(wire::twos(r.created), 8);
    let e = le_bytes(wire::twos(r.expires), 8);
    let f = le_bytes(r.seq as nat, 8);
    lemma_le(0x5644_5244, 4);
    lemma_le(total, 4);
    lemma_le((0xffff_ffff - total) as nat, 4);
    lemma_le(wire::twos(r.created), 8);
    lemma_le(wire::twos(r.expires), 8);
    lemma_le(r.seq as nat, 8);
    let h = head_bytes(r);
    assert(h.subrange(0, 4) =~= a);
    assert(h.subrange(4, 8) =~= b);
    assert(h.subrange(8, 12) =~= c);
    assert(h.subrange(12, 44) =~= r.key);
    assert(h.subrange(48, 56) =~= d);
    assert(h.subrange(56, 64) =~= e);
    assert(h.subrange(64, 72) =~= f);
}

/// What is read at a place depends on the bytes of the record there, not on where they stand.
proof fn lemma_num_moved(a: Seq<u8>, i: int, b: Seq<u8>, j: int, n: int, at: int, w: int)
    requires
        0 <= i <= i + n <= a.len(),
        0 <= j <= j + n <= b.len(),
        a.subrange(i, i + n) == b.subrange(j, j + n),
        0 <= at <= at + w <= n,
    ensures
        num(a, i + at, w) == num(b, j + at, w),
        a.subrange(i + at, i + at + w) == b.subrange(j + at, j + at + w),
{
    assert(a.subrange(i + at, i + at + w) =~= a.subrange(i, i + n).subrange(at, at + w));
    assert(b.subrange(j + at, j + at + w) =~= b.subrange(j, j + n).subrange(at, at + w));
}

/// 256 to the power `i`.
pub open spec fn place(i: nat) -> nat
    decreases i,
{
    if i == 0 {
        1
    } else {
        256 * place((i - 1) as nat)
    }
}

/// Law: numbers are written least significant byte first: the byte at `i` counts 256 to the power `i`.
pub proof fn law_numbers_are_little_endian(n: nat, w: nat, i: nat)
    requires
        i < w,
    ensures
        le_bytes(n, w).len() == w,
        le_bytes(n, w)[i as int] == (n / place(i)) % 256,
        place(i) > 0,
    decreases w,
{
    let rest = le_bytes(n / 256, (w - 1) as nat);
    if w == 1 {
        assert(rest.len() == 0);
    } else {
        law_numbers_are_little_endian(n / 256, (w - 1) as nat, 0);
    }
    if i > 0 {
        let j = (i - 1) as nat;
        law_numbers_are_little_endian(n / 256, (w - 1) as nat, j);
        assert(le_bytes(n, w)[i as int] == rest[j as int]);
        vstd::arithmetic::div_mod::lemma_div_denominator(n as int, 256, place(j) as int);
    }
}

/// Law: the bytes of a record have each field at its place, and a keyed hash of the rest.
pub proof fn law_record_layout(r: RecordView, key: Seq<u8>)
    requires
        r.key.len() == 32,
        104 + r.value.len() <= u32::MAX,
    ensures
        ({
            let b = record_bytes(r, key);
            &&& b.len() == 104 + r.value.len()
            &&& b.take(4) == seq![0x44u8, 0x52u8, 0x44u8, 0x56u8]
            &&& num(b, 4, 4) == b.len()
            &&& num(b, 4, 4) + num(b, 8, 4) == 0xffff_ffff
            &&& b.subrange(12, 44) == r.key
            &&& b[44] == r.tag
            &&& b[45] == r.flags
            &&& b[46] == 0
            &&& b[47] == 0
            &&& num(b, 48, 8) == (if r.created >= 0 {
                r.created as int
            } else {
                r.created + 0x1_0000_0000_0000_0000
            })
            &&& num(b, 56, 8) == (if r.expires >= 0 {
                r.expires as int
            } else {
                r.expires + 0x1_0000_0000_0000_0000
            })
            &&& num(b, 64, 8) == r.seq
            &&& b.subrange(72, 104) == blake3_keyed(key, b.take(72) + r.value)@
            &&& b.skip(104) == r.value
        }),
{
    lemma_head_parts(r);
    let h = head_bytes(r);
    let b = record_bytes(r, key);
    law_record_reads_back(r, key);
    assert(b.subrange(0, 72) =~= h);
    assert(h.subrange(0, 72) =~= h);
    lemma_num_moved(h, 0, b, 0, 72, 4, 4);
    lemma_num_moved(h, 0, b, 0, 72, 8, 4);
    lemma_num_moved(h, 0, b, 0, 72, 12, 32);
    lemma_num_moved(h, 0, b, 0, 72, 48, 8);
    lemma_num_moved(h, 0, b, 0, 72, 56, 8);
    lemma_num_moved(h, 0, b, 0, 72, 64, 8);
    assert(b.take(72) =~= h);
    assert(b.subrange(72, 104) =~= blake3_keyed(key, h + r.value)@);
    assert(b.skip(104) =~= r.value);
    let m = le_bytes(0x5644_5244, 4);
    lemma_limits();
    lemma_le(0x5644_5244, 4);
    assert(b.take(4) =~= m);
    reveal_with_fuel(le_bytes, 5);
    assert(m =~= seq![0x44u8, 0x52u8, 0x44u8, 0x56u8]);
    let c = le_bytes(wire::twos(r.created), 8);
    lemma_le((0xffff_ffff - (104 + r.value.len())) as nat, 4);
    lemma_le((104 + r.value.len()) as nat, 4);
    lemma_le(wire::twos(r.created), 8);
    lemma_le(wire::twos(r.expires), 8);
    assert(h[46] == 0 && h[47] == 0);
}

/// Law: what reads as a record carries the keyed hash of all the rest of it, and its length twice: nothing
/// else is believed.
pub proof fn law_record_is_proved_by_its_hash(b: Seq<u8>, at: int, key: Seq<u8>)
    ensures
        record_at(b, at, key) matches Ok((r, n)) ==> {
            &&& 0 <= at
            &&& 104 <= n
            &&& at + n <= b.len()
            &&& num(b, at + 4, 4) == n
            &&& num(b, at + 4, 4) + num(b, at + 8, 4) == 0xffff_ffff
            &&& r.value == b.subrange(at + 104, at + n)
            &&& r.key == b.subrange(at + 12, at + 44)
            &&& r.tag == b[at + 44]
            &&& r.flags == b[at + 45]
            &&& blake3_keyed(key, b.subrange(at, at + 72) + b.subrange(at + 104, at + n))@
                == b.subrange(at + 72, at + 104)
        },
{
    if at >= 0 && at + 104 <= b.len() {
        lemma_le_bound(b.subrange(at + 4, at + 8));
        lemma_limits();
    }
}

/// Law: a record reads the same wherever its bytes stand.
pub proof fn law_record_may_be_moved(
    a: Seq<u8>,
    i: int,
    b: Seq<u8>,
    j: int,
    n: int,
    key: Seq<u8>,
    r: RecordView,
)
    requires
        record_at(a, i, key) == Ok::<(RecordView, int), ErrorView>((r, n)),
        0 <= j,
        j + n <= b.len(),
        b.subrange(j, j + n) == a.subrange(i, i + n),
    ensures
        record_at(b, j, key) == Ok::<(RecordView, int), ErrorView>((r, n)),
{
    lemma_num_moved(a, i, b, j, n, 0, 4);
    lemma_num_moved(a, i, b, j, n, 4, 4);
    lemma_num_moved(a, i, b, j, n, 8, 4);
    lemma_num_moved(a, i, b, j, n, 12, 32);
    lemma_num_moved(a, i, b, j, n, 44, 1);
    lemma_num_moved(a, i, b, j, n, 45, 1);
    lemma_num_moved(a, i, b, j, n, 48, 8);
    lemma_num_moved(a, i, b, j, n, 56, 8);
    lemma_num_moved(a, i, b, j, n, 64, 8);
    lemma_num_moved(a, i, b, j, n, 0, 72);
    lemma_num_moved(a, i, b, j, n, 72, 32);
    lemma_num_moved(a, i, b, j, n, 104, n - 104);
    assert(a.subrange(i + 44, i + 45)[0] == a[i + 44]);
    assert(b.subrange(j + 44, j + 45)[0] == b[j + 44]);
    assert(a.subrange(i + 45, i + 46)[0] == a[i + 45]);
    assert(b.subrange(j + 45, j + 46)[0] == b[j + 45]);
}

proof fn lemma_untwos(t: i64)
    ensures
        wire::untwos(wire::twos(t)) == t,
{
}

/// Law: a record reads back as it was written.
pub proof fn law_record_reads_back(r: RecordView, key: Seq<u8>)
    requires
        r.key.len() == 32,
        104 + r.value.len() <= u32::MAX,
    ensures
        record_bytes(r, key).len() == 104 + r.value.len(),
        record_at(record_bytes(r, key), 0, key) == Ok::<(RecordView, int), ErrorView>(
            (r, 104 + r.value.len() as int),
        ),
{
    lemma_head_parts(r);
    let h = head_bytes(r);
    let b = record_bytes(r, key);
    let mac = blake3_keyed(key, h + r.value)@;
    let n = 104 + r.value.len() as int;
    assert(b.subrange(0, 72) =~= h);
    assert(h.subrange(0, 72) =~= h);
    lemma_num_moved(h, 0, b, 0, 72, 0, 4);
    lemma_num_moved(h, 0, b, 0, 72, 4, 4);
    lemma_num_moved(h, 0, b, 0, 72, 8, 4);
    lemma_num_moved(h, 0, b, 0, 72, 12, 32);
    lemma_num_moved(h, 0, b, 0, 72, 48, 8);
    lemma_num_moved(h, 0, b, 0, 72, 56, 8);
    lemma_num_moved(h, 0, b, 0, 72, 64, 8);
    assert(b.subrange(72, 104) =~= mac);
    assert(b.subrange(104, n) =~= r.value);
    assert(b[44] == h[44]);
    assert(b[45] == h[45]);
    lemma_untwos(r.created);
    lemma_untwos(r.expires);
    let got = record_at(b, 0, key);
    assert((got->Ok_0).0 =~= r);
}

/// Law: a record whose end is missing is no record: a torn write is found out.
pub proof fn law_torn_record_is_refused(pre: Seq<u8>, r: RecordView, k: int, key: Seq<u8>)
    requires
        r.key.len() == 32,
        104 + r.value.len() <= u32::MAX,
        0 <= k < 104 + r.value.len(),
    ensures
        record_at(pre + record_bytes(r, key).take(k), pre.len() as int, key) is Err,
{
    let whole = record_bytes(r, key);
    let b = pre + whole.take(k);
    let at = pre.len() as int;
    law_record_reads_back(r, key);
    if k >= 104 {
        assert(b.subrange(at, at + k) =~= whole.subrange(0, k));
        lemma_num_moved(whole, 0, b, at, k, 4, 4);
    }
}

/// A record takes no less than its header and no more than there is.
pub proof fn lemma_record_length(b: Seq<u8>, at: int, key: Seq<u8>)
    ensures
        record_at(b, at, key) matches Ok((r, n)) ==> 104 <= n <= u32::MAX && at + n <= b.len()
            && r.key.len() == 32 && r.value.len() == n - 104,
{
    if at >= 0 && at + 104 <= b.len() {
        lemma_le_bound(b.subrange(at + 4, at + 8));
        lemma_limits();
    }
}

/// Four zero bytes spell zero.
pub proof fn lemma_zero_num(b: Seq<u8>, at: int)
    requires
        0 <= at,
        at + 4 <= b.len(),
        b[at] == 0,
        b[at + 1] == 0,
        b[at + 2] == 0,
        b[at + 3] == 0,
    ensures
        num(b, at, 4) == 0,
{
    reveal_with_fuel(le, 5);
    let s = b.subrange(at, at + 4);
    assert(s.skip(1)[0] == s[1]);
    assert(s.skip(1).skip(1)[0] == s[2]);
    assert(s.skip(1).skip(1).skip(1)[0] == s[3]);
}

/// Law: a record is read exactly where the file holds its header and its body, the header begins with the magic,
/// says its length twice, and the hash under the key is that of the header before it and the body. Of all
/// that, only a wrong hash is called a failed authentication.
pub proof fn law_record_is_read_where_its_hash_holds(b: Seq<u8>, at: int, key: Seq<u8>)
    requires
        0 <= at <= b.len(),
    ensures
        record_at(b, at, key) is Ok <==> {
            &&& at + 104 <= b.len()
            &&& num(b, at, 4) == 0x5644_5244
            &&& num(b, at + 4, 4) + num(b, at + 8, 4) == 0xffff_ffff
            &&& num(b, at + 4, 4) >= 104
            &&& at + num(b, at + 4, 4) <= b.len()
            &&& blake3_keyed(
                key,
                b.subrange(at, at + 72) + b.subrange(at + 104, at + num(b, at + 4, 4)),
            )@ == b.subrange(at + 72, at + 104)
        },
        record_at(b, at, key) matches Ok((r, n)) ==> n == num(b, at + 4, 4) && r.value
            == b.subrange(at + 104, at + n) && r.key == b.subrange(at + 12, at + 44),
        record_at(b, at, key) matches Err(e) ==> e is Corrupt || (e is Hmac && at + 104 <= b.len()
            && num(b, at, 4) == 0x5644_5244),
{
}

}
