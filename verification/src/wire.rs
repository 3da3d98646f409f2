//! The wire values a sealed block is made of: hashes, names, counters, payloads, timestamps.
//!
//! Each value is one self-delimiting VSF value. Writing and reading them is the `vsf` crate's
//! work; this module states their byte forms and proves that what was written reads back.
use vstd::prelude::*;
use vstd::string::*;
use vstd::utf8::*;
use vsf::decoding::parse::parse;
use vsf::types::{EtType, VsfType};

verus! {

/// A wire value as a reader meets it. `Other` stands for every kind this engine does not use.
pub enum Item {
    Hp(Vec<u8>),
    Name(String),
    Flag(bool),
    Byte(u8),
    Short(u16),
    Word(u32),
    Long(u64),
    Wide(u128),
    Wrap(u8, Vec<u8>),
    Time(i64),
    Other,
}

/// The mathematical view of a wire value; counters of every width are one number.
pub enum ItemView {
    Hp(Seq<u8>),
    Name(Seq<char>),
    Uint(nat),
    Wrap(u8, Seq<u8>),
    Time(i64),
    Other,
}

impl View for Item {
    type V = ItemView;

    open spec fn view(&self) -> ItemView {
        match self {
            Item::Hp(h) => ItemView::Hp(h@),
            Item::Name(s) => ItemView::Name(s@),
            Item::Flag(b) => ItemView::Uint(if *b { 1 } else { 0 }),
            Item::Byte(x) => ItemView::Uint(*x as nat),
            Item::Short(x) => ItemView::Uint(*x as nat),
            Item::Word(x) => ItemView::Uint(*x as nat),
            Item::Long(x) => ItemView::Uint(*x as nat),
            Item::Wide(x) => ItemView::Uint(*x as nat),
            Item::Wrap(a, b) => ItemView::Wrap(*a, b@),
            Item::Time(t) => ItemView::Time(*t),
            Item::Other => ItemView::Other,
        }
    }
}

/// A wire value as a writer hands it over. `Small` and `Large` split the counters at the width
/// every machine can index.
pub enum Token {
    Hp(Vec<u8>),
    Name(String),
    Small(u32),
    Large(u64),
    Wrap(u8, Vec<u8>),
    Time(i64),
}

impl View for Token {
    type V = ItemView;

    open spec fn view(&self) -> ItemView {
        match self {
            Token::Hp(h) => ItemView::Hp(h@),
            Token::Name(s) => ItemView::Name(s@),
            Token::Small(x) => ItemView::Uint(*x as nat),
            Token::Large(x) => ItemView::Uint(*x as nat),
            Token::Wrap(a, b) => ItemView::Wrap(*a, b@),
            Token::Time(t) => ItemView::Time(*t),
        }
    }
}

// ---------------------------------------------------------------- byte forms

/// The number that `s` spells, most significant byte first.
pub open spec fn be(s: Seq<u8>) -> nat
    decreases s.len(),
{
    if s.len() == 0 {
        0
    } else {
        be(s.drop_last()) * 256 + s.last() as nat
    }
}

/// `v` in `w` bytes, most significant first.
pub open spec fn be_bytes(v: nat, w: nat) -> Seq<u8>
    decreases w,
{
    if w == 0 {
        Seq::<u8>::empty()
    } else {
        be_bytes(v / 256, (w - 1) as nat).push((v % 256) as u8)
    }
}

/// A counter's wire form: a marker for the narrowest of the widths 1, 2, 4 and 8 that holds it,
/// then that many bytes, most significant first.
pub open spec fn ewe(n: nat) -> Seq<u8> {
    if n < 0x100 {
        seq![0x33u8] + be_bytes(n, 1)
    } else if n < 0x1_0000 {
        seq![0x34u8] + be_bytes(n, 2)
    } else if n < 0x1_0000_0000 {
        seq![0x35u8] + be_bytes(n, 4)
    } else {
        seq![0x36u8] + be_bytes(n, 8)
    }
}

/// The bytes of an ASCII text.
pub open spec fn ascii_bytes(s: Seq<char>) -> Seq<u8> {
    Seq::new(s.len(), |i: int| s[i] as u8)
}

/// The text of ASCII bytes.
pub open spec fn ascii_chars(s: Seq<u8>) -> Seq<char> {
    Seq::new(s.len(), |i: int| s[i] as char)
}

pub open spec fn all_ascii(s: Seq<u8>) -> bool {
    forall|i: int| 0 <= i < s.len() ==> #[trigger] s[i] < 128
}

/// A signed number's two's complement form in 64 bits.
pub open spec fn twos(t: i64) -> nat {
    if t >= 0 {
        t as nat
    } else {
        (t + 0x1_0000_0000_0000_0000) as nat
    }
}

/// The signed number of a two's complement form in 64 bits.
pub open spec fn untwos(n: nat) -> i64 {
    if n < 0x8000_0000_0000_0000 {
        n as i64
    } else {
        (n - 0x1_0000_0000_0000_0000) as i64
    }
}

/// The bytes of a wire value.
pub open spec fn flat(it: ItemView) -> Seq<u8> {
    match it {
        ItemView::Hp(h) => seq![0x68u8, 0x70u8] + ewe((h.len() - 1) as nat) + h,
        ItemView::Name(s) => seq![0x64u8] + ewe(s.len()) + ascii_bytes(s),
        ItemView::Uint(n) => seq![0x75u8] + ewe(n),
        ItemView::Wrap(a, b) => seq![0x76u8, a] + ewe(8 * b.len()) + b,
        ItemView::Time(t) => seq![0x65u8, 0x36u8] + be_bytes(twos(t), 8),
        ItemView::Other => Seq::<u8>::empty(),
    }
}

/// The wire values that fit a block.
pub open spec fn writable(it: ItemView) -> bool {
    match it {
        ItemView::Hp(h) => 1 <= h.len() <= 0x1_0000,
        ItemView::Name(s) => s.len() < 0x1_0000 && is_ascii_chars(s),
        ItemView::Uint(n) => n <= u64::MAX,
        ItemView::Wrap(a, b) => 8 * b.len() < 0x1_0000,
        ItemView::Time(t) => true,
        ItemView::Other => false,
    }
}

/// A length in one or two bytes at `p`, and where it ends; only the narrowest form counts.
pub open spec fn short_ewe(b: Seq<u8>, p: int) -> Option<(nat, int)> {
    if 0 <= p && p + 2 <= b.len() && b[p] == 0x33 {
        Some((b[p + 1] as nat, p + 2))
    } else if 0 <= p && p + 3 <= b.len() && b[p] == 0x34 && b[p + 1] > 0 {
        Some((b[p + 1] as nat * 256 + b[p + 2] as nat, p + 3))
    } else {
        None
    }
}

/// The width that a fixed-width counter's marker stands for.
pub open spec fn marked_width(m: u8) -> int {
    if m == 0x33 {
        1
    } else if m == 0x34 {
        2
    } else if m == 0x35 {
        4
    } else if m == 0x36 {
        8
    } else {
        0
    }
}

/// The value of one of the kinds this engine writes, where the bytes at `p` spell one out, and
/// where it ends.
pub open spec fn understood(b: Seq<u8>, p: int) -> Option<(ItemView, int)> {
    if p < 0 || p + 1 >= b.len() {
        None
    } else if b[p] == 0x64 {
        match short_ewe(b, p + 1) {
            Some((n, q)) => if q + n <= b.len() && all_ascii(b.subrange(q, q + n)) {
                Some((ItemView::Name(ascii_chars(b.subrange(q, q + n))), q + n))
            } else {
                None
            },
            None => None,
        }
    } else if b[p] == 0x68 && b[p + 1] == 0x70 {
        match short_ewe(b, p + 2) {
            Some((n, q)) => if q + n + 1 <= b.len() {
                Some((ItemView::Hp(b.subrange(q, q + n + 1)), q + n + 1))
            } else {
                None
            },
            None => None,
        }
    } else if b[p] == 0x75 && marked_width(b[p + 1]) > 0 {
        let w = marked_width(b[p + 1]);
        if p + 2 + w <= b.len() {
            Some((ItemView::Uint(be(b.subrange(p + 2, p + 2 + w))), p + 2 + w))
        } else {
            None
        }
    } else if b[p] == 0x76 {
        match short_ewe(b, p + 2) {
            Some((n, q)) => if q + (n + 7) / 8 <= b.len() {
                Some((ItemView::Wrap(b[p + 1], b.subrange(q, q + (n + 7) / 8)), q + (n + 7) / 8))
            } else {
                None
            },
            None => None,
        }
    } else if b[p] == 0x65 && b[p + 1] == 0x36 && p + 10 <= b.len() {
        Some((ItemView::Time(untwos(be(b.subrange(p + 2, p + 10)))), p + 10))
    } else {
        None
    }
}

/// Whether the byte at `p` announces a number of more than two bytes.
pub open spec fn long_marker(b: Seq<u8>, p: int) -> bool {
    0 <= p < b.len() && 0x35 <= b[p] <= 0x37
}

/// Whether reading a value at `p` is certain to return: no kind whose declared size could run
/// past the machine's address range, and no coarse place on the globe, whose face may not exist. A
/// block holds 4096 bytes, so a length that takes more than two bytes is beyond it in any case. Of
/// tensors, packed ones and those of one dimension are read.
pub open spec fn readable(b: Seq<u8>, p: int) -> bool {
    0 <= p < b.len() ==> {
        let t = b[p];
        &&& t != 0x71
        &&& t == 0x70 ==> !long_marker(b, p + 1)
        &&& t == 0x74 ==> p + 1 < b.len() && b[p + 1] == 0x6e && !long_marker(b, p + 2)
        &&& t == 0x77 ==> p + 1 < b.len() && (b[p + 1] == 0x36 || b[p + 1] == 0x37)
        &&& (t == 0x64 || t == 0x61) ==> !long_marker(b, p + 1)
        &&& (t == 0x68 || t == 0x67 || t == 0x6d || t == 0x6b) ==> !long_marker(b, p + 2)
        &&& t == 0x6b ==> !long_marker(b, p + 3)
    }
}

/// What `vsf::decoding::parse::parse` makes of the bytes at `at` where they spell no value of the
/// kinds stated in [`understood`]: another kind, or its error in words. `word` is the largest
/// number the machine indexes with.
pub uninterp spec fn vsf_outcome(data: Seq<u8>, at: int, word: int) -> core::result::Result<
    (ItemView, int),
    Seq<char>,
>;

/// What reading a value at `p` gives: the value and where it ends, or the error in words.
#[verifier::opaque]
pub open spec fn parsed(b: Seq<u8>, p: int) -> core::result::Result<(ItemView, int), Seq<char>> {
    if !readable(b, p) {
        Err("value kind not carried by blocks"@)
    } else {
        match understood(b, p) {
            Some((it, q)) => Ok((it, q)),
            None => vsf_outcome(b, p, usize::MAX as int),
        }
    }
}

/// The view of a read's result.
pub open spec fn parse_view(r: core::result::Result<(Item, usize), String>) -> core::result::Result<
    (ItemView, int),
    Seq<char>,
> {
    match r {
        Ok((it, q)) => Ok((it@, q as int)),
        Err(s) => Err(s@),
    }
}

/// Whether a read gave the value `x.0` ending at `x.1`.
pub open spec fn read_as(
    r: core::result::Result<(Item, usize), String>,
    x: (ItemView, int),
) -> bool {
    parse_view(r) == Ok::<(ItemView, int), Seq<char>>(x)
}

// ---------------------------------------------------------------- the outside calls

/// `vsf::decoding::parse::parse`. It is claimed that a hash, name, counter, wrapped payload or
/// 64-bit timestamp spelled out at `at` is read as [`understood`] says, that any other input gives
/// the same result whenever it is read, and that a value that was read took at least one byte and
/// ends within the data.
#[verifier::external_body]
fn vsf_parse(data: &[u8], at: usize) -> (r: core::result::Result<(Item, usize), String>)
    requires
        readable(data@, at as int),
    ensures
        understood(data@, at as int) matches Some(x) ==> read_as(r, x),
        understood(data@, at as int) is None ==> parse_view(r) == vsf_outcome(
            data@,
            at as int,
            usize::MAX as int,
        ),
        r matches Ok((_, q)) ==> at < q <= data@.len(),
{
    let mut p = at;
    Ok((match parse(data, &mut p).map_err(|e| format!("{e:?}"))? {
        VsfType::hp(h) => Item::Hp(h),
        VsfType::d(s) => Item::Name(s),
        VsfType::u0(x) => Item::Flag(x),
        VsfType::u3(x) => Item::Byte(x),
        VsfType::u4(x) => Item::Short(x),
        VsfType::u5(x) => Item::Word(x),
        VsfType::u6(x) => Item::Long(x),
        VsfType::u7(x) => Item::Wide(x),
        VsfType::v(a, b) => Item::Wrap(a, b),
        VsfType::e(EtType::e6(t)) => Item::Time(t),
        _ => Item::Other,
    }, p))
}

/// `vsf::VsfType::flatten`. It is claimed that a value's bytes are those of [`flat`].
#[verifier::external_body]
pub(crate) fn vsf_flatten(t: Token) -> (r: Vec<u8>)
    requires
        writable(t@),
        t matches Token::Large(x) ==> x > u32::MAX,
    ensures
        r@ == flat(t@),
{
    match t {
        Token::Hp(h) => VsfType::hp(h),
        Token::Name(s) => VsfType::d(s),
        Token::Small(x) => VsfType::u(x as usize, false),
        Token::Large(x) => VsfType::u6(x),
        Token::Wrap(a, b) => VsfType::v(a, b),
        Token::Time(t) => VsfType::e(EtType::e6(t)),
    }.flatten()
}

// ---------------------------------------------------------------- verified readers and writers

fn long_at(b: &[u8], p: usize) -> (r: bool)
    requires
        p <= b@.len() + 3,
    ensures
        r == long_marker(b@, p as int),
{
    p < b.len() && 0x35 <= b[p] && b[p] <= 0x37
}

/// Reads the wire value at `at`.
pub fn read_item(b: &[u8], at: usize) -> (r: core::result::Result<(Item, usize), String>)
    requires
        b@.len() <= 0x7fff_ffff,
    ensures
        parse_view(r) == parsed(b@, at as int),
        r matches Ok((_, q)) ==> at < q <= b@.len(),
{
    reveal(parsed);
    if at < b.len() {
        let t: u8 = b[at];
        let next: u8 = if at + 1 < b.len() {
            b[at + 1]
        } else {
            0
        };
        let packed = t == 0x70 && long_at(b, at + 1);
        let vector = t == 0x74 && (next != 0x6e || long_at(b, at + 2));
        let place = t == 0x77 && next != 0x36 && next != 0x37;
        let text = (t == 0x64 || t == 0x61) && long_at(b, at + 1);
        let tagged = (t == 0x68 || t == 0x67 || t == 0x6d || t == 0x6b) && long_at(b, at + 2);
        let key = t == 0x6b && long_at(b, at + 3);
        if t == 0x71 || packed || vector || place || text || tagged || key {
            return Err("value kind not carried by blocks".to_owned());
        }
    }
    vsf_parse(b, at)
}

/// The token of a counter.
pub(crate) fn uint_token(x: u64) -> (t: Token)
    ensures
        t@ == ItemView::Uint(x as nat),
        t matches Token::Large(y) ==> y > u32::MAX,
{
    if x <= 0xffff_ffff {
        Token::Small(x as u32)
    } else {
        Token::Large(x)
    }
}

/// A wire value as a 64-bit counter, where it is one.
pub open spec fn uint_of(it: ItemView) -> Option<u64> {
    match it {
        ItemView::Uint(n) => if n <= u64::MAX {
            Some(n as u64)
        } else {
            None
        },
        _ => None,
    }
}

/// A wire value as a 64-bit counter, whatever width it was written in.
pub fn as_u64(it: &Item) -> (r: Option<u64>)
    ensures
        r == uint_of(it@),
{
    match it {
        Item::Flag(b) => Some(if *b { 1 } else { 0 }),
        Item::Byte(x) => Some(*x as u64),
        Item::Short(x) => Some(*x as u64),
        Item::Word(x) => Some(*x as u64),
        Item::Long(x) => Some(*x),
        Item::Wide(x) => if *x <= 0xffff_ffff_ffff_ffff {
            Some(*x as u64)
        } else {
            None
        },
        _ => None,
    }
}

// ---------------------------------------------------------------- what was written reads back

proof fn lemma_be_bytes(v: nat, w: nat)
    ensures
        be_bytes(v, w).len() == w,
    decreases w,
{
    if w > 0 {
        lemma_be_bytes(v / 256, (w - 1) as nat);
    }
}

proof fn lemma_be_one(v: nat)
    requires
        v < 0x100,
    ensures
        be_bytes(v, 1) =~= seq![v as u8],
{
    reveal_with_fuel(be_bytes, 2);
    assert(v % 256 == v);
}

proof fn lemma_be_two(v: nat)
    requires
        v < 0x1_0000,
    ensures
        be_bytes(v, 2) =~= seq![(v / 256) as u8, (v % 256) as u8],
{
    reveal_with_fuel(be_bytes, 3);
    assert((v / 256) % 256 == v / 256);
}

/// The number of 256 to the power `w`.
spec fn span(w: nat) -> nat
    decreases w,
{
    if w == 0 {
        1
    } else {
        256 * span((w - 1) as nat)
    }
}

proof fn lemma_be_back(v: nat, w: nat)
    requires
        v < span(w),
    ensures
        be(be_bytes(v, w)) == v,
    decreases w,
{
    if w > 0 {
        let s = be_bytes(v, w);
        lemma_be_bytes(v, w);
        assert(s.drop_last() =~= be_bytes(v / 256, (w - 1) as nat));
        assert(v / 256 < span((w - 1) as nat)) by (nonlinear_arith)
            requires
                v < 256 * span((w - 1) as nat),
        ;
        lemma_be_back(v / 256, (w - 1) as nat);
    }
}

proof fn lemma_spans()
    ensures
        span(1) == 0x100,
        span(2) == 0x1_0000,
        span(4) == 0x1_0000_0000,
        span(8) == 0x1_0000_0000_0000_0000,
{
    reveal_with_fuel(span, 9);
}

/// The length of a counter's wire form.
pub proof fn lemma_ewe_len(n: nat)
    ensures
        2 <= ewe(n).len() <= 9,
        n < 0x100 ==> ewe(n).len() == 2,
        n < 0x1_0000 ==> ewe(n).len() <= 3,
{
    lemma_be_bytes(n, 1);
    lemma_be_bytes(n, 2);
    lemma_be_bytes(n, 4);
    lemma_be_bytes(n, 8);
}

proof fn lemma_short_ewe(b: Seq<u8>, p: int, n: nat)
    requires
        n < 0x1_0000,
        stands_at(b, p, ewe(n)),
    ensures
        short_ewe(b, p) == Some((n, p + ewe(n).len())),
        !long_marker(b, p),
{
    lemma_ewe_len(n);
    if n < 0x100 {
        lemma_be_one(n);
        assert(ewe(n) =~= seq![0x33u8, n as u8]);
        assert(b[p] == 0x33u8);
        assert(b[p + 1] == n as u8);
    } else {
        lemma_be_two(n);
        assert(ewe(n) =~= seq![0x34u8, (n / 256) as u8, (n % 256) as u8]);
        assert(b[p] == 0x34u8);
        assert(b[p + 1] == (n / 256) as u8);
        assert(b[p + 2] == (n % 256) as u8);
    }
}

/// Whether the bytes of `f` stand at `p`.
pub open spec fn stands_at(b: Seq<u8>, p: int, f: Seq<u8>) -> bool {
    &&& 0 <= p
    &&& p + f.len() <= b.len()
    &&& forall|i: int| p <= i < p + f.len() ==> #[trigger] b[i] == f[i - p]
}

pub proof fn lemma_stands_parts(b: Seq<u8>, p: int, x: Seq<u8>, y: Seq<u8>)
    requires
        stands_at(b, p, x + y),
    ensures
        stands_at(b, p, x),
        stands_at(b, p + x.len(), y),
        b.subrange(p + x.len(), p + x.len() + y.len()) =~= y,
{
    assert forall|i: int| p + x.len() <= i < p + x.len() + y.len() implies #[trigger] b[i] == y[i
        - (p + x.len())] by {
        assert(b[i] == (x + y)[i - p]);
    }
}

proof fn lemma_hp_back(b: Seq<u8>, p: int, h: Seq<u8>)
    requires
        1 <= h.len() <= 0x1_0000,
        stands_at(b, p, flat(ItemView::Hp(h))),
    ensures
        readable(b, p),
        understood(b, p) == Some((ItemView::Hp(h), p + flat(ItemView::Hp(h)).len())),
{
    let n = (h.len() - 1) as nat;
    lemma_ewe_len(n);
    lemma_stands_parts(b, p, seq![0x68u8, 0x70u8] + ewe(n), h);
    lemma_stands_parts(b, p, seq![0x68u8, 0x70u8], ewe(n));
    lemma_short_ewe(b, p + 2, n);
    assert(b[p] == 0x68 && b[p + 1] == 0x70);
}

proof fn lemma_name_back(b: Seq<u8>, p: int, s: Seq<char>)
    requires
        s.len() < 0x1_0000,
        is_ascii_chars(s),
        stands_at(b, p, flat(ItemView::Name(s))),
    ensures
        readable(b, p),
        understood(b, p) == Some((ItemView::Name(s), p + flat(ItemView::Name(s)).len())),
{
    lemma_ewe_len(s.len());
    lemma_stands_parts(b, p, seq![0x64u8] + ewe(s.len()), ascii_bytes(s));
    lemma_stands_parts(b, p, seq![0x64u8], ewe(s.len()));
    lemma_short_ewe(b, p + 1, s.len());
    assert(b[p] == 0x64);
    let q = p + 1 + ewe(s.len()).len();
    let t = b.subrange(q, q + s.len());
    assert(t == ascii_bytes(s));
    assert forall|i: int| 0 <= i < t.len() implies #[trigger] t[i] < 128 by {
        let c = s[i];
        assert('\0' <= c <= '\u{7f}');
        assert(t[i] == ascii_bytes(s)[i]);
    }
    assert(ascii_chars(t) =~= s) by {
        assert forall|i: int| 0 <= i < s.len() implies ascii_chars(t)[i] == s[i] by {
            let c = s[i];
            assert('\0' <= c <= '\u{7f}');
            assert(t[i] == s[i] as u8);
        }
    }
}

proof fn lemma_uint_back(b: Seq<u8>, p: int, n: nat)
    requires
        n <= u64::MAX,
        stands_at(b, p, flat(ItemView::Uint(n))),
    ensures
        readable(b, p),
        understood(b, p) == Some((ItemView::Uint(n), p + flat(ItemView::Uint(n)).len())),
{
    lemma_spans();
    let w: nat = if n < 0x100 {
        1
    } else if n < 0x1_0000 {
        2
    } else if n < 0x1_0000_0000 {
        4
    } else {
        8
    };
    lemma_be_bytes(n, w);
    lemma_be_back(n, w);
    let m = ewe(n)[0];
    assert(ewe(n) =~= seq![m] + be_bytes(n, w));
    lemma_stands_parts(b, p, seq![0x75u8], ewe(n));
    lemma_stands_parts(b, p + 1, seq![m], be_bytes(n, w));
    assert(b[p] == 0x75);
    assert(b[p + 1] == m);
    assert(marked_width(m) == w);
}

proof fn lemma_wrap_back(b: Seq<u8>, p: int, a: u8, v: Seq<u8>)
    requires
        8 * v.len() < 0x1_0000,
        stands_at(b, p, flat(ItemView::Wrap(a, v))),
    ensures
        readable(b, p),
        understood(b, p) == Some((ItemView::Wrap(a, v), p + flat(ItemView::Wrap(a, v)).len())),
{
    let n = 8 * v.len();
    lemma_ewe_len(n);
    lemma_stands_parts(b, p, seq![0x76u8, a] + ewe(n), v);
    lemma_stands_parts(b, p, seq![0x76u8, a], ewe(n));
    lemma_short_ewe(b, p + 2, n);
    assert(b[p] == 0x76 && b[p + 1] == a);
    assert((n + 7) / 8 == v.len());
}

proof fn lemma_time_back(b: Seq<u8>, p: int, t: i64)
    requires
        stands_at(b, p, flat(ItemView::Time(t))),
    ensures
        readable(b, p),
        understood(b, p) == Some((ItemView::Time(t), p + flat(ItemView::Time(t)).len())),
{
    lemma_spans();
    lemma_be_bytes(twos(t), 8);
    lemma_be_back(twos(t), 8);
    lemma_stands_parts(b, p, seq![0x65u8, 0x36u8], be_bytes(twos(t), 8));
    assert(b[p] == 0x65 && b[p + 1] == 0x36);
}

/// Law: a wire value that was written reads back as itself, wherever it stands in the bytes, and
/// ends where its bytes end.
pub proof fn law_written_value_reads_back(b: Seq<u8>, p: int, it: ItemView)
    requires
        writable(it),
        stands_at(b, p, flat(it)),
    ensures
        parsed(b, p) == Ok::<(ItemView, int), Seq<char>>((it, p + flat(it).len())),
        flat(it).len() > 0,
{
    reveal(parsed);
    match it {
        ItemView::Hp(h) => lemma_hp_back(b, p, h),
        ItemView::Name(s) => lemma_name_back(b, p, s),
        ItemView::Uint(n) => lemma_uint_back(b, p, n),
        ItemView::Wrap(a, v) => lemma_wrap_back(b, p, a, v),
        ItemView::Time(t) => lemma_time_back(b, p, t),
        ItemView::Other => {},
    }
}

/// The lengths of the wire values.
pub proof fn lemma_flat_len(it: ItemView)
    ensures
        it matches ItemView::Hp(h) ==> h.len() == 32 ==> flat(it).len() == 36,
        it matches ItemView::Name(s) ==> s.len() < 0x100 ==> flat(it).len() == 3 + s.len(),
        it matches ItemView::Uint(n) ==> 3 <= flat(it).len() <= 10,
        it matches ItemView::Wrap(a, b) ==> 8 * b.len() < 0x1_0000 ==> flat(it).len() <= 5
            + b.len(),
        it matches ItemView::Time(t) ==> flat(it).len() == 10,
{
    match it {
        ItemView::Hp(h) => lemma_ewe_len((h.len() - 1) as nat),
        ItemView::Name(s) => lemma_ewe_len(s.len()),
        ItemView::Uint(n) => lemma_ewe_len(n),
        ItemView::Wrap(a, b) => lemma_ewe_len(8 * b.len()),
        ItemView::Time(t) => lemma_be_bytes(twos(t), 8),
        ItemView::Other => {},
    }
}

/// Law: a signed number is written modulo two to the 64, and reads back.
pub proof fn law_signed_numbers_wrap_around(t: i64)
    ensures
        t >= 0 ==> twos(t) == t,
        t < 0 ==> twos(t) == t + 0x1_0000_0000_0000_0000,
        untwos(twos(t)) == t,
{
}

/// Law: numbers are spelled with the most significant byte first: the last byte is worth itself, and each one
/// before it 256 times the next.
pub proof fn law_numbers_are_big_endian(v: nat, w: nat)
    ensures
        be_bytes(v, w).len() == w,
        w > 0 ==> be_bytes(v, w).last() == v % 256 && be_bytes(v, w).drop_last() == be_bytes(
            v / 256,
            (w - 1) as nat,
        ),
    decreases w,
{
    if w > 0 {
        law_numbers_are_big_endian(v / 256, (w - 1) as nat);
        assert(be_bytes(v, w).drop_last() =~= be_bytes(v / 256, (w - 1) as nat));
    }
}

/// Law: a counter takes the narrowest of one, two, four and eight bytes that holds it, behind a marker for that
/// width.
pub proof fn law_counter_takes_the_narrowest_width(n: nat)
    requires
        n <= u64::MAX,
    ensures
        n < 0x100 ==> ewe(n) == seq![0x33u8] + be_bytes(n, 1),
        0x100 <= n < 0x1_0000 ==> ewe(n) == seq![0x34u8] + be_bytes(n, 2),
        0x1_0000 <= n < 0x1_0000_0000 ==> ewe(n) == seq![0x35u8] + be_bytes(n, 4),
        n >= 0x1_0000_0000 ==> ewe(n) == seq![0x36u8] + be_bytes(n, 8),
{
}

}
