//! Spine and root entries: the commit objects and their classification.
//!
//! Each spine entry is a complete commit object: parent pointer (`prev_hash`), content root
//! (`hamt_hash`), geometry, write head and health, sealed like every block. Generation g lives at
//! slot `g mod N`. Empty is a verification state, not a generation number.
//!
//! Three-way classification is load-bearing:
//! - Valid: magic, seal, schema and geometry hold, and the generation belongs to the slot.
//! - Empty: zeroed, the expected state of a slot not written yet.
//! - Corrupt: anything else. Ambiguous, never compared; the head search branches around it.
use vstd::prelude::*;
use vstd::string::*;
use vstd::utf8::*;
use vstd::arithmetic::power2::*;
use vstd::bits::*;
use crate::block;
use crate::block::{array32, is_zero, Block};
use crate::error;
use crate::error::{corrupt_err, corrupt_num, Error, ErrorView, Result};
use crate::names;
use crate::names::SCHEMA;
use crate::seal;
use crate::seal::{
    begin_body, digest_from, find_hash, find_time, find_uint, hash_is, odd_hash, put_field,
    read_block_item, scan_fields, seal_block, starts_with_magic, FieldView, Stop, StopView,
};
use crate::text;
use crate::text::same_text;
use crate::wire;
use crate::wire::{uint_token, Item, ItemView, Token};

verus! {

/// One spine commit object.
#[derive(Debug, Clone, Copy, PartialEq)]
pub struct SpineEntry {
    pub gen: u64,
    /// Hash of the previous entry's body; zeros at genesis.
    pub prev_hash: [u8; 32],
    /// Ring exponent r: N = 1 << r. Exponent-encoded, so a ring is a power of two by law.
    pub ring_log2: u8,
    /// Tract length in blocks; any number.
    pub tract_blocks: u64,
    /// Merkle root of the entire vault state, and where in the tract it stands.
    pub hamt_hash: [u8; 32],
    pub hamt_lba: u64,
    /// Tract append head.
    pub plow: u64,
    /// Tract cleaning head. Entries written before there was one have none.
    pub reap: Option<u64>,
    /// Live tract blocks.
    pub live: u64,
    /// Caller-clock timestamp; the engine never interprets it.
    pub eagle_time: i64,
}

/// The mathematical view of a spine entry.
#[verifier::ext_equal]
pub struct SpineView {
    pub gen: u64,
    pub prev: Seq<u8>,
    pub ring: u8,
    pub tract: u64,
    pub hamt: Seq<u8>,
    pub hamtat: u64,
    pub plow: u64,
    pub reap: Option<u64>,
    pub live: u64,
    pub time: i64,
}

impl View for SpineEntry {
    type V = SpineView;

    open spec fn view(&self) -> SpineView {
        SpineView {
            gen: self.gen,
            prev: self.prev_hash@,
            ring: self.ring_log2,
            tract: self.tract_blocks,
            hamt: self.hamt_hash@,
            hamtat: self.hamt_lba,
            plow: self.plow,
            reap: self.reap,
            live: self.live,
            time: self.eagle_time,
        }
    }
}

impl SpineView {
    /// Whether the hashes have the length of hashes.
    pub open spec fn wf(&self) -> bool {
        self.prev.len() == 32 && self.hamt.len() == 32
    }

    /// What this generation lets appends reach: the end of what was clean when it was written. An
    /// entry without a reap grants nothing beyond its plow.
    pub open spec fn budget(&self) -> int {
        match self.reap {
            Some(r) => r + self.tract,
            None => self.plow as int,
        }
    }
}

/// The named values of a spine entry, in order.
pub open spec fn spine_fields(e: SpineView) -> Seq<FieldView> {
    let start = Seq::<FieldView>::empty().push(("gen"@, ItemView::Uint(e.gen as nat))).push(
        ("prev"@, ItemView::Hp(e.prev)),
    ).push(("ring"@, ItemView::Uint(e.ring as nat))).push(
        ("tract"@, ItemView::Uint(e.tract as nat)),
    ).push(("hamt"@, ItemView::Hp(e.hamt))).push(("hamtat"@, ItemView::Uint(e.hamtat as nat))).push(
        ("plow"@, ItemView::Uint(e.plow as nat)),
    );
    let mid = match e.reap {
        Some(r) => start.push(("reap"@, ItemView::Uint(r as nat))),
        None => start,
    };
    mid.push(("live"@, ItemView::Uint(e.live as nat))).push(("time"@, ItemView::Time(e.time)))
}

/// The block of a spine entry.
pub open spec fn spine_block(e: SpineView) -> Seq<u8> {
    seal::document(SCHEMA@, spine_fields(e))
}

/// The hash the next entry's `prev_hash` must be: that of this entry's body.
pub open spec fn spine_hash(e: SpineView) -> Seq<u8> {
    seal::digest(seal::padded(seal::body_of(SCHEMA@, spine_fields(e))))
}

/// A corruption error about the bytes of an entry.
pub open spec fn parse_error(t: Seq<char>) -> ErrorView {
    ErrorView::Corrupt("vsf parse: "@ + t)
}

/// The named values of a sealed block of this schema, and what stopped their reading.
pub open spec fn sealed_fields(b: Seq<u8>, schema: Seq<char>) -> core::result::Result<
    (Seq<FieldView>, Option<StopView>),
    ErrorView,
> {
    if !seal::has_magic(b) {
        Err(ErrorView::BadMagic)
    } else {
        match wire::parsed(b, 4) {
            Err(t) => Err(parse_error(t)),
            Ok((ItemView::Hp(stored), p)) => if !(4 < p < b.len() && b[p] == 0x3E) {
                Err(error::corrupt("expected '>' after hp"))
            } else if seal::digest(b.subrange(p + 1, b.len() as int)) != stored {
                Err(ErrorView::Seal)
            } else {
                match wire::parsed(b, p + 1) {
                    Err(t) => Err(parse_error(t)),
                    Ok((ItemView::Name(s), q)) => if s != schema {
                        Err(ErrorView::Corrupt("foreign schema: "@ + s))
                    } else {
                        Ok(seal::scan(b, q))
                    },
                    Ok(_) => Err(error::corrupt("expected schema id")),
                }
            },
            Ok(_) => Err(error::corrupt("expected hp after magic")),
        }
    }
}

/// The corruption of named values that stopped early.
pub open spec fn stop_error(s: StopView) -> ErrorView {
    match s {
        StopView::Name(t) => parse_error(t),
        StopView::Value(t) => parse_error(t),
        StopView::NoName => error::corrupt("expected field name"),
    }
}

/// The names under which a spine entry carries hashes.
pub open spec fn spine_hash_names() -> Seq<Seq<char>> {
    seq!["prev"@, "hamt"@]
}

/// The spine entry that named values spell out. The last value of a name counts; unknown names and
/// values of another kind are passed over.
pub open spec fn spine_from(fs: Seq<FieldView>, stop: Option<StopView>) -> core::result::Result<
    SpineView,
    ErrorView,
> {
    match seal::first_odd_hash(fs, spine_hash_names()) {
        Some((_, n)) => Err(ErrorView::Corrupt("hash length "@ + text::dec(n) + " != 32"@)),
        None => match stop {
            Some(s) => Err(stop_error(s)),
            None => if seal::last_uint(fs, "gen"@) is None {
                Err(error::corrupt("missing gen"))
            } else if seal::last_hash(fs, "prev"@) is None {
                Err(error::corrupt("missing prev"))
            } else if seal::last_uint(fs, "ring"@) is None {
                Err(error::corrupt("missing ring"))
            } else if seal::last_uint(fs, "tract"@) is None {
                Err(error::corrupt("missing tract"))
            } else if seal::last_hash(fs, "hamt"@) is None {
                Err(error::corrupt("missing hamt"))
            } else if seal::last_uint(fs, "hamtat"@) is None {
                Err(error::corrupt("missing hamtat"))
            } else if seal::last_uint(fs, "plow"@) is None {
                Err(error::corrupt("missing plow"))
            } else if seal::last_uint(fs, "live"@) is None {
                Err(error::corrupt("missing live"))
            } else if seal::last_time(fs, "time"@) is None {
                Err(error::corrupt("missing time"))
            } else {
                let ring = (seal::last_uint(fs, "ring"@)->0 % 256) as u8;
                if ring == 0 || ring > 32 {
                    Err(
                        ErrorView::Corrupt(
                            "insane ring exponent "@ + text::dec(ring as nat) + ""@,
                        ),
                    )
                } else {
                    Ok(
                        SpineView {
                            gen: seal::last_uint(fs, "gen"@)->0,
                            prev: seal::last_hash(fs, "prev"@)->0,
                            ring,
                            tract: seal::last_uint(fs, "tract"@)->0,
                            hamt: seal::last_hash(fs, "hamt"@)->0,
                            hamtat: seal::last_uint(fs, "hamtat"@)->0,
                            plow: seal::last_uint(fs, "plow"@)->0,
                            reap: seal::last_uint(fs, "reap"@),
                            live: seal::last_uint(fs, "live"@)->0,
                            time: seal::last_time(fs, "time"@)->0,
                        },
                    )
                }
            },
        },
    }
}

/// The spine entry a block holds, or why it holds none.
pub open spec fn spine_of(b: Seq<u8>) -> core::result::Result<SpineView, ErrorView> {
    match sealed_fields(b, SCHEMA@) {
        Err(e) => Err(e),
        Ok((fs, stop)) => spine_from(fs, stop),
    }
}

// ---------------------------------------------------------------- reading helpers

/// Builds the corruption error about the bytes of an entry.
pub(crate) fn parse_err(t: &String) -> (e: Error)
    ensures
        e@ == parse_error(t@),
{
    let mut s = "vsf parse: ".to_owned();
    s.append(t.as_str());
    Error::Corrupt(s)
}

/// Builds the error of named values that stopped early.
pub(crate) fn stop_err(s: &Stop) -> (e: Error)
    ensures
        Some(s) matches Some(x) && seal::stop_view(Some(*x)) matches Some(v) && e@ == stop_error(v),
{
    match s {
        Stop::Name(t) => parse_err(t),
        Stop::Value(t) => parse_err(t),
        Stop::NoName => corrupt_err("expected field name"),
    }
}

/// Checks a block's envelope and schema and reads its named values.
pub(crate) fn open_sealed(block: &Block, schema: &str) -> (r: Result<(Vec<(String, Item)>, Option<Stop>)>)
    ensures
        match r {
            Ok((fs, stop)) => sealed_fields(block@, schema@) == Ok::<
                (Seq<FieldView>, Option<StopView>),
                ErrorView,
            >((seal::fields_view(fs@), seal::stop_view(stop))),
            Err(e) => sealed_fields(block@, schema@) == Err::<
                (Seq<FieldView>, Option<StopView>),
                ErrorView,
            >(e@),
        },
{
    if !starts_with_magic(block) {
        return Err(Error::BadMagic);
    }
    match read_block_item(block, 4) {
        Err(t) => Err(parse_err(&t)),
        Ok((Item::Hp(stored), p)) => {
            if p >= 4096 || block[p] != 0x3E {
                return Err(corrupt_err("expected '>' after hp"));
            }
            let h = digest_from(block, p + 1);
            if !hash_is(&stored, &h) {
                return Err(Error::Seal);
            }
            match read_block_item(block, p + 1) {
                Err(t) => Err(parse_err(&t)),
                Ok((Item::Name(s), q)) => {
                    if !same_text(&s, schema) {
                        let mut m = "foreign schema: ".to_owned();
                        m.append(s.as_str());
                        return Err(Error::Corrupt(m));
                    }
                    Ok(scan_fields(block, q))
                },
                Ok(_) => Err(corrupt_err("expected schema id")),
            }
        },
        Ok(_) => Err(corrupt_err("expected hp after magic")),
    }
}

/// The length of the first hash of another length than 32 under one of two names.
pub(crate) fn find_odd(fs: &Vec<(String, Item)>, a: &str, b: &str) -> (r: Option<usize>)
    ensures
        match r {
            Some(n) => seal::first_odd_hash(seal::fields_view(fs@), seq![a@, b@]) matches Some(
                (_, m),
            ) && m == n,
            None => seal::first_odd_hash(seal::fields_view(fs@), seq![a@, b@]) is None,
        },
{
    let ghost all = seal::fields_view(fs@);
    let ghost ab = seq![a@, b@];
    let mut i: usize = 0;
    assert(all.take(0) =~= Seq::<FieldView>::empty());
    while i < fs.len()
        invariant
            i <= fs@.len(),
            all == seal::fields_view(fs@),
            ab == seq![a@, b@],
            seal::first_odd_hash(all.take(i as int), ab) is None,
        decreases fs@.len() - i,
    {
        let ghost next = all.take(i + 1);
        assert(next.drop_last() =~= all.take(i as int));
        assert(next.last() == (fs@[i as int].0@, fs@[i as int].1@));
        let named = same_text(&fs[i].0, a) || same_text(&fs[i].0, b);
        proof {
            assert(ab[0] == a@ && ab[1] == b@);
            if ab.contains(fs@[i as int].0@) {
                let k = choose|k: int| 0 <= k < ab.len() && ab[k] == fs@[i as int].0@;
            }
            assert(named == ab.contains(fs@[i as int].0@));
        }
        if named {
            if let Some(n) = odd_hash(&fs[i].1) {
                proof {
                    lemma_odd_stays(all, (i + 1) as int, ab);
                }
                return Some(n);
            }
        }
        i = i + 1;
    }
    assert(all.take(i as int) =~= all);
    None
}

/// The first odd hash of a beginning is the first of the whole.
pub proof fn lemma_odd_stays(fs: Seq<FieldView>, n: int, names: Seq<Seq<char>>)
    requires
        0 <= n <= fs.len(),
        seal::first_odd_hash(fs.take(n), names) is Some,
    ensures
        seal::first_odd_hash(fs, names) == seal::first_odd_hash(fs.take(n), names),
    decreases fs.len() - n,
{
    if n == fs.len() {
        assert(fs.take(n) =~= fs);
    } else {
        assert(fs.take(n + 1).drop_last() =~= fs.take(n));
        lemma_odd_stays(fs, n + 1, names);
    }
}

/// A hash among named values without an odd one is 32 bytes long.
pub proof fn lemma_hash_len(fs: Seq<FieldView>, names: Seq<Seq<char>>, name: Seq<char>)
    requires
        seal::first_odd_hash(fs, names) is None,
        names.contains(name),
    ensures
        seal::last_hash(fs, name) matches Some(h) ==> h.len() == 32,
    decreases fs.len(),
{
    if fs.len() > 0 {
        lemma_hash_len(fs.drop_last(), names, name);
    }
}

// ---------------------------------------------------------------- laws of the codec

/// Spine entries fit their block and can be written.
pub proof fn lemma_spine_fits(e: SpineView)
    requires
        e.wf(),
    ensures
        seal::fields_writable(spine_fields(e)),
        seal::body_of(SCHEMA@, spine_fields(e)).len() <= 4055,
        wire::writable(ItemView::Name(SCHEMA@)),
{
    names::lemma_spine_words_writable();
    let fs = spine_fields(e);
    assert forall|i: int| 0 <= i < fs.len() implies wire::writable((#[trigger] fs[i]).1)
        && wire::writable(ItemView::Name(fs[i].0)) && wire::flat(ItemView::Name(fs[i].0)).len()
        + wire::flat(fs[i].1).len() <= 60 by {
        wire::lemma_flat_len(ItemView::Name(fs[i].0));
        wire::lemma_flat_len(fs[i].1);
        assert(names::is_word(fs[i].0));
    }
    seal::lemma_fields_len(fs, 60);
    assert(fs.len() <= 10);
    wire::lemma_flat_len(ItemView::Name(SCHEMA@));
}

/// Law: a spine entry that was encoded decodes as itself.
pub proof fn law_spine_reads_back(e: SpineView)
    requires
        e.wf(),
        0 < e.ring <= 32,
    ensures
        spine_of(spine_block(e)) == Ok::<SpineView, ErrorView>(e),
        spine_block(e).len() == 4096,
        seal::hp_of(spine_block(e)) == Some(spine_hash(e)),
{
    broadcast use seal::group_push;

    lemma_spine_fits(e);
    seal::law_document_reads_back(SCHEMA@, spine_fields(e));
    seal::lemma_sealed(seal::padded(seal::body_of(SCHEMA@, spine_fields(e))));
    names::lemma_spine_words_differ();
    let fs = spine_fields(e);
    assert(seal::first_odd_hash(Seq::<FieldView>::empty(), spine_hash_names()) is None);
    assert(seal::last_uint(Seq::<FieldView>::empty(), "reap"@) is None);
    assert(e.ring as u64 % 256 == e.ring as u64);
}

/// Law: an entry whose ring exponent is out of range does not decode, though it was encoded.
pub proof fn law_insane_exponent_is_refused(e: SpineView)
    requires
        e.wf(),
        e.ring == 0 || e.ring > 32,
    ensures
        spine_of(spine_block(e)) == Err::<SpineView, ErrorView>(
            ErrorView::Corrupt("insane ring exponent "@ + text::dec(e.ring as nat) + ""@),
        ),
{
    broadcast use seal::group_push;

    lemma_spine_fits(e);
    seal::law_document_reads_back(SCHEMA@, spine_fields(e));
    seal::lemma_sealed(seal::padded(seal::body_of(SCHEMA@, spine_fields(e))));
    names::lemma_spine_words_differ();
    let fs = spine_fields(e);
    assert(seal::first_odd_hash(Seq::<FieldView>::empty(), spine_hash_names()) is None);
    assert(seal::last_uint(Seq::<FieldView>::empty(), "reap"@) is None);
    assert(e.ring as u64 % 256 == e.ring as u64);
}

/// Whether a name is one that a spine entry is read by.
pub open spec fn is_known(name: Seq<char>) -> bool {
    ||| name == "gen"@
    ||| name == "prev"@
    ||| name == "ring"@
    ||| name == "tract"@
    ||| name == "hamt"@
    ||| name == "hamtat"@
    ||| name == "plow"@
    ||| name == "reap"@
    ||| name == "live"@
    ||| name == "time"@
}

/// Values of other names do not change what is found under a name.
proof fn lemma_passed_over(fs: Seq<FieldView>, more: Seq<FieldView>, name: Seq<char>)
    requires
        forall|i: int| 0 <= i < more.len() ==> !is_known((#[trigger] more[i]).0),
        is_known(name),
    ensures
        seal::last_uint(fs + more, name) == seal::last_uint(fs, name),
        seal::last_hash(fs + more, name) == seal::last_hash(fs, name),
        seal::last_time(fs + more, name) == seal::last_time(fs, name),
        seal::first_odd_hash(fs + more, spine_hash_names()) == seal::first_odd_hash(
            fs,
            spine_hash_names(),
        ),
    decreases more.len(),
{
    if more.len() == 0 {
        assert(fs + more =~= fs);
    } else {
        let n = more.len() - 1;
        assert((fs + more).drop_last() =~= fs + more.drop_last());
        assert((fs + more).last() == more[n]);
        assert(!is_known(more[n].0));
        assert(more[n].0 != name);
        let names = spine_hash_names();
        assert(!names.contains(more[n].0)) by {
            assert(names.len() == 2 && names[0] == "prev"@ && names[1] == "hamt"@);
        }
        lemma_passed_over(fs, more.drop_last(), name);
    }
}

/// Law: values of names that are not known are read over. An entry with more of them behind it is the
/// entry.
pub proof fn law_unknown_fields_are_skipped(e: SpineView, more: Seq<FieldView>)
    requires
        e.wf(),
        0 < e.ring <= 32,
        seal::fields_writable(more),
        seal::body_of(SCHEMA@, spine_fields(e) + more).len() <= 4055,
        forall|i: int| 0 <= i < more.len() ==> !is_known((#[trigger] more[i]).0),
    ensures
        spine_of(seal::document(SCHEMA@, spine_fields(e) + more)) == Ok::<SpineView, ErrorView>(e),
{
    let fs = spine_fields(e);
    lemma_spine_fits(e);
    law_spine_reads_back(e);
    seal::law_document_reads_back(SCHEMA@, fs);
    seal::lemma_sealed(seal::padded(seal::body_of(SCHEMA@, fs)));
    seal::law_document_reads_back(SCHEMA@, fs + more);
    seal::lemma_sealed(seal::padded(seal::body_of(SCHEMA@, fs + more)));
    lemma_passed_over(fs, more, "gen"@);
    lemma_passed_over(fs, more, "prev"@);
    lemma_passed_over(fs, more, "ring"@);
    lemma_passed_over(fs, more, "tract"@);
    lemma_passed_over(fs, more, "hamt"@);
    lemma_passed_over(fs, more, "hamtat"@);
    lemma_passed_over(fs, more, "plow"@);
    lemma_passed_over(fs, more, "reap"@);
    lemma_passed_over(fs, more, "live"@);
    lemma_passed_over(fs, more, "time"@);
    assert(spine_from(fs, None) == Ok::<SpineView, ErrorView>(e));
    assert(spine_from(fs + more, None) == spine_from(fs, None));
}

impl SpineEntry {
    /// Encodes into a full block: envelope, schema, named values, zero padding. The seal covers the
    /// padding: a tampered tail reads corrupt.
    pub fn encode(&self) -> (r: Block)
        ensures
            r@ == spine_block(self@),
    {
        proof {
            names::lemma_spine_words_writable();
            lemma_spine_fits(self@);
        }
        let ghost e = self@;
        let ghost fs0 = Seq::<FieldView>::empty();
        let mut b = begin_body(SCHEMA);
        put_field(&mut b, Ghost(SCHEMA@), Ghost(fs0), "gen", uint_token(self.gen));
        let ghost fs1 = fs0.push(("gen"@, ItemView::Uint(e.gen as nat)));
        let prev = Token::Hp(block::copied(self.prev_hash.as_slice()));
        put_field(&mut b, Ghost(SCHEMA@), Ghost(fs1), "prev", prev);
        let ghost fs2 = fs1.push(("prev"@, ItemView::Hp(e.prev)));
        put_field(&mut b, Ghost(SCHEMA@), Ghost(fs2), "ring", uint_token(self.ring_log2 as u64));
        let ghost fs3 = fs2.push(("ring"@, ItemView::Uint(e.ring as nat)));
        put_field(&mut b, Ghost(SCHEMA@), Ghost(fs3), "tract", uint_token(self.tract_blocks));
        let ghost fs4 = fs3.push(("tract"@, ItemView::Uint(e.tract as nat)));
        let hamt = Token::Hp(block::copied(self.hamt_hash.as_slice()));
        put_field(&mut b, Ghost(SCHEMA@), Ghost(fs4), "hamt", hamt);
        let ghost fs5 = fs4.push(("hamt"@, ItemView::Hp(e.hamt)));
        put_field(&mut b, Ghost(SCHEMA@), Ghost(fs5), "hamtat", uint_token(self.hamt_lba));
        let ghost fs6 = fs5.push(("hamtat"@, ItemView::Uint(e.hamtat as nat)));
        put_field(&mut b, Ghost(SCHEMA@), Ghost(fs6), "plow", uint_token(self.plow));
        let ghost mut fs7 = fs6.push(("plow"@, ItemView::Uint(e.plow as nat)));
        if let Some(r) = self.reap {
            put_field(&mut b, Ghost(SCHEMA@), Ghost(fs7), "reap", uint_token(r));
            proof {
                fs7 = fs7.push(("reap"@, ItemView::Uint(r as nat)));
            }
        }
        put_field(&mut b, Ghost(SCHEMA@), Ghost(fs7), "live", uint_token(self.live));
        let ghost fs8 = fs7.push(("live"@, ItemView::Uint(e.live as nat)));
        put_field(&mut b, Ghost(SCHEMA@), Ghost(fs8), "time", Token::Time(self.eagle_time));
        assert(fs8.push(("time"@, ItemView::Time(e.time))) == spine_fields(e));
        seal_block(b)
    }

    /// Decodes and verifies a block. Errors are classification inputs, not diagnostics: callers map
    /// any failure to Corrupt.
    pub fn decode(block: &Block) -> (r: Result<Self>)
        ensures
            match r {
                Ok(e) => spine_of(block@) == Ok::<SpineView, ErrorView>(e@) && e@.wf(),
                Err(x) => spine_of(block@) == Err::<SpineView, ErrorView>(x@),
            },
    {
        let (fs, stop) = match open_sealed(block, SCHEMA) {
            Ok(x) => x,
            Err(e) => return Err(e),
        };
        let ghost all = seal::fields_view(fs@);
        if let Some(n) = find_odd(&fs, "prev", "hamt") {
            return Err(corrupt_num("hash length ", n as u64, " != 32"));
        }
        proof {
            let ab = spine_hash_names();
            assert(ab[0] == "prev"@ && ab[1] == "hamt"@);
            lemma_hash_len(all, ab, "prev"@);
            lemma_hash_len(all, ab, "hamt"@);
        }
        if let Some(s) = &stop {
            return Err(stop_err(s));
        }
        let gen: u64 = match find_uint(&fs, "gen") {
            Some(x) => x,
            None => return Err(corrupt_err("missing gen")),
        };
        let prev = match find_hash(&fs, "prev") {
            Some(x) => x,
            None => return Err(corrupt_err("missing prev")),
        };
        let ring: u64 = match find_uint(&fs, "ring") {
            Some(x) => x,
            None => return Err(corrupt_err("missing ring")),
        };
        let tract: u64 = match find_uint(&fs, "tract") {
            Some(x) => x,
            None => return Err(corrupt_err("missing tract")),
        };
        let hamt = match find_hash(&fs, "hamt") {
            Some(x) => x,
            None => return Err(corrupt_err("missing hamt")),
        };
        let hamtat: u64 = match find_uint(&fs, "hamtat") {
            Some(x) => x,
            None => return Err(corrupt_err("missing hamtat")),
        };
        let plow: u64 = match find_uint(&fs, "plow") {
            Some(x) => x,
            None => return Err(corrupt_err("missing plow")),
        };
        let live: u64 = match find_uint(&fs, "live") {
            Some(x) => x,
            None => return Err(corrupt_err("missing live")),
        };
        let time: i64 = match find_time(&fs, "time") {
            Some(x) => x,
            None => return Err(corrupt_err("missing time")),
        };
        let reap: Option<u64> = find_uint(&fs, "reap");
        let ring_log2: u8 = (ring % 256) as u8;
        if ring_log2 == 0 || ring_log2 > 32 {
            return Err(corrupt_num("insane ring exponent ", ring_log2 as u64, ""));
        }
        Ok(
            SpineEntry {
                gen,
                prev_hash: array32(prev.as_slice()),
                ring_log2,
                tract_blocks: tract,
                hamt_hash: array32(hamt.as_slice()),
                hamt_lba: hamtat,
                plow,
                reap,
                live,
                eagle_time: time,
            },
        )
    }

    /// Hash of this entry's encoded body: what the next entry's `prev_hash` must be.
    pub fn body_hash(&self) -> (h: [u8; 32])
        ensures
            h@ == spine_hash(self@),
    {
        let block = self.encode();
        proof {
            lemma_spine_fits(self@);
            seal::lemma_sealed(seal::padded(seal::body_of(SCHEMA@, spine_fields(self@))));
        }
        digest_from(&block, 41)
    }
}

// ---------------------------------------------------------------- classification

/// Three-way classification. A sealed entry at the wrong slot is Corrupt: a block cannot lie about
/// its generation, because the slot's expected residue is known before the read is trusted.
pub enum Classified {
    Valid(SpineEntry),
    Empty,
    Corrupt,
}

/// The mathematical view of a classification.
pub enum ClassView {
    Valid(SpineView),
    Empty,
    Corrupt,
}

impl View for Classified {
    type V = ClassView;

    open spec fn view(&self) -> ClassView {
        match self {
            Classified::Valid(e) => ClassView::Valid(e@),
            Classified::Empty => ClassView::Empty,
            Classified::Corrupt => ClassView::Corrupt,
        }
    }
}

/// What a block read from `slot` is, in a ring whose exponent is `ring`. While that is not known,
/// whether the entry belongs at the slot is left open.
pub open spec fn class_of(b: Seq<u8>, slot: u64, ring: Option<u8>) -> ClassView {
    if b == block::zeros() {
        ClassView::Empty
    } else {
        match spine_of(b) {
            Ok(e) => if ring matches Some(r) && (e.ring != r || e.gen as int % (pow2(
                e.ring as nat,
            ) as int) != slot) {
                ClassView::Corrupt
            } else {
                ClassView::Valid(e)
            },
            Err(_) => ClassView::Corrupt,
        }
    }
}

/// What a block read from `slot` is, in a ring that is to be found out: its own entry says the
/// exponent, and must belong at the slot by it.
pub open spec fn boot_class(b: Seq<u8>, slot: u64) -> ClassView {
    match class_of(b, slot, None) {
        ClassView::Valid(e) => class_of(b, slot, Some(e.ring)),
        c => c,
    }
}

/// Law: a block cannot lie about its generation. What is taken for an entry of a ring at a slot says
/// that it is of that ring, and its generation belongs at that slot.
pub proof fn law_entry_stands_at_its_slot(b: Seq<u8>, slot: u64, ring: u8)
    ensures
        class_of(b, slot, Some(ring)) matches ClassView::Valid(e) ==> e.ring == ring && e.gen as int
            % (pow2(ring as nat) as int) == slot,
{
}

/// The number of slots of a ring.
pub fn slot_count(ring_log2: u8) -> (n: u64)
    requires
        ring_log2 < 64,
    ensures
        n == pow2(ring_log2 as nat),
        n > 0,
{
    proof {
        lemma_u64_pow2_no_overflow(ring_log2 as nat);
        lemma_pow2_pos(ring_log2 as nat);
        lemma_u64_shl_is_mul(1, ring_log2 as u64);
        assert(1 * pow2(ring_log2 as nat) == pow2(ring_log2 as nat));
    }
    1u64 << (ring_log2 as u64)
}

/// The exponent of a decoded entry is a sane one.
pub proof fn lemma_spine_ring(b: Seq<u8>)
    ensures
        spine_of(b) matches Ok(e) ==> 0 < e.ring <= 32,
{
}

/// Classifies a block read from `slot`. Pass None where N is not known yet: any entry is then Valid,
/// and whether it belongs at the slot is the caller's to see once N is known.
pub fn classify(block: &Block, slot: u64, ring_log2: Option<u8>) -> (c: Classified)
    ensures
        c@ == class_of(block@, slot, ring_log2),
        c matches Classified::Valid(e) ==> e@.wf(),
{
    if is_zero(block) {
        return Classified::Empty;
    }
    match SpineEntry::decode(block) {
        Ok(e) => {
            if let Some(r) = ring_log2 {
                if e.ring_log2 != r {
                    return Classified::Corrupt;
                }
                proof {
                    lemma_spine_ring(block@);
                }
                let n: u64 = slot_count(e.ring_log2);
                if e.gen % n != slot {
                    return Classified::Corrupt;
                }
            }
            Classified::Valid(e)
        },
        Err(_) => Classified::Corrupt,
    }
}

/// Classifies a block read from `slot` of a ring that is to be found out.
pub(crate) fn boot_classify(block: &Block, slot: u64) -> (c: Classified)
    ensures
        c@ == boot_class(block@, slot),
        c matches Classified::Valid(e) ==> e@.wf(),
{
    match classify(block, slot, None) {
        Classified::Valid(e) => classify(block, slot, Some(e.ring_log2)),
        c => c,
    }
}

/// Whether anything real is here: magic and self-hash hold, under any schema. A valid block is its
/// own proof.
pub fn block_is_sealed(block: &Block) -> (r: bool)
    ensures
        r == (seal::seal_of(block@) is Some),
{
    seal::sealed_hp(block).is_some()
}

/// Law: a spine entry is written under its own names, in this order; the reap is left out where there is none.
pub proof fn law_spine_entry_is_named(e: SpineView)
    ensures
        spine_fields(e).len() == (if e.reap is Some {
            10nat
        } else {
            9nat
        }),
        spine_fields(e)[0] == ("gen"@, ItemView::Uint(e.gen as nat)),
        spine_fields(e)[1] == ("prev"@, ItemView::Hp(e.prev)),
        spine_fields(e)[2] == ("ring"@, ItemView::Uint(e.ring as nat)),
        spine_fields(e)[3] == ("tract"@, ItemView::Uint(e.tract as nat)),
        spine_fields(e)[4] == ("hamt"@, ItemView::Hp(e.hamt)),
        spine_fields(e)[5] == ("hamtat"@, ItemView::Uint(e.hamtat as nat)),
        spine_fields(e)[6] == ("plow"@, ItemView::Uint(e.plow as nat)),
        e.reap matches Some(r) ==> spine_fields(e)[7] == ("reap"@, ItemView::Uint(r as nat)),
        spine_fields(e)[spine_fields(e).len() - 2] == ("live"@, ItemView::Uint(e.live as nat)),
        spine_fields(e).last() == ("time"@, ItemView::Time(e.time)),
{
}

/// Law: an entry grants appends its reap and a lap; one without a reap nothing beyond its plow.
pub proof fn law_budget_is_a_lap_beyond_the_reap(e: SpineView)
    ensures
        e.reap matches Some(r) ==> e.budget() == r + e.tract,
        e.reap is None ==> e.budget() == e.plow,
{
}

/// Law: a block of zeros is an empty slot, and a block that is no entry is damage. An entry is taken at a slot
/// exactly where it says that it is of that ring and its generation comes to that slot.
pub proof fn law_slot_holds_an_entry_or_damage(b: Seq<u8>, slot: u64, ring: u8)
    ensures
        class_of(b, slot, Some(ring)) is Empty <==> b == block::zeros(),
        b != block::zeros() && spine_of(b) is Err ==> class_of(b, slot, Some(ring)) is Corrupt,
        b != block::zeros() ==> (spine_of(b) matches Ok(e) ==> class_of(b, slot, Some(ring)) == (
        if e.ring == ring && e.gen as int % (pow2(ring as nat) as int) == slot {
            ClassView::Valid(e)
        } else {
            ClassView::Corrupt
        })),
{
}

/// Law: an entry is read exactly where every value but the reap is there under its name, its hashes are 32 bytes
/// long, nothing stopped the reading, and the exponent is sane; and each value is the one under its name.
pub proof fn law_entry_needs_every_value_but_the_reap(fs: Seq<FieldView>, stop: Option<StopView>)
    ensures
        spine_from(fs, stop) is Ok <==> {
            &&& seal::first_odd_hash(fs, seq!["prev"@, "hamt"@]) is None
            &&& stop is None
            &&& seal::last_uint(fs, "gen"@) is Some && seal::last_hash(fs, "prev"@) is Some
            &&& seal::last_uint(fs, "tract"@) is Some && seal::last_hash(fs, "hamt"@) is Some
            &&& seal::last_uint(fs, "hamtat"@) is Some && seal::last_uint(fs, "plow"@) is Some
            &&& seal::last_uint(fs, "live"@) is Some && seal::last_time(fs, "time"@) is Some
            &&& seal::last_uint(fs, "ring"@) matches Some(x) && 1 <= x % 256 <= 32
        },
        spine_from(fs, stop) matches Ok(e) ==> {
            &&& seal::last_uint(fs, "gen"@) == Some(e.gen)
            &&& seal::last_hash(fs, "prev"@) == Some(e.prev)
            &&& seal::last_uint(fs, "tract"@) == Some(e.tract)
            &&& seal::last_hash(fs, "hamt"@) == Some(e.hamt)
            &&& seal::last_uint(fs, "hamtat"@) == Some(e.hamtat)
            &&& seal::last_uint(fs, "plow"@) == Some(e.plow)
            &&& seal::last_uint(fs, "reap"@) == e.reap
            &&& seal::last_uint(fs, "live"@) == Some(e.live)
            &&& seal::last_time(fs, "time"@) == Some(e.time)
            &&& seal::last_uint(fs, "ring"@) matches Some(x) && x % 256 == e.ring
        },
{
}

/// Law: only a sealed block is read: one that begins with the magic, and whose body has the digest stored before
/// it. A block of another schema is foreign.
pub proof fn law_only_sealed_blocks_are_read(b: Seq<u8>, schema: Seq<char>)
    ensures
        sealed_fields(b, schema) is Ok ==> seal::seal_of(b) is Some,
        !seal::has_magic(b) ==> sealed_fields(b, schema) == Err::<
            (Seq<FieldView>, Option<StopView>),
            ErrorView,
        >(ErrorView::BadMagic),
        seal::seal_of(b) matches Some((_, p)) ==> (wire::parsed(b, p) matches Ok((
            ItemView::Name(s),
            q,
        )) ==> if s == schema {
            sealed_fields(b, schema) == Ok::<(Seq<FieldView>, Option<StopView>), ErrorView>(
                seal::scan(b, q),
            )
        } else {
            sealed_fields(b, schema) matches Err(e) && e is Corrupt
        }),
{
}

/// Law: while a ring is to be found out, a block counts as an entry exactly where its own exponent brings its
/// generation to the slot that it stands at.
pub proof fn law_entry_vouches_for_its_own_ring(b: Seq<u8>, slot: u64)
    ensures
        boot_class(b, slot) matches ClassView::Valid(e) ==> spine_of(b) == Ok::<
            SpineView,
            ErrorView,
        >(e) && e.gen as int % (pow2(e.ring as nat) as int) == slot,
        b != block::zeros() ==> (spine_of(b) matches Ok(e) ==> (e.gen as int % (pow2(
            e.ring as nat,
        ) as int) == slot ==> boot_class(b, slot) == ClassView::Valid(e))),
        b == block::zeros() ==> boot_class(b, slot) is Empty,
{
}

}
