//! The root ring of the migrating layout: four slots that name where the spine lives.
//!
//! On raw flash even the spine's region moves. A root entry names the residence the spine is at and
//! the one it was at before; the next one is written only after its residence has been cleared, so a
//! boot finds the spine at one of the two.
use vstd::prelude::*;
use vstd::string::*;
use vstd::arithmetic::power2::*;
use crate::block;
use crate::block::{array32, zero_block, Block, BlockDev};
use crate::error;
use crate::error::{corrupt_err, corrupt_num, ErrorView, Result};
use crate::mirror::Mirror;
use crate::names;
use crate::names::SCHEMA_ROOT;
use crate::seal;
use crate::seal::{begin_body, digest_from, find_hash, find_time, find_uint, put_field, seal_block, FieldView, StopView};
use crate::spine;
use crate::spine::{find_odd, open_sealed, slot_count, stop_err};
use crate::text;
use crate::wire;
use crate::wire::{uint_token, ItemView, Token};

verus! {

/// Slots of the root ring.
pub const ROOT_SLOTS: u64 = 4;

/// One root entry.
#[derive(Debug, Clone, Copy, PartialEq)]
pub struct RootEntry {
    pub gen: u64,
    /// Hash of the previous root entry's body; zeros at genesis.
    pub prev_hash: [u8; 32],
    /// Ring exponent of the spine.
    pub ring_log2: u8,
    /// Where the spine is.
    pub at: u64,
    /// Where the spine was before.
    pub was: u64,
    /// The first generation committed at this residence.
    pub since: u64,
    /// Residences in the band.
    pub residences: u64,
    /// Rotations the spine stays at a residence.
    pub residency: u64,
    pub eagle_time: i64,
}

/// The mathematical view of a root entry.
#[verifier::ext_equal]
pub struct RootView {
    pub gen: u64,
    pub prev: Seq<u8>,
    pub ring: u8,
    pub at: u64,
    pub was: u64,
    pub since: u64,
    pub residences: u64,
    pub residency: u64,
    pub time: i64,
}

impl View for RootEntry {
    type V = RootView;

    open spec fn view(&self) -> RootView {
        RootView {
            gen: self.gen,
            prev: self.prev_hash@,
            ring: self.ring_log2,
            at: self.at,
            was: self.was,
            since: self.since,
            residences: self.residences,
            residency: self.residency,
            time: self.eagle_time,
        }
    }
}

impl RootView {
    /// Where the residences end and the tract begins.
    pub open spec fn band(&self) -> int {
        4 + self.residences * pow2(self.ring as nat)
    }

    /// Whether the band has addresses and both residences lie in it.
    pub open spec fn sane(&self) -> bool {
        &&& 0 < self.ring <= 32
        &&& self.band() <= u64::MAX
        &&& 4 <= self.at && self.at + pow2(self.ring as nat) <= self.band()
        &&& 4 <= self.was && self.was + pow2(self.ring as nat) <= self.band()
    }
}

/// The named values of a root entry, in order.
pub open spec fn root_fields(e: RootView) -> Seq<FieldView> {
    Seq::<FieldView>::empty().push(("gen"@, ItemView::Uint(e.gen as nat))).push(
        ("prev"@, ItemView::Hp(e.prev)),
    ).push(("ring"@, ItemView::Uint(e.ring as nat))).push(("at"@, ItemView::Uint(e.at as nat))).push(
        ("was"@, ItemView::Uint(e.was as nat)),
    ).push(("since"@, ItemView::Uint(e.since as nat))).push(
        ("resid"@, ItemView::Uint(e.residences as nat)),
    ).push(("stay"@, ItemView::Uint(e.residency as nat))).push(("time"@, ItemView::Time(e.time)))
}

/// The block of a root entry.
pub open spec fn root_block(e: RootView) -> Seq<u8> {
    seal::document(SCHEMA_ROOT@, root_fields(e))
}

/// The hash the next root entry's `prev_hash` must be.
pub open spec fn root_hash(e: RootView) -> Seq<u8> {
    seal::digest(seal::padded(seal::body_of(SCHEMA_ROOT@, root_fields(e))))
}

/// The root entry that named values spell out.
pub open spec fn root_from(fs: Seq<FieldView>, stop: Option<StopView>) -> core::result::Result<
    RootView,
    ErrorView,
> {
    match seal::first_odd_hash(fs, seq!["prev"@, "prev"@]) {
        Some((_, n)) => Err(ErrorView::Corrupt("hash length "@ + text::dec(n) + " != 32"@)),
        None => match stop {
            Some(s) => Err(spine::stop_error(s)),
            None => if seal::last_uint(fs, "gen"@) is None || seal::last_hash(fs, "prev"@) is None
                || seal::last_uint(fs, "ring"@) is None || seal::last_uint(fs, "at"@) is None
                || seal::last_uint(fs, "was"@) is None || seal::last_uint(fs, "since"@) is None
                || seal::last_uint(fs, "resid"@) is None || seal::last_uint(fs, "stay"@) is None
                || seal::last_time(fs, "time"@) is None {
                Err(error::corrupt("root entry lacks a field"))
            } else {
                let e = RootView {
                    gen: seal::last_uint(fs, "gen"@)->0,
                    prev: seal::last_hash(fs, "prev"@)->0,
                    ring: (seal::last_uint(fs, "ring"@)->0 % 256) as u8,
                    at: seal::last_uint(fs, "at"@)->0,
                    was: seal::last_uint(fs, "was"@)->0,
                    since: seal::last_uint(fs, "since"@)->0,
                    residences: seal::last_uint(fs, "resid"@)->0,
                    residency: seal::last_uint(fs, "stay"@)->0,
                    time: seal::last_time(fs, "time"@)->0,
                };
                if e.sane() {
                    Ok(e)
                } else {
                    Err(error::corrupt("root entry names no residence"))
                }
            },
        },
    }
}

/// The root entry a block holds, or why it holds none.
pub open spec fn root_of(b: Seq<u8>) -> core::result::Result<RootView, ErrorView> {
    match spine::sealed_fields(b, SCHEMA_ROOT@) {
        Err(e) => Err(e),
        Ok((fs, stop)) => root_from(fs, stop),
    }
}

/// The root entry that slot `slot` of a disk holds, at the slot where it belongs.
pub open spec fn root_at(disk: Seq<Seq<u8>>, slot: int) -> Option<RootView> {
    if 0 <= slot < 4 && slot < disk.len() {
        match root_of(disk[slot]) {
            Ok(e) => if e.gen % 4 == slot {
                Some(e)
            } else {
                None
            },
            Err(_) => None,
        }
    } else {
        None
    }
}

/// Whether `r` is the newest root entry of a disk, or there is none.
pub open spec fn is_newest_root(disk: Seq<Seq<u8>>, r: Option<RootView>) -> bool {
    match r {
        Some(e) => {
            &&& root_at(disk, e.gen as int % 4) == Some(e)
            &&& forall|s: int| (#[trigger] root_at(disk, s)) matches Some(x) ==> x.gen <= e.gen
        },
        None => forall|s: int| (#[trigger] root_at(disk, s)) is None,
    }
}

proof fn lemma_root_fits(e: RootView)
    requires
        e.prev.len() == 32,
    ensures
        seal::fields_writable(root_fields(e)),
        seal::body_of(SCHEMA_ROOT@, root_fields(e)).len() <= 4055,
        wire::writable(ItemView::Name(SCHEMA_ROOT@)),
{
    names::lemma_spine_words_writable();
    let fs = root_fields(e);
    assert forall|i: int| 0 <= i < fs.len() implies wire::writable((#[trigger] fs[i]).1)
        && wire::writable(ItemView::Name(fs[i].0)) && wire::flat(ItemView::Name(fs[i].0)).len()
        + wire::flat(fs[i].1).len() <= 60 by {
        wire::lemma_flat_len(ItemView::Name(fs[i].0));
        wire::lemma_flat_len(fs[i].1);
        assert(names::is_word(fs[i].0));
    }
    seal::lemma_fields_len(fs, 60);
    wire::lemma_flat_len(ItemView::Name(SCHEMA_ROOT@));
}

/// Law: a root entry that was encoded decodes as itself, and is no spine entry.
pub proof fn law_root_reads_back(e: RootView)
    requires
        e.prev.len() == 32,
        e.sane(),
    ensures
        root_of(root_block(e)) == Ok::<RootView, ErrorView>(e),
        root_block(e).len() == 4096,
        spine::spine_of(root_block(e)) is Err,
{
    broadcast use seal::group_push;

    lemma_root_fits(e);
    seal::law_document_reads_back(SCHEMA_ROOT@, root_fields(e));
    seal::lemma_sealed(seal::padded(seal::body_of(SCHEMA_ROOT@, root_fields(e))));
    names::lemma_spine_words_differ();
    assert(e.ring as u64 % 256 == e.ring as u64);
}

impl RootEntry {
    /// Encodes into a full block.
    pub fn encode(&self) -> (r: Block)
        ensures
            r@ == root_block(self@),
    {
        proof {
            names::lemma_spine_words_writable();
            lemma_root_fits(self@);
        }
        let ghost e = self@;
        let ghost fs0 = Seq::<FieldView>::empty();
        let mut b = begin_body(SCHEMA_ROOT);
        put_field(&mut b, Ghost(SCHEMA_ROOT@), Ghost(fs0), "gen", uint_token(self.gen));
        let ghost fs1 = fs0.push(("gen"@, ItemView::Uint(e.gen as nat)));
        let prev = Token::Hp(block::copied(self.prev_hash.as_slice()));
        put_field(&mut b, Ghost(SCHEMA_ROOT@), Ghost(fs1), "prev", prev);
        let ghost fs2 = fs1.push(("prev"@, ItemView::Hp(e.prev)));
        put_field(&mut b, Ghost(SCHEMA_ROOT@), Ghost(fs2), "ring", uint_token(self.ring_log2 as u64));
        let ghost fs3 = fs2.push(("ring"@, ItemView::Uint(e.ring as nat)));
        put_field(&mut b, Ghost(SCHEMA_ROOT@), Ghost(fs3), "at", uint_token(self.at));
        let ghost fs4 = fs3.push(("at"@, ItemView::Uint(e.at as nat)));
        put_field(&mut b, Ghost(SCHEMA_ROOT@), Ghost(fs4), "was", uint_token(self.was));
        let ghost fs5 = fs4.push(("was"@, ItemView::Uint(e.was as nat)));
        put_field(&mut b, Ghost(SCHEMA_ROOT@), Ghost(fs5), "since", uint_token(self.since));
        let ghost fs6 = fs5.push(("since"@, ItemView::Uint(e.since as nat)));
        put_field(&mut b, Ghost(SCHEMA_ROOT@), Ghost(fs6), "resid", uint_token(self.residences));
        let ghost fs7 = fs6.push(("resid"@, ItemView::Uint(e.residences as nat)));
        put_field(&mut b, Ghost(SCHEMA_ROOT@), Ghost(fs7), "stay", uint_token(self.residency));
        let ghost fs8 = fs7.push(("stay"@, ItemView::Uint(e.residency as nat)));
        put_field(&mut b, Ghost(SCHEMA_ROOT@), Ghost(fs8), "time", Token::Time(self.eagle_time));
        assert(fs8.push(("time"@, ItemView::Time(e.time))) == root_fields(e));
        seal_block(b)
    }

    /// Decodes and verifies a block.
    pub fn decode(block: &Block) -> (r: Result<Self>)
        ensures
            match r {
                Ok(e) => root_of(block@) == Ok::<RootView, ErrorView>(e@),
                Err(x) => root_of(block@) == Err::<RootView, ErrorView>(x@),
            },
    {
        let (fs, stop) = match open_sealed(block, SCHEMA_ROOT) {
            Ok(x) => x,
            Err(e) => return Err(e),
        };
        let ghost all = seal::fields_view(fs@);
        if let Some(n) = find_odd(&fs, "prev", "prev") {
            return Err(corrupt_num("hash length ", n as u64, " != 32"));
        }
        proof {
            let ab = seq!["prev"@, "prev"@];
            assert(ab[0] == "prev"@);
            spine::lemma_hash_len(all, ab, "prev"@);
        }
        if let Some(s) = &stop {
            return Err(stop_err(s));
        }
        let gen: Option<u64> = find_uint(&fs, "gen");
        let prev = find_hash(&fs, "prev");
        let ring: Option<u64> = find_uint(&fs, "ring");
        let at: Option<u64> = find_uint(&fs, "at");
        let was: Option<u64> = find_uint(&fs, "was");
        let since: Option<u64> = find_uint(&fs, "since");
        let resid: Option<u64> = find_uint(&fs, "resid");
        let stay: Option<u64> = find_uint(&fs, "stay");
        let time: Option<i64> = find_time(&fs, "time");
        match (gen, prev, ring, at, was, since, resid, stay, time) {
            (
                Some(gen),
                Some(prev),
                Some(ring),
                Some(at),
                Some(was),
                Some(since),
                Some(resid),
                Some(stay),
                Some(time),
            ) => {
                let e = RootEntry {
                    gen,
                    prev_hash: array32(prev.as_slice()),
                    ring_log2: (ring % 256) as u8,
                    at,
                    was,
                    since,
                    residences: resid,
                    residency: stay,
                    eagle_time: time,
                };
                if e.is_sane() {
                    Ok(e)
                } else {
                    Err(corrupt_err("root entry names no residence"))
                }
            },
            _ => Err(corrupt_err("root entry lacks a field")),
        }
    }

    /// Whether the band has addresses and both residences lie in it.
    pub fn is_sane(&self) -> (r: bool)
        ensures
            r == self@.sane(),
    {
        if self.ring_log2 == 0 || self.ring_log2 > 32 {
            return false;
        }
        let n: u64 = slot_count(self.ring_log2);
        let band: u64 = match self.residences.checked_mul(n) {
            Some(x) => if x <= u64::MAX - 4 {
                x + 4
            } else {
                return false;
            },
            None => return false,
        };
        4 <= self.at && self.at <= band && n <= band - self.at && 4 <= self.was && self.was <= band
            && n <= band - self.was
    }

    /// Hash of this entry's encoded body.
    pub fn body_hash(&self) -> (h: [u8; 32])
        ensures
            h@ == root_hash(self@),
    {
        let block = self.encode();
        proof {
            lemma_root_fits(self@);
            seal::lemma_sealed(seal::padded(seal::body_of(SCHEMA_ROOT@, root_fields(self@))));
        }
        digest_from(&block, 41)
    }
}

/// The newest root entry of a device, where it has one.
pub fn read_root<D: BlockDev>(dev: &mut D) -> (r: Result<Option<RootEntry>>)
    ensures
        (*final(dev)).disk() == (*old(dev)).disk(),
        (*final(dev)).reliable() == (*old(dev)).reliable(),
        (*final(dev)).limit() == (*old(dev)).limit(),
        match r {
            Ok(Some(e)) => is_newest_root((*old(dev)).disk(), Some(e@)),
            Ok(None) => is_newest_root((*old(dev)).disk(), None),
            Err(e) => block::device_error(e@),
        },
        (*old(dev)).reliable() ==> r is Ok,
{
    let ghost d = (*dev).disk();
    let mut best: Option<RootEntry> = None;
    let mut buf = zero_block();
    let count: u64 = dev.block_count();
    let probe: u64 = if count < 4 {
        count
    } else {
        4
    };
    let mut slot: u64 = 0;
    while slot < probe
        invariant
            slot <= probe,
            probe <= 4,
            d == (*old(dev)).disk(),
            (*dev).disk() == d,
            (*dev).reliable() == (*old(dev)).reliable(),
            (*dev).limit() == (*old(dev)).limit(),
            probe == (if d.len() < 4 {
                d.len()
            } else {
                4
            }),
            match best {
                Some(e) => e@.gen % 4 < slot && root_at(d, e@.gen as int % 4) == Some(e@)
                    && forall|s: int|
                    0 <= s < slot ==> ((#[trigger] root_at(d, s)) matches Some(x) ==> x.gen
                        <= e@.gen),
                None => forall|s: int| 0 <= s < slot ==> (#[trigger] root_at(d, s)) is None,
            },
        decreases probe - slot,
    {
        dev.read(slot, &mut buf)?;
        if let Ok(e) = RootEntry::decode(&buf) {
            if e.gen % 4 == slot {
                assert(root_at(d, slot as int) == Some(e@));
                let newer = match &best {
                    Some(x) => e.gen > x.gen,
                    None => true,
                };
                if newer {
                    best = Some(e);
                }
            } else {
                assert(root_at(d, slot as int) is None);
            }
        } else {
            assert(root_at(d, slot as int) is None);
        }
        slot = slot + 1;
    }
    Ok(best)
}

/// Writes a root entry at its slot, verified.
pub fn append_root<A: BlockDev, B: BlockDev>(mirror: &mut Mirror<A, B>, root: &RootEntry) -> (r:
    Result<()>)
    ensures
        final(mirror).carries_on(old(mirror)),
        block::only_changed(old(mirror).disk(), final(mirror).disk(), root.gen as int % 4),
        r is Ok ==> root.gen % 4 < old(mirror).disk().len() && final(mirror).disk() == old(mirror).disk().update(root.gen as int % 4, root_block(root@)),
        r is Ok && final(mirror).second() is Some ==> final(mirror).second() == Some(
            old(mirror).second()->0.update(root.gen as int % 4, root_block(root@)),
        ),
        r matches Err(e) ==> block::device_error(e@),
        old(mirror).reliable() && root.gen % 4 < old(mirror).disk().len() ==> r is Ok,
{
    let block = root.encode();
    mirror.write_verified(root.gen % 4, &block)
}

/// Law: a root entry is written under its own names, in this order.
pub proof fn law_root_entry_is_named(e: RootView)
    ensures
        root_fields(e).len() == 9,
        root_fields(e)[0] == ("gen"@, ItemView::Uint(e.gen as nat)),
        root_fields(e)[1] == ("prev"@, ItemView::Hp(e.prev)),
        root_fields(e)[2] == ("ring"@, ItemView::Uint(e.ring as nat)),
        root_fields(e)[3] == ("at"@, ItemView::Uint(e.at as nat)),
        root_fields(e)[4] == ("was"@, ItemView::Uint(e.was as nat)),
        root_fields(e)[5] == ("since"@, ItemView::Uint(e.since as nat)),
        root_fields(e)[6] == ("resid"@, ItemView::Uint(e.residences as nat)),
        root_fields(e)[7] == ("stay"@, ItemView::Uint(e.residency as nat)),
        root_fields(e)[8] == ("time"@, ItemView::Time(e.time)),
{
}

/// Law: the newest root entry is the one of the highest generation that any of the four slots holds where it
/// belongs.
pub proof fn law_newest_root_entry_is_read(disk: Seq<Seq<u8>>, r: Option<RootView>, s: int)
    requires
        is_newest_root(disk, r),
        0 <= s < 4,
        s < disk.len(),
    ensures
        (root_of(disk[s]) matches Ok(e) && e.gen % 4 == s) ==> (r matches Some(x) && (root_of(
            disk[s],
        )->Ok_0).gen <= x.gen),
        r matches Some(x) ==> x.gen % 4 < disk.len() && root_of(disk[x.gen as int % 4]) == Ok::<
            RootView,
            ErrorView,
        >(x),
{
    assert(root_at(disk, s) is Some || root_at(disk, s) is None);
}

/// Law: a root entry is read exactly where every value is there under its name, nothing stopped the reading, and
/// both residences that it names lie in the band behind the root slots.
pub proof fn law_root_entry_names_residences_of_its_band(
    fs: Seq<FieldView>,
    stop: Option<StopView>,
    e: RootView,
)
    requires
        root_from(fs, stop) == Ok::<RootView, ErrorView>(e),
    ensures
        stop is None,
        1 <= e.ring <= 32,
        4 <= e.at && e.at + pow2(e.ring as nat) <= 4 + e.residences * pow2(e.ring as nat),
        4 <= e.was && e.was + pow2(e.ring as nat) <= 4 + e.residences * pow2(e.ring as nat),
        4 + e.residences * pow2(e.ring as nat) <= u64::MAX,
        seal::last_uint(fs, "gen"@) == Some(e.gen),
        seal::last_hash(fs, "prev"@) == Some(e.prev),
        seal::last_uint(fs, "at"@) == Some(e.at),
        seal::last_uint(fs, "was"@) == Some(e.was),
        seal::last_uint(fs, "since"@) == Some(e.since),
        seal::last_uint(fs, "resid"@) == Some(e.residences),
        seal::last_uint(fs, "stay"@) == Some(e.residency),
        seal::last_time(fs, "time"@) == Some(e.time),
{
}

}
