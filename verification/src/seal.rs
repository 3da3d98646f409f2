//! Sealed documents: the one envelope every block of the engine wears.
//!
//! A block is `RÅ<`, a hash, `>`, and a body; the hash is BLAKE3 of the body, padding included. The
//! body is a schema name followed by named values, then zeros. The same check tells a spine entry,
//! an index node, a leaf or a furrow from trash: a block is sealed, empty, or corrupt.
use vstd::prelude::*;
use vstd::string::*;
use vstd::utf8::*;
use crate::block::{array32, copied, same32, Block};
use crate::text::same_text;
use crate::wire;
use crate::wire::{as_u64, read_item, vsf_flatten, Item, ItemView, Token};

verus! {

/// `RÅ<`: R, Å in UTF-8, and the opening bracket. The only magic on the medium.
pub const MAGIC: [u8; 4] = [0x52, 0xC3, 0x85, 0x3C];

/// Where a body begins: the magic, a 36-byte hash value, the closing bracket.
pub const BODY_AT: usize = 41;

/// Bytes of body in a block.
pub const BODY: usize = 4055;

/// BLAKE3 of some bytes: what `blake3::hash` returns.
pub uninterp spec fn blake3_digest(data: Seq<u8>) -> [u8; 32];

/// The 32 bytes of BLAKE3 of `data`.
pub open spec fn digest(data: Seq<u8>) -> Seq<u8> {
    blake3_digest(data)@
}

/// `blake3::hash`. It is claimed that the digest depends on the bytes alone.
#[verifier::external_body]
pub(crate) fn blake3_hash(data: &[u8]) -> (h: [u8; 32])
    ensures
        h == blake3_digest(data@),
{
    *blake3::hash(data).as_bytes()
}

/// The magic bytes.
pub open spec fn magic() -> Seq<u8> {
    seq![0x52u8, 0xC3u8, 0x85u8, 0x3Cu8]
}

/// Whether a block begins with the magic.
pub open spec fn has_magic(b: Seq<u8>) -> bool {
    b.len() >= 4 && b[0] == 0x52 && b[1] == 0xC3 && b[2] == 0x85 && b[3] == 0x3C
}

/// `n` zero bytes.
pub open spec fn padding(n: nat) -> Seq<u8> {
    Seq::new(n, |i: int| 0u8)
}

/// A body filled up to its block.
pub open spec fn padded(body: Seq<u8>) -> Seq<u8> {
    body + padding((4055 - body.len()) as nat)
}

/// The block that seals a body.
pub open spec fn sealed(body: Seq<u8>) -> Seq<u8> {
    magic() + wire::flat(ItemView::Hp(digest(body))) + seq![0x3Eu8] + body
}

/// The hash a block is sealed with and where its body begins, where its seal holds.
pub open spec fn seal_of(b: Seq<u8>) -> Option<(Seq<u8>, int)> {
    if !has_magic(b) {
        None
    } else {
        match wire::parsed(b, 4) {
            Ok((ItemView::Hp(stored), p)) => if 4 < p < b.len() && b[p] == 0x3E && digest(
                b.subrange(p + 1, b.len() as int),
            ) == stored {
                Some((stored, p + 1))
            } else {
                None
            },
            _ => None,
        }
    }
}

/// The hash a block is sealed with, where its seal holds.
pub open spec fn hp_of(b: Seq<u8>) -> Option<Seq<u8>> {
    match seal_of(b) {
        Some((h, _)) => Some(h),
        None => None,
    }
}

/// A named value.
pub type FieldView = (Seq<char>, ItemView);

/// The bytes of named values, in order.
pub open spec fn fields_bytes(fs: Seq<FieldView>) -> Seq<u8>
    decreases fs.len(),
{
    if fs.len() == 0 {
        Seq::<u8>::empty()
    } else {
        fields_bytes(fs.drop_last()) + wire::flat(ItemView::Name(fs.last().0)) + wire::flat(
            fs.last().1,
        )
    }
}

/// The body of a document.
pub open spec fn body_of(schema: Seq<char>, fs: Seq<FieldView>) -> Seq<u8> {
    wire::flat(ItemView::Name(schema)) + fields_bytes(fs)
}

/// The block of a document.
pub open spec fn document(schema: Seq<char>, fs: Seq<FieldView>) -> Seq<u8> {
    sealed(padded(body_of(schema, fs)))
}

/// Why the reading of named values stopped early: the name or the value could not be read, in
/// words, or what stood for a name was none.
pub enum StopView {
    Name(Seq<char>),
    Value(Seq<char>),
    NoName,
}

/// Why the reading of named values stopped early.
pub enum Stop {
    Name(String),
    Value(String),
    NoName,
}

/// The view of an early stop.
pub open spec fn stop_view(w: Option<Stop>) -> Option<StopView> {
    match w {
        Some(Stop::Name(s)) => Some(StopView::Name(s@)),
        Some(Stop::Value(s)) => Some(StopView::Value(s@)),
        Some(Stop::NoName) => Some(StopView::NoName),
        None => None,
    }
}

/// The named values from `p` on, up to the first byte that opens no name, and what stopped the
/// reading before that, if anything did.
pub open spec fn scan(b: Seq<u8>, p: int) -> (Seq<FieldView>, Option<StopView>)
    decreases
            (if p < b.len() {
                b.len() - p
            } else {
                0
            }),
{
    if p < 0 || p >= b.len() || b[p] != 0x64 {
        (Seq::<FieldView>::empty(), None)
    } else {
        match wire::parsed(b, p) {
            Err(t) => (Seq::<FieldView>::empty(), Some(StopView::Name(t))),
            Ok((ItemView::Name(name), q)) => match wire::parsed(b, q) {
                Err(t) => (Seq::<FieldView>::empty(), Some(StopView::Value(t))),
                Ok((v, r)) => if p < q < r {
                    let rest = scan(b, r);
                    (seq![(name, v)] + rest.0, rest.1)
                } else {
                    (Seq::<FieldView>::empty(), None)
                },
            },
            Ok(_) => (Seq::<FieldView>::empty(), Some(StopView::NoName)),
        }
    }
}

/// The last counter named `name`.
pub open spec fn last_uint(fs: Seq<FieldView>, name: Seq<char>) -> Option<u64>
    decreases fs.len(),
{
    if fs.len() == 0 {
        None
    } else if fs.last().0 == name && wire::uint_of(fs.last().1) is Some {
        wire::uint_of(fs.last().1)
    } else {
        last_uint(fs.drop_last(), name)
    }
}

/// The last hash named `name`.
pub open spec fn last_hash(fs: Seq<FieldView>, name: Seq<char>) -> Option<Seq<u8>>
    decreases fs.len(),
{
    if fs.len() == 0 {
        None
    } else if fs.last().0 == name && fs.last().1 is Hp {
        Some(fs.last().1->Hp_0)
    } else {
        last_hash(fs.drop_last(), name)
    }
}

/// The last timestamp named `name`.
pub open spec fn last_time(fs: Seq<FieldView>, name: Seq<char>) -> Option<i64>
    decreases fs.len(),
{
    if fs.len() == 0 {
        None
    } else if fs.last().0 == name && fs.last().1 is Time {
        Some(fs.last().1->Time_0)
    } else {
        last_time(fs.drop_last(), name)
    }
}

/// The last payload named `name`.
pub open spec fn last_wrap(fs: Seq<FieldView>, name: Seq<char>) -> Option<Seq<u8>>
    decreases fs.len(),
{
    if fs.len() == 0 {
        None
    } else if fs.last().0 == name && fs.last().1 is Wrap {
        Some(fs.last().1->Wrap_1)
    } else {
        last_wrap(fs.drop_last(), name)
    }
}

/// All counters named `name`, in order.
pub open spec fn all_uints(fs: Seq<FieldView>, name: Seq<char>) -> Seq<u64>
    decreases fs.len(),
{
    if fs.len() == 0 {
        Seq::<u64>::empty()
    } else if fs.last().0 == name && wire::uint_of(fs.last().1) is Some {
        all_uints(fs.drop_last(), name).push(wire::uint_of(fs.last().1)->0)
    } else {
        all_uints(fs.drop_last(), name)
    }
}

/// All hashes named `name` that are 32 bytes long, in order.
pub open spec fn all_hashes(fs: Seq<FieldView>, name: Seq<char>) -> Seq<Seq<u8>>
    decreases fs.len(),
{
    if fs.len() == 0 {
        Seq::<Seq<u8>>::empty()
    } else if fs.last().0 == name && fs.last().1 is Hp && fs.last().1->Hp_0.len() == 32 {
        all_hashes(fs.drop_last(), name).push(fs.last().1->Hp_0)
    } else {
        all_hashes(fs.drop_last(), name)
    }
}

/// The first value that is a hash of another length than 32, among those named in `names`: the
/// name, and the length.
pub open spec fn first_odd_hash(fs: Seq<FieldView>, names: Seq<Seq<char>>) -> Option<
    (Seq<char>, nat),
>
    decreases fs.len(),
{
    if fs.len() == 0 {
        None
    } else {
        match first_odd_hash(fs.drop_last(), names) {
            Some(x) => Some(x),
            None => if names.contains(fs.last().0) && fs.last().1 is Hp
                && fs.last().1->Hp_0.len() != 32 {
                Some((fs.last().0, fs.last().1->Hp_0.len()))
            } else {
                None
            },
        }
    }
}

// ---------------------------------------------------------------- writing

/// A zeroed block has no seal.
pub proof fn lemma_zero_unsealed()
    ensures
        hp_of(crate::block::zeros()) is None,
{
    let z = crate::block::zeros();
    assert(z[0] == 0);
    assert(magic()[0] == 0x52);
}

/// Begins a body with its schema name.
pub(crate) fn begin_body(schema: &str) -> (b: Vec<u8>)
    requires
        is_ascii_chars(schema@),
        schema@.len() < 0x100,
    ensures
        b@ == body_of(schema@, Seq::<FieldView>::empty()),
{
    let b = vsf_flatten(Token::Name(schema.to_owned()));
    assert(b@ =~= body_of(schema@, Seq::<FieldView>::empty()));
    b
}

/// Adds a named value to a body.
pub(crate) fn put_field(
    b: &mut Vec<u8>,
    Ghost(schema): Ghost<Seq<char>>,
    Ghost(fs): Ghost<Seq<FieldView>>,
    name: &str,
    value: Token,
)
    requires
        is_ascii_chars(name@),
        name@.len() < 0x100,
        wire::writable(value@),
        value matches Token::Large(x) ==> x > u32::MAX,
        old(b)@ == body_of(schema, fs),
    ensures
        final(b)@ == body_of(schema, fs.push((name@, value@))),
{
    let ghost added = (name@, value@);
    let n = vsf_flatten(Token::Name(name.to_owned()));
    let v = vsf_flatten(value);
    b.extend_from_slice(n.as_slice());
    b.extend_from_slice(v.as_slice());
    proof {
        assert(fs.push(added).drop_last() =~= fs);
        assert(b@ =~= body_of(schema, fs.push(added)));
    }
}

/// Copies bytes into a block.
fn copy_into(buf: &mut Block, at: usize, src: &[u8])
    requires
        at + src@.len() <= 4096,
    ensures
        final(buf)@ == old(buf)@.subrange(0, at as int) + src@ + old(buf)@.subrange(
            at + src@.len(),
            4096,
        ),
{
    let mut i: usize = 0;
    while i < src.len()
        invariant
            i <= src@.len(),
            at + src@.len() <= 4096,
            forall|j: int| 0 <= j < i ==> buf@[at + j] == src@[j],
            forall|j: int| 0 <= j < at ==> buf@[j] == old(buf)@[j],
            forall|j: int| at + src@.len() <= j < 4096 ==> buf@[j] == old(buf)@[j],
        decreases src@.len() - i,
    {
        buf[at + i] = src[i];
        i = i + 1;
    }
    assert(buf@ =~= old(buf)@.subrange(0, at as int) + src@ + old(buf)@.subrange(
        at + src@.len(),
        4096,
    )) by {
        let want = old(buf)@.subrange(0, at as int) + src@ + old(buf)@.subrange(
            at + src@.len(),
            4096,
        );
        assert forall|k: int| 0 <= k < 4096 implies buf@[k] == want[k] by {
            if at <= k < at + src@.len() {
                assert(buf@[at + (k - at)] == src@[k - at]);
            }
        }
    }
}

/// Seals a body into its block.
pub(crate) fn seal_block(body: Vec<u8>) -> (r: Block)
    requires
        body@.len() <= 4055,
    ensures
        r@ == sealed(padded(body@)),
{
    let ghost given = body@;
    let mut body = body;
    while body.len() < 4055
        invariant
            given.len() <= body@.len() <= 4055,
            body@ == given + padding((body@.len() - given.len()) as nat),
        decreases 4055 - body@.len(),
    {
        body.push(0);
        assert(body@ =~= given + padding((body@.len() - given.len()) as nat));
    }
    assert(body@ == padded(given));
    let hash = blake3_hash(body.as_slice());
    let hp = vsf_flatten(Token::Hp(copied(hash.as_slice())));
    proof {
        wire::lemma_flat_len(ItemView::Hp(hash@));
    }
    let mut buf: Block = [0u8; 4096];
    let start: [u8; 4] = [0x52, 0xC3, 0x85, 0x3C];
    assert(start@ =~= magic());
    copy_into(&mut buf, 0, start.as_slice());
    copy_into(&mut buf, 4, hp.as_slice());
    buf[40] = 0x3E;
    copy_into(&mut buf, 41, body.as_slice());
    assert(buf@ =~= sealed(padded(given)));
    buf
}

// ---------------------------------------------------------------- reading

/// Whether a block begins with the magic.
pub(crate) fn starts_with_magic(b: &Block) -> (r: bool)
    ensures
        r == has_magic(b@),
{
    b[0] == 0x52 && b[1] == 0xC3 && b[2] == 0x85 && b[3] == 0x3C
}

/// The digest of a block's bytes from `from` on.
pub(crate) fn digest_from(b: &Block, from: usize) -> (h: [u8; 32])
    requires
        from <= 4096,
    ensures
        h@ == digest(b@.subrange(from as int, 4096)),
{
    let s = b.as_slice();
    let tail = vstd::slice::slice_subrange(s, from, 4096);
    blake3_hash(tail)
}

/// Reads the wire value at `at` in a block.
pub(crate) fn read_block_item(b: &Block, at: usize) -> (r: core::result::Result<
    (Item, usize),
    String,
>)
    ensures
        wire::parse_view(r) == wire::parsed(b@, at as int),
        r matches Ok((_, q)) ==> at < q <= 4096,
{
    read_item(b.as_slice(), at)
}

/// Whether a hash of any length is this digest.
pub(crate) fn hash_is(stored: &Vec<u8>, h: &[u8; 32]) -> (r: bool)
    ensures
        r == (stored@ == h@),
{
    if stored.len() != 32 {
        assert(stored@.len() != h@.len());
        return false;
    }
    same32(&array32(stored.as_slice()), h)
}

/// Extracts the sealing hash from a block if and only if the seal verifies. Schema-agnostic: spine
/// entries, index nodes, furrows and leaves all answer.
pub fn sealed_hp(block: &Block) -> (r: Option<[u8; 32]>)
    ensures
        match r {
            Some(h) => hp_of(block@) == Some(h@),
            None => hp_of(block@) is None,
        },
{
    if !starts_with_magic(block) {
        return None;
    }
    match read_block_item(block, 4) {
        Ok((Item::Hp(stored), p)) => {
            if p >= 4096 || block[p] != 0x3E {
                return None;
            }
            let h = digest_from(block, p + 1);
            if !hash_is(&stored, &h) {
                return None;
            }
            Some(h)
        },
        _ => None,
    }
}

/// The view of read values.
pub open spec fn fields_view(fs: Seq<(String, Item)>) -> Seq<FieldView> {
    Seq::new(fs.len(), |i: int| (fs[i].0@, fs[i].1@))
}

/// Reads the named values from `at` on.
pub(crate) fn scan_fields(b: &Block, at: usize) -> (r: (Vec<(String, Item)>, Option<Stop>))
    ensures
        fields_view(r.0@) == scan(b@, at as int).0,
        stop_view(r.1) == scan(b@, at as int).1,
{
    let mut fs: Vec<(String, Item)> = Vec::new();
    let mut p: usize = at;
    let ghost whole = scan(b@, at as int);
    assert(fields_view(fs@) + scan(b@, p as int).0 =~= whole.0);
    while p < 4096 && b[p] == 0x64
        invariant
            at <= p,
            b@.len() == 4096,
            whole == scan(b@, at as int),
            fields_view(fs@) + scan(b@, p as int).0 == whole.0,
            scan(b@, p as int).1 == whole.1,
        decreases
                (if p < 4096 {
                    4096 - p
                } else {
                    0
                }),
    {
        let ghost p0 = p as int;
        let ghost rest = scan(b@, p0);
        match read_block_item(b, p) {
            Err(t) => {
                assert(fields_view(fs@) =~= whole.0);
                return (fs, Some(Stop::Name(t)));
            },
            Ok((Item::Name(name), q)) => {
                match read_block_item(b, q) {
                    Err(t) => {
                        assert(fields_view(fs@) =~= whole.0);
                        return (fs, Some(Stop::Value(t)));
                    },
                    Ok((v, r)) => {
                        let ghost before = fields_view(fs@);
                        let ghost added = (name@, v@);
                        fs.push((name, v));
                        p = r;
                        assert(fields_view(fs@) =~= before.push(added));
                        assert(fields_view(fs@) + scan(b@, p as int).0 =~= before + rest.0);
                    },
                }
            },
            Ok(_) => {
                assert(fields_view(fs@) =~= whole.0);
                return (fs, Some(Stop::NoName));
            },
        }
    }
    assert(fields_view(fs@) =~= whole.0);
    (fs, None)
}

/// The last counter named `name`.
pub(crate) fn find_uint(fs: &Vec<(String, Item)>, name: &str) -> (r: Option<u64>)
    ensures
        r == last_uint(fields_view(fs@), name@),
{
    let mut i: usize = 0;
    let mut found: Option<u64> = None;
    let ghost all = fields_view(fs@);
    assert(all.take(0) =~= Seq::<FieldView>::empty());
    while i < fs.len()
        invariant
            i <= fs@.len(),
            all == fields_view(fs@),
            found == last_uint(all.take(i as int), name@),
        decreases fs@.len() - i,
    {
        let ghost next = all.take(i + 1);
        assert(next.drop_last() =~= all.take(i as int));
        assert(next.last() == (fs@[i as int].0@, fs@[i as int].1@));
        if same_text(&fs[i].0, name) {
            let u: Option<u64> = as_u64(&fs[i].1);
            if u.is_some() {
                found = u;
            }
        }
        i = i + 1;
    }
    assert(all.take(i as int) =~= all);
    found
}

/// The last hash named `name`.
pub(crate) fn find_hash(fs: &Vec<(String, Item)>, name: &str) -> (r: Option<Vec<u8>>)
    ensures
        match r {
            Some(h) => last_hash(fields_view(fs@), name@) == Some(h@),
            None => last_hash(fields_view(fs@), name@) is None,
        },
{
    let mut i: usize = 0;
    let mut found: Option<Vec<u8>> = None;
    let ghost all = fields_view(fs@);
    assert(all.take(0) =~= Seq::<FieldView>::empty());
    while i < fs.len()
        invariant
            i <= fs@.len(),
            all == fields_view(fs@),
            match found {
                Some(h) => last_hash(all.take(i as int), name@) == Some(h@),
                None => last_hash(all.take(i as int), name@) is None,
            },
        decreases fs@.len() - i,
    {
        let ghost next = all.take(i + 1);
        assert(next.drop_last() =~= all.take(i as int));
        assert(next.last() == (fs@[i as int].0@, fs@[i as int].1@));
        if same_text(&fs[i].0, name) {
            match &fs[i].1 {
                Item::Hp(h) => {
                    found = Some(copied(h.as_slice()));
                },
                _ => {},
            }
        }
        i = i + 1;
    }
    assert(all.take(i as int) =~= all);
    found
}

/// The last timestamp named `name`.
pub(crate) fn find_time(fs: &Vec<(String, Item)>, name: &str) -> (r: Option<i64>)
    ensures
        r == last_time(fields_view(fs@), name@),
{
    let mut i: usize = 0;
    let mut found: Option<i64> = None;
    let ghost all = fields_view(fs@);
    assert(all.take(0) =~= Seq::<FieldView>::empty());
    while i < fs.len()
        invariant
            i <= fs@.len(),
            all == fields_view(fs@),
            found == last_time(all.take(i as int), name@),
        decreases fs@.len() - i,
    {
        let ghost next = all.take(i + 1);
        assert(next.drop_last() =~= all.take(i as int));
        assert(next.last() == (fs@[i as int].0@, fs@[i as int].1@));
        if same_text(&fs[i].0, name) {
            match &fs[i].1 {
                Item::Time(t) => {
                    found = Some(*t);
                },
                _ => {},
            }
        }
        i = i + 1;
    }
    assert(all.take(i as int) =~= all);
    found
}

/// The last payload named `name`.
pub(crate) fn find_wrap(fs: &Vec<(String, Item)>, name: &str) -> (r: Option<Vec<u8>>)
    ensures
        match r {
            Some(h) => last_wrap(fields_view(fs@), name@) == Some(h@),
            None => last_wrap(fields_view(fs@), name@) is None,
        },
{
    let mut i: usize = 0;
    let mut found: Option<Vec<u8>> = None;
    let ghost all = fields_view(fs@);
    assert(all.take(0) =~= Seq::<FieldView>::empty());
    while i < fs.len()
        invariant
            i <= fs@.len(),
            all == fields_view(fs@),
            match found {
                Some(h) => last_wrap(all.take(i as int), name@) == Some(h@),
                None => last_wrap(all.take(i as int), name@) is None,
            },
        decreases fs@.len() - i,
    {
        let ghost next = all.take(i + 1);
        assert(next.drop_last() =~= all.take(i as int));
        assert(next.last() == (fs@[i as int].0@, fs@[i as int].1@));
        if same_text(&fs[i].0, name) {
            match &fs[i].1 {
                Item::Wrap(_, h) => {
                    found = Some(copied(h.as_slice()));
                },
                _ => {},
            }
        }
        i = i + 1;
    }
    assert(all.take(i as int) =~= all);
    found
}

/// All counters named `name`, in order.
pub(crate) fn find_uints(fs: &Vec<(String, Item)>, name: &str) -> (r: Vec<u64>)
    ensures
        r@ == all_uints(fields_view(fs@), name@),
{
    let mut i: usize = 0;
    let mut found: Vec<u64> = Vec::new();
    let ghost all = fields_view(fs@);
    assert(all.take(0) =~= Seq::<FieldView>::empty());
    while i < fs.len()
        invariant
            i <= fs@.len(),
            all == fields_view(fs@),
            found@ == all_uints(all.take(i as int), name@),
        decreases fs@.len() - i,
    {
        let ghost next = all.take(i + 1);
        assert(next.drop_last() =~= all.take(i as int));
        assert(next.last() == (fs@[i as int].0@, fs@[i as int].1@));
        if same_text(&fs[i].0, name) {
            if let Some(u) = as_u64(&fs[i].1) {
                found.push(u);
            }
        }
        i = i + 1;
    }
    assert(all.take(i as int) =~= all);
    found
}

/// The views of some 32-byte hashes.
pub open spec fn hashes_view(hs: Seq<[u8; 32]>) -> Seq<Seq<u8>> {
    Seq::new(hs.len(), |i: int| hs[i]@)
}

/// All hashes named `name` that are 32 bytes long, in order.
pub(crate) fn find_hashes(fs: &Vec<(String, Item)>, name: &str) -> (r: Vec<[u8; 32]>)
    ensures
        hashes_view(r@) == all_hashes(fields_view(fs@), name@),
{
    let mut i: usize = 0;
    let mut found: Vec<[u8; 32]> = Vec::new();
    let ghost all = fields_view(fs@);
    assert(all.take(0) =~= Seq::<FieldView>::empty());
    assert(hashes_view(found@) =~= Seq::<Seq<u8>>::empty());
    while i < fs.len()
        invariant
            i <= fs@.len(),
            all == fields_view(fs@),
            hashes_view(found@) == all_hashes(all.take(i as int), name@),
        decreases fs@.len() - i,
    {
        let ghost next = all.take(i + 1);
        assert(next.drop_last() =~= all.take(i as int));
        assert(next.last() == (fs@[i as int].0@, fs@[i as int].1@));
        if same_text(&fs[i].0, name) {
            match &fs[i].1 {
                Item::Hp(h) => {
                    if h.len() == 32 {
                        let ghost before = hashes_view(found@);
                        found.push(array32(h.as_slice()));
                        assert(hashes_view(found@) =~= before.push(h@));
                    }
                },
                _ => {},
            }
        }
        i = i + 1;
    }
    assert(all.take(i as int) =~= all);
    found
}

/// Whether a value is a hash of another length than 32.
pub(crate) fn odd_hash(it: &Item) -> (r: Option<usize>)
    ensures
        match r {
            Some(n) => it@ is Hp && it@->Hp_0.len() == n && n != 32,
            None => !(it@ is Hp && it@->Hp_0.len() != 32),
        },
{
    match it {
        Item::Hp(h) => if h.len() != 32 {
            Some(h.len())
        } else {
            None
        },
        _ => None,
    }
}

// ---------------------------------------------------------------- one value more

pub broadcast proof fn lemma_last_uint_push(fs: Seq<FieldView>, x: FieldView, name: Seq<char>)
    ensures
        #[trigger] last_uint(fs.push(x), name) == (if x.0 == name && wire::uint_of(x.1) is Some {
            wire::uint_of(x.1)
        } else {
            last_uint(fs, name)
        }),
{
    assert(fs.push(x).drop_last() =~= fs);
}

pub broadcast proof fn lemma_last_hash_push(fs: Seq<FieldView>, x: FieldView, name: Seq<char>)
    ensures
        #[trigger] last_hash(fs.push(x), name) == (if x.0 == name && x.1 is Hp {
            Some(x.1->Hp_0)
        } else {
            last_hash(fs, name)
        }),
{
    assert(fs.push(x).drop_last() =~= fs);
}

pub broadcast proof fn lemma_last_time_push(fs: Seq<FieldView>, x: FieldView, name: Seq<char>)
    ensures
        #[trigger] last_time(fs.push(x), name) == (if x.0 == name && x.1 is Time {
            Some(x.1->Time_0)
        } else {
            last_time(fs, name)
        }),
{
    assert(fs.push(x).drop_last() =~= fs);
}

pub broadcast proof fn lemma_last_wrap_push(fs: Seq<FieldView>, x: FieldView, name: Seq<char>)
    ensures
        #[trigger] last_wrap(fs.push(x), name) == (if x.0 == name && x.1 is Wrap {
            Some(x.1->Wrap_1)
        } else {
            last_wrap(fs, name)
        }),
{
    assert(fs.push(x).drop_last() =~= fs);
}

pub broadcast proof fn lemma_all_uints_push(fs: Seq<FieldView>, x: FieldView, name: Seq<char>)
    ensures
        #[trigger] all_uints(fs.push(x), name) == (if x.0 == name && wire::uint_of(x.1) is Some {
            all_uints(fs, name).push(wire::uint_of(x.1)->0)
        } else {
            all_uints(fs, name)
        }),
{
    assert(fs.push(x).drop_last() =~= fs);
}

pub broadcast proof fn lemma_all_hashes_push(fs: Seq<FieldView>, x: FieldView, name: Seq<char>)
    ensures
        #[trigger] all_hashes(fs.push(x), name) == (if x.0 == name && x.1 is Hp
            && x.1->Hp_0.len() == 32 {
            all_hashes(fs, name).push(x.1->Hp_0)
        } else {
            all_hashes(fs, name)
        }),
{
    assert(fs.push(x).drop_last() =~= fs);
}

pub broadcast proof fn lemma_odd_hash_push(
    fs: Seq<FieldView>,
    x: FieldView,
    names: Seq<Seq<char>>,
)
    ensures
        #[trigger] first_odd_hash(fs.push(x), names) == (match first_odd_hash(fs, names) {
            Some(y) => Some(y),
            None => if names.contains(x.0) && x.1 is Hp && x.1->Hp_0.len() != 32 {
                Some((x.0, x.1->Hp_0.len()))
            } else {
                None
            },
        }),
{
    assert(fs.push(x).drop_last() =~= fs);
}

pub broadcast group group_push {
    lemma_last_uint_push,
    lemma_last_hash_push,
    lemma_last_time_push,
    lemma_last_wrap_push,
    lemma_all_uints_push,
    lemma_all_hashes_push,
    lemma_odd_hash_push,
}

/// Named values of at most `m` bytes each take at most `m` bytes each.
pub proof fn lemma_fields_len(fs: Seq<FieldView>, m: nat)
    requires
        forall|i: int|
            0 <= i < fs.len() ==> wire::flat(ItemView::Name((#[trigger] fs[i]).0)).len()
                + wire::flat(fs[i].1).len() <= m,
    ensures
        fields_bytes(fs).len() <= m * fs.len(),
    decreases fs.len(),
{
    if fs.len() > 0 {
        assert forall|i: int| 0 <= i < fs.drop_last().len() implies wire::flat(
            ItemView::Name((#[trigger] fs.drop_last()[i]).0),
        ).len() + wire::flat(fs.drop_last()[i].1).len() <= m by {
            assert(fs.drop_last()[i] == fs[i]);
        }
        lemma_fields_len(fs.drop_last(), m);
        assert(fs.last() == fs[fs.len() - 1]);
        assert(m * fs.len() == m * (fs.len() - 1) + m) by (nonlinear_arith);
    }
}

// ---------------------------------------------------------------- what was sealed reads back

/// Whether every value of a document can be written.
pub open spec fn fields_writable(fs: Seq<FieldView>) -> bool {
    forall|i: int|
        0 <= i < fs.len() ==> wire::writable((#[trigger] fs[i]).1) && wire::writable(
            ItemView::Name(fs[i].0),
        )
}

proof fn lemma_fields_bytes_front(fs: Seq<FieldView>)
    requires
        fs.len() > 0,
    ensures
        fields_bytes(fs) == wire::flat(ItemView::Name(fs[0].0)) + wire::flat(fs[0].1)
            + fields_bytes(fs.drop_first()),
    decreases fs.len(),
{
    let head = wire::flat(ItemView::Name(fs[0].0)) + wire::flat(fs[0].1);
    if fs.len() == 1 {
        assert(fs.drop_last() =~= Seq::<FieldView>::empty());
        assert(fs.drop_first() =~= Seq::<FieldView>::empty());
        assert(fields_bytes(fs) =~= head + fields_bytes(fs.drop_first()));
    } else {
        let init = fs.drop_last();
        lemma_fields_bytes_front(init);
        assert(init.drop_first() =~= fs.drop_first().drop_last());
        assert(fs.drop_first().last() == fs.last());
        assert(init[0] == fs[0]);
        assert(fields_bytes(fs) =~= head + fields_bytes(fs.drop_first()));
    }
}

proof fn lemma_scan_back(b: Seq<u8>, p: int, fs: Seq<FieldView>)
    requires
        fields_writable(fs),
        wire::stands_at(b, p, fields_bytes(fs)),
        p + fields_bytes(fs).len() == b.len() || b[p + fields_bytes(fs).len()] != 0x64,
    ensures
        scan(b, p) == (fs, None::<StopView>),
    decreases fs.len(),
{
    if fs.len() == 0 {
        assert(fs =~= Seq::<FieldView>::empty());
    } else {
        lemma_fields_bytes_front(fs);
        let n = wire::flat(ItemView::Name(fs[0].0));
        let v = wire::flat(fs[0].1);
        let rest = fields_bytes(fs.drop_first());
        wire::lemma_stands_parts(b, p, n + v, rest);
        wire::lemma_stands_parts(b, p, n, v);
        assert(wire::writable(fs[0].1) && wire::writable(ItemView::Name(fs[0].0)));
        wire::law_written_value_reads_back(b, p, ItemView::Name(fs[0].0));
        wire::law_written_value_reads_back(b, p + n.len(), fs[0].1);
        assert(n[0] == 0x64);
        assert(b[p] == n[p - p]);
        assert(fields_writable(fs.drop_first())) by {
            assert forall|i: int| 0 <= i < fs.drop_first().len() implies wire::writable(
                (#[trigger] fs.drop_first()[i]).1,
            ) && wire::writable(ItemView::Name(fs.drop_first()[i].0)) by {
                assert(fs.drop_first()[i] == fs[i + 1]);
            }
        }
        lemma_scan_back(b, p + n.len() + v.len(), fs.drop_first());
        assert(seq![fs[0]] + fs.drop_first() =~= fs);
    }
}

/// A sealed body verifies, under its own digest.
pub proof fn lemma_sealed(body: Seq<u8>)
    requires
        body.len() == 4055,
    ensures
        sealed(body).len() == 4096,
        has_magic(sealed(body)),
        seal_of(sealed(body)) == Some((digest(body), 41int)),
        hp_of(sealed(body)) == Some(digest(body)),
        sealed(body).subrange(41, 4096) == body,
        wire::parsed(sealed(body), 4) == Ok::<(ItemView, int), Seq<char>>(
            (ItemView::Hp(digest(body)), 40),
        ),
        sealed(body)[40] == 0x3E,
{
    let b = sealed(body);
    let hp = wire::flat(ItemView::Hp(digest(body)));
    wire::lemma_flat_len(ItemView::Hp(digest(body)));
    assert(b.len() == 4096);
    assert(wire::stands_at(b, 4, hp)) by {
        assert forall|i: int| 4 <= i < 4 + hp.len() implies #[trigger] b[i] == hp[i - 4] by {}
    }
    wire::law_written_value_reads_back(b, 4, ItemView::Hp(digest(body)));
    assert(b.subrange(41, 4096) =~= body);
}

/// Law: a seal covers every byte behind it. A block whose body was replaced by one with another digest
/// is not sealed, whatever changed in it.
pub proof fn law_tampered_body_is_refused(body: Seq<u8>, other: Seq<u8>)
    requires
        body.len() == 4055,
        other.len() == 4055,
        digest(other) != digest(body),
    ensures
        hp_of(sealed(body).take(41) + other) is None,
{
    lemma_sealed(body);
    let b = sealed(body);
    let c = b.take(41) + other;
    let hp = wire::flat(ItemView::Hp(digest(body)));
    wire::lemma_flat_len(ItemView::Hp(digest(body)));
    assert(wire::stands_at(c, 4, hp)) by {
        assert forall|i: int| 4 <= i < 4 + hp.len() implies #[trigger] c[i] == hp[i - 4] by {
            assert(c[i] == b[i]);
        }
    }
    wire::law_written_value_reads_back(c, 4, ItemView::Hp(digest(body)));
    assert(c.subrange(41, 4096) =~= other);
}

/// Law: a document that was sealed is found sealed, under the digest of its body, and its schema
/// and values read back as they were written.
pub proof fn law_document_reads_back(schema: Seq<char>, fs: Seq<FieldView>)
    requires
        wire::writable(ItemView::Name(schema)),
        fields_writable(fs),
        body_of(schema, fs).len() <= 4055,
    ensures
        document(schema, fs).len() == 4096,
        seal_of(document(schema, fs)) == Some((digest(padded(body_of(schema, fs))), 41int)),
        ({
            let at = 41int + wire::flat(ItemView::Name(schema)).len();
            &&& wire::parsed(document(schema, fs), 41) == Ok::<(ItemView, int), Seq<char>>(
                (ItemView::Name(schema), at),
            )
            &&& scan(document(schema, fs), at) == (fs, None::<StopView>)
        }),
{
    let body = padded(body_of(schema, fs));
    let b = document(schema, fs);
    lemma_sealed(body);
    let s = wire::flat(ItemView::Name(schema));
    let f = fields_bytes(fs);
    assert forall|i: int| 41 <= i < 4096 implies #[trigger] b[i] == body[i - 41] by {
        assert(b.subrange(41, 4096)[i - 41] == b[i]);
    }
    assert(wire::stands_at(b, 41, s)) by {
        assert forall|i: int| 41 <= i < 41 + s.len() implies #[trigger] b[i] == s[i - 41] by {}
    }
    assert(wire::stands_at(b, 41int + s.len(), f)) by {
        assert forall|i: int| 41 + s.len() <= i < 41 + s.len() + f.len() implies #[trigger] b[i]
            == f[i - (41 + s.len())] by {}
    }
    wire::law_written_value_reads_back(b, 41, ItemView::Name(schema));
    lemma_scan_back(b, 41int + s.len(), fs);
}

/// Law: of several values under a name the last counts; and where there is none under it, none is found.
pub proof fn law_last_value_of_a_name_counts(fs: Seq<FieldView>, name: Seq<char>, i: int)
    ensures
        0 <= i < fs.len() && fs[i].0 == name && (forall|j: int|
            i < j < fs.len() ==> (#[trigger] fs[j]).0 != name) ==> {
            &&& wire::uint_of(fs[i].1) matches Some(x) ==> last_uint(fs, name) == Some(x)
            &&& fs[i].1 matches ItemView::Hp(h) ==> last_hash(fs, name) == Some(h)
            &&& fs[i].1 matches ItemView::Time(t) ==> last_time(fs, name) == Some(t)
            &&& fs[i].1 matches ItemView::Wrap(_, b) ==> last_wrap(fs, name) == Some(b)
        },
        (forall|j: int| 0 <= j < fs.len() ==> (#[trigger] fs[j]).0 != name) ==> {
            &&& last_uint(fs, name) is None
            &&& last_hash(fs, name) is None
            &&& last_time(fs, name) is None
            &&& last_wrap(fs, name) is None
        },
    decreases fs.len(),
{
    if fs.len() > 0 {
        let less = fs.drop_last();
        law_last_value_of_a_name_counts(less, name, i);
        assert(forall|j: int| 0 <= j < less.len() ==> less[j] == #[trigger] fs[j]);
        assert(fs[fs.len() - 1] == fs.last());
        if 0 <= i < less.len() && fs[i].0 == name && (forall|j: int|
            i < j < fs.len() ==> (#[trigger] fs[j]).0 != name) {
            assert forall|j: int| i < j < less.len() implies (#[trigger] less[j]).0 != name by {
                assert(fs[j].0 != name);
            }
            assert(fs[fs.len() - 1].0 != name);
        }
        if forall|j: int| 0 <= j < fs.len() ==> (#[trigger] fs[j]).0 != name {
            assert forall|j: int| 0 <= j < less.len() implies (#[trigger] less[j]).0 != name by {
                assert(fs[j].0 != name);
            }
            assert(fs[fs.len() - 1].0 != name);
        }
    }
}

/// Law: the values under a name are all of them, in the order in which they stand.
pub proof fn law_values_of_a_name_are_all_in_order(fs: Seq<FieldView>, name: Seq<char>)
    ensures
        all_uints(fs, name) == fs.filter(
            |f: FieldView| f.0 == name && wire::uint_of(f.1) is Some,
        ).map_values(|f: FieldView| wire::uint_of(f.1)->0),
        all_hashes(fs, name) == fs.filter(
            |f: FieldView| f.0 == name && f.1 is Hp && f.1->Hp_0.len() == 32,
        ).map_values(|f: FieldView| f.1->Hp_0),
    decreases fs.len(),
{
    reveal(Seq::filter);
    let a = |f: FieldView| f.0 == name && wire::uint_of(f.1) is Some;
    let b = |f: FieldView| f.0 == name && f.1 is Hp && f.1->Hp_0.len() == 32;
    if fs.len() > 0 {
        law_values_of_a_name_are_all_in_order(fs.drop_last(), name);
        assert(all_uints(fs, name) =~= fs.filter(a).map_values(
            |f: FieldView| wire::uint_of(f.1)->0,
        ));
        assert(all_hashes(fs, name) =~= fs.filter(b).map_values(|f: FieldView| f.1->Hp_0));
    } else {
        assert(all_uints(fs, name) =~= fs.filter(a).map_values(
            |f: FieldView| wire::uint_of(f.1)->0,
        ));
        assert(all_hashes(fs, name) =~= fs.filter(b).map_values(|f: FieldView| f.1->Hp_0));
    }
}

/// Law: a body is filled up to its block with zeros.
pub proof fn law_body_is_filled_up_with_zeros(body: Seq<u8>)
    requires
        body.len() <= 4055,
    ensures
        padded(body).len() == 4055,
        padded(body).take(body.len() as int) == body,
        forall|i: int| body.len() <= i < 4055 ==> #[trigger] padded(body)[i] == 0,
{
    assert(padded(body).take(body.len() as int) =~= body);
}

/// Law: a document is its schema and then its values one after the other, each behind its name.
pub proof fn law_values_stand_behind_their_names(schema: Seq<char>, fs: Seq<FieldView>, f: FieldView)
    ensures
        body_of(schema, Seq::<FieldView>::empty()) == wire::flat(ItemView::Name(schema)),
        body_of(schema, fs.push(f)) == body_of(schema, fs) + (wire::flat(ItemView::Name(f.0))
            + wire::flat(f.1)),
{
    assert(fs.push(f).drop_last() =~= fs);
    assert(body_of(schema, Seq::<FieldView>::empty()) =~= wire::flat(ItemView::Name(schema)));
    assert(body_of(schema, fs.push(f)) =~= body_of(schema, fs) + (wire::flat(ItemView::Name(f.0))
        + wire::flat(f.1)));
}

}
