//! Tract documents: index nodes, leaves and furrows, and how a value is cut into furrows.
//!
//! Every tract block is a sealed document that addresses itself: internal nodes carry their depth
//! and a key beneath them, leaves carry their key, furrows their owner and index. A relocated block
//! read back from its new place names its own repair path.
use vstd::prelude::*;
use vstd::string::*;
use vstd::utf8::*;
use crate::block;
use crate::block::{array32, copied, Block};
use crate::error;
use crate::error::{corrupt_err, corrupt_num2, Error, ErrorView, Result};
use crate::names;
use crate::names::{SCHEMA_DIRECT, SCHEMA_EXTENT, SCHEMA_FURROW, SCHEMA_LONE, SCHEMA_NODE};
use crate::seal;
use crate::seal::{
    begin_body, find_hash, find_hashes, find_uint, find_uints, find_wrap, odd_hash, put_field,
    read_block_item, scan_fields, seal_block, FieldView, Stop, StopView,
};
use crate::text;
use crate::text::same_text;
use crate::wire;
use crate::wire::{uint_token, Item, ItemView, Token};

verus! {

/// A pointer to a child of an index node.
#[derive(Debug, Clone, Copy, PartialEq)]
pub enum Child {
    /// On the medium, verified by hash before it is trusted.
    Committed { hash: [u8; 32], lba: u64 },
    /// In the dirty arena, awaiting flush.
    Dirty(usize),
}

/// The mathematical view of a pointer.
pub enum ChildView {
    At { hash: Seq<u8>, lba: u64 },
    Dirty(int),
}

impl View for Child {
    type V = ChildView;

    open spec fn view(&self) -> ChildView {
        match self {
            Child::Committed { hash, lba } => ChildView::At { hash: hash@, lba: *lba },
            Child::Dirty(i) => ChildView::Dirty(*i as int),
        }
    }
}

/// The view of a slot that may hold a pointer.
pub open spec fn slot_view(c: Option<Child>) -> Option<ChildView> {
    match c {
        Some(x) => Some(x@),
        None => None,
    }
}

/// The view of a node's slots.
pub open spec fn kids_view(cs: Seq<Option<Child>>) -> Seq<Option<ChildView>> {
    Seq::new(cs.len(), |i: int| slot_view(cs[i]))
}

/// An internal node of the index.
pub struct Node {
    pub depth: u8,
    /// Any key beneath this node: descending `depth` chunks of it from the root lands here.
    pub route: [u8; 32],
    /// Exactly 32.
    pub children: Vec<Option<Child>>,
}

/// The mathematical view of a node.
#[verifier::ext_equal]
pub struct NodeView {
    pub depth: u8,
    pub route: Seq<u8>,
    pub kids: Seq<Option<ChildView>>,
}

impl View for Node {
    type V = NodeView;

    open spec fn view(&self) -> NodeView {
        NodeView { depth: self.depth, route: self.route@, kids: kids_view(self.children@) }
    }
}

impl Node {
    /// A node without children.
    pub fn new(depth: u8, route: [u8; 32]) -> (n: Self)
        ensures
            n@.depth == depth,
            n@.route == route@,
            n@.kids == no_kids(),
            n.children@.len() == 32,
    {
        let mut children: Vec<Option<Child>> = Vec::new();
        let mut i: usize = 0;
        while i < 32
            invariant
                i <= 32,
                children@.len() == i,
                forall|j: int| 0 <= j < i ==> (#[trigger] children@[j]) is None,
            decreases 32 - i,
        {
            children.push(None);
            i = i + 1;
        }
        assert(kids_view(children@) =~= no_kids());
        Node { depth, route, children }
    }
}

/// 32 empty slots.
pub open spec fn no_kids() -> Seq<Option<ChildView>> {
    Seq::new(32, |i: int| None)
}

/// A decoded tract block, by schema.
pub enum TractDoc {
    Node(Node),
    Lone { key: [u8; 32], value: Vec<u8> },
    /// The value's furrows as (start, count) runs: any size, one block.
    Extent { key: [u8; 32], size: u64, runs: Vec<(u64, u64)> },
    /// Per-address leaf of an older layout.
    Direct { key: [u8; 32], size: u64, furrows: Vec<u64> },
    Furrow { key: [u8; 32], index: u64, payload: Vec<u8> },
}

/// The mathematical view of a tract block.
pub enum DocView {
    Node(NodeView),
    Lone { key: Seq<u8>, value: Seq<u8> },
    Extent { key: Seq<u8>, size: u64, runs: Seq<(u64, u64)> },
    Direct { key: Seq<u8>, size: u64, furrows: Seq<u64> },
    Furrow { key: Seq<u8>, index: u64, payload: Seq<u8> },
}

impl View for TractDoc {
    type V = DocView;

    open spec fn view(&self) -> DocView {
        match self {
            TractDoc::Node(n) => DocView::Node(n@),
            TractDoc::Lone { key, value } => DocView::Lone { key: key@, value: value@ },
            TractDoc::Extent { key, size, runs } => DocView::Extent {
                key: key@,
                size: *size,
                runs: runs@,
            },
            TractDoc::Direct { key, size, furrows } => DocView::Direct {
                key: key@,
                size: *size,
                furrows: furrows@,
            },
            TractDoc::Furrow { key, index, payload } => DocView::Furrow {
                key: key@,
                index: *index,
                payload: payload@,
            },
        }
    }
}

// ---------------------------------------------------------------- the presence map

/// The number of one-bits among the low `n` bits of `m`.
pub open spec fn ones(m: nat, n: nat) -> nat
    decreases n,
{
    if n == 0 {
        0
    } else {
        m % 2 + ones(m / 2, (n - 1) as nat)
    }
}

/// The low `n` slots: where a bit of `m` is set, the next hash and address.
pub open spec fn spread(m: nat, n: nat, hs: Seq<Seq<u8>>, ls: Seq<u64>) -> Seq<Option<ChildView>>
    decreases n,
{
    if n == 0 {
        Seq::<Option<ChildView>>::empty()
    } else if m % 2 == 1 {
        seq![Some(ChildView::At { hash: hs[0], lba: ls[0] })] + spread(
            m / 2,
            (n - 1) as nat,
            hs.skip(1),
            ls.skip(1),
        )
    } else {
        seq![None::<ChildView>] + spread(m / 2, (n - 1) as nat, hs, ls)
    }
}

/// The presence map of some slots, lowest first.
pub open spec fn presence(kids: Seq<Option<ChildView>>) -> nat
    decreases kids.len(),
{
    if kids.len() == 0 {
        0
    } else {
        (if kids[0] is Some {
            1nat
        } else {
            0nat
        }) + 2 * presence(kids.skip(1))
    }
}

/// The hashes of the pointers in some slots, in order.
pub open spec fn kid_hashes(kids: Seq<Option<ChildView>>) -> Seq<Seq<u8>>
    decreases kids.len(),
{
    if kids.len() == 0 {
        Seq::<Seq<u8>>::empty()
    } else {
        match kids.last() {
            Some(ChildView::At { hash, lba }) => kid_hashes(kids.drop_last()).push(hash),
            _ => kid_hashes(kids.drop_last()),
        }
    }
}

/// The addresses of the pointers in some slots, in order.
pub open spec fn kid_lbas(kids: Seq<Option<ChildView>>) -> Seq<u64>
    decreases kids.len(),
{
    if kids.len() == 0 {
        Seq::<u64>::empty()
    } else {
        match kids.last() {
            Some(ChildView::At { hash, lba }) => kid_lbas(kids.drop_last()).push(lba),
            _ => kid_lbas(kids.drop_last()),
        }
    }
}

/// Whether every pointer in some slots is on the medium, under a hash.
pub open spec fn all_at(kids: Seq<Option<ChildView>>) -> bool {
    forall|i: int|
        0 <= i < kids.len() ==> ((#[trigger] kids[i]) matches Some(c) ==> c is At && c->hash.len()
            == 32)
}

proof fn lemma_kids_front(kids: Seq<Option<ChildView>>)
    requires
        kids.len() > 0,
        all_at(kids),
    ensures
        kids[0] is None ==> kid_hashes(kids) == kid_hashes(kids.skip(1)) && kid_lbas(kids)
            == kid_lbas(kids.skip(1)),
        kids[0] matches Some(ChildView::At { hash, lba }) ==> kid_hashes(kids) == seq![hash]
            + kid_hashes(kids.skip(1)) && kid_lbas(kids) == seq![lba] + kid_lbas(kids.skip(1)),
        kids[0] is Some ==> kids[0]->0 is At,
    decreases kids.len(),
{
    assert(kids[0] matches Some(c) ==> c is At);
    let rest = kids.skip(1);
    if kids.len() == 1 {
        assert(rest =~= Seq::<Option<ChildView>>::empty());
        assert(kids.drop_last() =~= Seq::<Option<ChildView>>::empty());
        assert(kids.last() == kids[0]);
        if kids[0] is Some {
            assert(kid_hashes(kids) =~= seq![kids[0]->0->hash] + kid_hashes(rest));
            assert(kid_lbas(kids) =~= seq![kids[0]->0->lba] + kid_lbas(rest));
        }
    } else {
        let init = kids.drop_last();
        assert(init[0] == kids[0]);
        assert(all_at(init)) by {
            assert forall|i: int| 0 <= i < init.len() implies ((#[trigger] init[i]) matches Some(c)
                ==> c is At && c->hash.len() == 32) by {
                assert(init[i] == kids[i]);
            }
        }
        lemma_kids_front(init);
        assert(init.skip(1) =~= rest.drop_last());
        assert(rest.last() == kids.last());
        if kids[0] is Some {
            assert(kid_hashes(kids) =~= seq![kids[0]->0->hash] + kid_hashes(rest));
            assert(kid_lbas(kids) =~= seq![kids[0]->0->lba] + kid_lbas(rest));
        } else {
            assert(kid_hashes(kids) =~= kid_hashes(rest));
            assert(kid_lbas(kids) =~= kid_lbas(rest));
        }
    }
}

/// The presence map, the hashes and the addresses together give the slots back.
proof fn lemma_spread_back(kids: Seq<Option<ChildView>>)
    requires
        all_at(kids),
    ensures
        spread(presence(kids), kids.len(), kid_hashes(kids), kid_lbas(kids)) =~= kids,
        ones(presence(kids), kids.len()) == kid_hashes(kids).len(),
        kid_hashes(kids).len() == kid_lbas(kids).len(),
    decreases kids.len(),
{
    if kids.len() > 0 {
        let rest = kids.skip(1);
        assert(all_at(rest)) by {
            assert forall|i: int| 0 <= i < rest.len() implies ((#[trigger] rest[i]) matches Some(c)
                ==> c is At && c->hash.len() == 32) by {
                assert(rest[i] == kids[i + 1]);
            }
        }
        lemma_kids_front(kids);
        lemma_spread_back(rest);
        let m = presence(kids);
        assert(m / 2 == presence(rest));
        assert(m % 2 == (if kids[0] is Some {
            1nat
        } else {
            0nat
        }));
        if kids[0] is Some {
            assert(kid_hashes(kids).skip(1) =~= kid_hashes(rest));
            assert(kid_lbas(kids).skip(1) =~= kid_lbas(rest));
        }
        assert(seq![kids[0]] + rest =~= kids);
    }
}

proof fn lemma_presence_bound(kids: Seq<Option<ChildView>>)
    ensures
        presence(kids) < vstd::arithmetic::power2::pow2(kids.len()),
    decreases kids.len(),
{
    vstd::arithmetic::power2::lemma2_to64();
    if kids.len() > 0 {
        lemma_presence_bound(kids.skip(1));
        vstd::arithmetic::power2::lemma_pow2_unfold(kids.len());
    }
}

// ---------------------------------------------------------------- documents as named values

/// The schema of a document.
pub open spec fn doc_schema(d: DocView) -> Seq<char> {
    match d {
        DocView::Node(_) => SCHEMA_NODE@,
        DocView::Lone { .. } => SCHEMA_LONE@,
        DocView::Extent { .. } => SCHEMA_EXTENT@,
        DocView::Direct { .. } => SCHEMA_DIRECT@,
        DocView::Furrow { .. } => SCHEMA_FURROW@,
    }
}

/// Named values followed by those of some runs.
pub open spec fn with_runs(fs: Seq<FieldView>, runs: Seq<(u64, u64)>) -> Seq<FieldView>
    decreases runs.len(),
{
    if runs.len() == 0 {
        fs
    } else {
        with_runs(fs, runs.drop_last()).push(("s"@, ItemView::Uint(runs.last().0 as nat))).push(
            ("c"@, ItemView::Uint(runs.last().1 as nat)),
        )
    }
}

/// Named values followed by those of some furrow addresses.
pub open spec fn with_furrows(fs: Seq<FieldView>, at: Seq<u64>) -> Seq<FieldView>
    decreases at.len(),
{
    if at.len() == 0 {
        fs
    } else {
        with_furrows(fs, at.drop_last()).push(("f"@, ItemView::Uint(at.last() as nat)))
    }
}

/// Named values followed by those of the pointers in some slots.
pub open spec fn with_kids(fs: Seq<FieldView>, kids: Seq<Option<ChildView>>) -> Seq<FieldView>
    decreases kids.len(),
{
    if kids.len() == 0 {
        fs
    } else {
        match kids.last() {
            Some(ChildView::At { hash, lba }) => with_kids(fs, kids.drop_last()).push(
                ("ch"@, ItemView::Hp(hash)),
            ).push(("at"@, ItemView::Uint(lba as nat))),
            _ => with_kids(fs, kids.drop_last()),
        }
    }
}

/// The key of a document as a named value.
pub open spec fn key_field(key: Seq<u8>) -> Seq<FieldView> {
    Seq::<FieldView>::empty().push(("key"@, ItemView::Hp(key)))
}

/// The named values of a node before its pointers.
pub open spec fn node_head(n: NodeView) -> Seq<FieldView> {
    Seq::<FieldView>::empty().push(("depth"@, ItemView::Uint(n.depth as nat))).push(
        ("route"@, ItemView::Hp(n.route)),
    ).push(("map"@, ItemView::Uint(presence(n.kids))))
}

/// The named values of a document, in order.
pub open spec fn doc_fields(d: DocView) -> Seq<FieldView> {
    match d {
        DocView::Node(n) => with_kids(node_head(n), n.kids),
        DocView::Lone { key, value } => key_field(key).push(("v"@, ItemView::Wrap(0x72, value))),
        DocView::Extent { key, size, runs } => with_runs(
            key_field(key).push(("size"@, ItemView::Uint(size as nat))),
            runs,
        ),
        DocView::Direct { key, size, furrows } => with_furrows(
            key_field(key).push(("size"@, ItemView::Uint(size as nat))),
            furrows,
        ),
        DocView::Furrow { key, index, payload } => key_field(key).push(
            ("i"@, ItemView::Uint(index as nat)),
        ).push(("v"@, ItemView::Wrap(0x72, payload))),
    }
}

/// The block of a document.
pub open spec fn doc_block(d: DocView) -> Seq<u8> {
    seal::document(doc_schema(d), doc_fields(d))
}

/// The hash a document's block is sealed with.
pub open spec fn doc_hash(d: DocView) -> Seq<u8> {
    seal::digest(seal::padded(seal::body_of(doc_schema(d), doc_fields(d))))
}

/// The documents that fit a block and have the shape of what they are.
pub open spec fn doc_fits(d: DocView) -> bool {
    match d {
        DocView::Node(n) => n.route.len() == 32 && n.kids.len() == 32 && all_at(n.kids),
        DocView::Lone { key, value } => key.len() == 32 && value.len() <= 3927,
        DocView::Extent { key, size, runs } => key.len() == 32 && runs.len() <= 123,
        DocView::Direct { key, size, furrows } => key.len() == 32 && furrows.len() <= 250,
        DocView::Furrow { key, index, payload } => key.len() == 32 && payload.len() <= 3927,
    }
}

/// The names under which tract documents carry hashes.
pub open spec fn doc_hash_names() -> Seq<Seq<char>> {
    seq!["key"@, "route"@, "ch"@]
}

/// The document that a schema and named values spell out. The last value of a name counts; unknown
/// names and values of another kind are passed over.
pub open spec fn doc_from(
    schema: Seq<char>,
    fs: Seq<FieldView>,
    stop: Option<StopView>,
) -> core::result::Result<DocView, ErrorView> {
    match seal::first_odd_hash(fs, doc_hash_names()) {
        Some((name, _)) => Err(ErrorView::Corrupt(name + " len"@)),
        None => match stop {
            Some(StopView::Name(t)) => Err(ErrorView::Corrupt(t)),
            Some(StopView::Value(t)) => Err(ErrorView::Corrupt(t)),
            Some(StopView::NoName) => Err(error::corrupt("bad field name")),
            None => if schema == SCHEMA_LONE@ {
                if seal::last_hash(fs, "key"@) is None {
                    Err(error::corrupt("lone: missing key"))
                } else if seal::last_wrap(fs, "v"@) is None {
                    Err(error::corrupt("lone: missing value"))
                } else {
                    Ok(
                        DocView::Lone {
                            key: seal::last_hash(fs, "key"@)->0,
                            value: seal::last_wrap(fs, "v"@)->0,
                        },
                    )
                }
            } else if schema == SCHEMA_EXTENT@ {
                if seal::all_uints(fs, "s"@).len() != seal::all_uints(fs, "c"@).len() {
                    Err(error::corrupt("extent: run start/count mismatch"))
                } else if seal::last_hash(fs, "key"@) is None {
                    Err(error::corrupt("extent: missing key"))
                } else if seal::last_uint(fs, "size"@) is None {
                    Err(error::corrupt("extent: missing size"))
                } else {
                    Ok(
                        DocView::Extent {
                            key: seal::last_hash(fs, "key"@)->0,
                            size: seal::last_uint(fs, "size"@)->0,
                            runs: zipped(
                                seal::all_uints(fs, "s"@),
                                seal::all_uints(fs, "c"@),
                            ),
                        },
                    )
                }
            } else if schema == SCHEMA_DIRECT@ {
                if seal::last_hash(fs, "key"@) is None {
                    Err(error::corrupt("direct: missing key"))
                } else if seal::last_uint(fs, "size"@) is None {
                    Err(error::corrupt("direct: missing size"))
                } else {
                    Ok(
                        DocView::Direct {
                            key: seal::last_hash(fs, "key"@)->0,
                            size: seal::last_uint(fs, "size"@)->0,
                            furrows: seal::all_uints(fs, "f"@),
                        },
                    )
                }
            } else if schema == SCHEMA_FURROW@ {
                if seal::last_hash(fs, "key"@) is None {
                    Err(error::corrupt("furrow: missing key"))
                } else if seal::last_uint(fs, "i"@) is None {
                    Err(error::corrupt("furrow: missing index"))
                } else if seal::last_wrap(fs, "v"@) is None {
                    Err(error::corrupt("furrow: missing payload"))
                } else {
                    Ok(
                        DocView::Furrow {
                            key: seal::last_hash(fs, "key"@)->0,
                            index: seal::last_uint(fs, "i"@)->0,
                            payload: seal::last_wrap(fs, "v"@)->0,
                        },
                    )
                }
            } else if schema == SCHEMA_NODE@ {
                if seal::last_uint(fs, "map"@) is None {
                    Err(error::corrupt("node: missing map"))
                } else {
                    let m = (seal::last_uint(fs, "map"@)->0 % 0x1_0000_0000) as nat;
                    let hs = seal::all_hashes(fs, "ch"@);
                    let ls = seal::all_uints(fs, "at"@);
                    if ones(m, 32) != hs.len() || hs.len() != ls.len() {
                        Err(error::corrupt("node: presence/children mismatch"))
                    } else if seal::last_uint(fs, "depth"@) is None {
                        Err(error::corrupt("node: missing depth"))
                    } else if seal::last_hash(fs, "route"@) is None {
                        Err(error::corrupt("node: missing route"))
                    } else {
                        Ok(
                            DocView::Node(
                                NodeView {
                                    depth: (seal::last_uint(fs, "depth"@)->0 % 256) as u8,
                                    route: seal::last_hash(fs, "route"@)->0,
                                    kids: spread(m, 32, hs, ls),
                                },
                            ),
                        )
                    }
                }
            } else {
                Err(ErrorView::Corrupt("unknown tract schema: "@ + schema))
            },
        },
    }
}

/// Pairs of two sequences.
pub open spec fn zipped(a: Seq<u64>, b: Seq<u64>) -> Seq<(u64, u64)> {
    Seq::new(a.len(), |i: int| (a[i], b[i]))
}

/// The document a block holds, or why it holds none. The seal is checked elsewhere.
#[verifier::opaque]
pub open spec fn doc_of(b: Seq<u8>) -> core::result::Result<DocView, ErrorView> {
    match wire::parsed(b, 4) {
        Err(t) => Err(ErrorView::Corrupt(t)),
        Ok((_, p)) => match wire::parsed(b, p + 1) {
            Err(t) => Err(ErrorView::Corrupt(t)),
            Ok((ItemView::Name(s), q)) => doc_from(s, seal::scan(b, q).0, seal::scan(b, q).1),
            Ok(_) => Err(error::corrupt("missing schema")),
        },
    }
}

// ---------------------------------------------------------------- what was written reads back

proof fn lemma_runs_values(fs: Seq<FieldView>, runs: Seq<(u64, u64)>)
    requires
        seal::all_uints(fs, "s"@).len() == 0,
        seal::all_uints(fs, "c"@).len() == 0,
        seal::fields_writable(fs),
        seal::first_odd_hash(fs, doc_hash_names()) is None,
    ensures
        seal::all_uints(with_runs(fs, runs), "s"@).len() == runs.len(),
        seal::all_uints(with_runs(fs, runs), "c"@).len() == runs.len(),
        zipped(
            seal::all_uints(with_runs(fs, runs), "s"@),
            seal::all_uints(with_runs(fs, runs), "c"@),
        ) =~= runs,
        seal::last_hash(with_runs(fs, runs), "key"@) == seal::last_hash(fs, "key"@),
        seal::last_uint(with_runs(fs, runs), "size"@) == seal::last_uint(fs, "size"@),
        seal::first_odd_hash(with_runs(fs, runs), doc_hash_names()) is None,
        seal::fields_writable(with_runs(fs, runs)),
        seal::fields_bytes(with_runs(fs, runs)).len() <= seal::fields_bytes(fs).len() + 28
            * runs.len(),
    decreases runs.len(),
{
    broadcast use seal::group_push;

    names::lemma_doc_words_differ();
    names::lemma_doc_words_writable();
    if runs.len() > 0 {
        lemma_runs_values(fs, runs.drop_last());
        let init = with_runs(fs, runs.drop_last());
        let x = ("s"@, ItemView::Uint(runs.last().0 as nat));
        let y = ("c"@, ItemView::Uint(runs.last().1 as nat));
        lemma_push_writable(init, x);
        lemma_push_writable(init.push(x), y);
        let ss = seal::all_uints(init, "s"@);
        let cs = seal::all_uints(init, "c"@);
        assert(zipped(ss, cs) == runs.drop_last());
        assert(seal::all_uints(with_runs(fs, runs), "s"@) == ss.push(runs.last().0));
        assert(seal::all_uints(with_runs(fs, runs), "c"@) == cs.push(runs.last().1));
        assert forall|i: int| 0 <= i < runs.len() implies zipped(
            ss.push(runs.last().0),
            cs.push(runs.last().1),
        )[i] == runs[i] by {
            if i < runs.len() - 1 {
                assert(zipped(ss, cs)[i] == runs.drop_last()[i]);
            }
        }
        wire::lemma_flat_len(ItemView::Name("s"@));
        wire::lemma_flat_len(ItemView::Name("c"@));
        wire::lemma_flat_len(x.1);
        wire::lemma_flat_len(y.1);
    }
}

/// One more writable value.
proof fn lemma_push_writable(fs: Seq<FieldView>, x: FieldView)
    requires
        seal::fields_writable(fs),
        wire::writable(x.1),
        wire::writable(ItemView::Name(x.0)),
    ensures
        seal::fields_writable(fs.push(x)),
        seal::fields_bytes(fs.push(x)).len() == seal::fields_bytes(fs).len() + wire::flat(
            ItemView::Name(x.0),
        ).len() + wire::flat(x.1).len(),
{
    assert(fs.push(x).drop_last() =~= fs);
    assert forall|i: int| 0 <= i < fs.push(x).len() implies wire::writable(
        (#[trigger] fs.push(x)[i]).1,
    ) && wire::writable(ItemView::Name(fs.push(x)[i].0)) by {
        if i < fs.len() {
            assert(fs.push(x)[i] == fs[i]);
        }
    }
}

proof fn lemma_furrows_values(fs: Seq<FieldView>, at: Seq<u64>)
    requires
        seal::all_uints(fs, "f"@).len() == 0,
        seal::fields_writable(fs),
        seal::first_odd_hash(fs, doc_hash_names()) is None,
    ensures
        seal::all_uints(with_furrows(fs, at), "f"@) =~= at,
        seal::last_hash(with_furrows(fs, at), "key"@) == seal::last_hash(fs, "key"@),
        seal::last_uint(with_furrows(fs, at), "size"@) == seal::last_uint(fs, "size"@),
        seal::first_odd_hash(with_furrows(fs, at), doc_hash_names()) is None,
        seal::fields_writable(with_furrows(fs, at)),
        seal::fields_bytes(with_furrows(fs, at)).len() <= seal::fields_bytes(fs).len() + 14
            * at.len(),
    decreases at.len(),
{
    broadcast use seal::group_push;

    names::lemma_doc_words_differ();
    names::lemma_doc_words_writable();
    if at.len() > 0 {
        lemma_furrows_values(fs, at.drop_last());
        let init = with_furrows(fs, at.drop_last());
        let x = ("f"@, ItemView::Uint(at.last() as nat));
        lemma_push_writable(init, x);
        wire::lemma_flat_len(ItemView::Name("f"@));
        wire::lemma_flat_len(x.1);
        assert(at.drop_last().push(at.last()) =~= at);
    }
}

proof fn lemma_kids_values(fs: Seq<FieldView>, kids: Seq<Option<ChildView>>)
    requires
        all_at(kids),
        seal::all_uints(fs, "at"@).len() == 0,
        seal::all_hashes(fs, "ch"@).len() == 0,
        seal::fields_writable(fs),
        seal::first_odd_hash(fs, doc_hash_names()) is None,
    ensures
        seal::all_hashes(with_kids(fs, kids), "ch"@) =~= kid_hashes(kids),
        seal::all_uints(with_kids(fs, kids), "at"@) =~= kid_lbas(kids),
        seal::last_hash(with_kids(fs, kids), "route"@) == seal::last_hash(fs, "route"@),
        seal::last_uint(with_kids(fs, kids), "map"@) == seal::last_uint(fs, "map"@),
        seal::last_uint(with_kids(fs, kids), "depth"@) == seal::last_uint(fs, "depth"@),
        seal::first_odd_hash(with_kids(fs, kids), doc_hash_names()) is None,
        seal::fields_writable(with_kids(fs, kids)),
        seal::fields_bytes(with_kids(fs, kids)).len() <= seal::fields_bytes(fs).len() + 56
            * kids.len(),
    decreases kids.len(),
{
    broadcast use seal::group_push;

    names::lemma_doc_words_differ();
    names::lemma_doc_words_writable();
    if kids.len() > 0 {
        let front = kids.drop_last();
        assert(all_at(front)) by {
            assert forall|i: int| 0 <= i < front.len() implies ((#[trigger] front[i]) matches Some(
                c,
            ) ==> c is At && c->hash.len() == 32) by {
                assert(front[i] == kids[i]);
            }
        }
        lemma_kids_values(fs, front);
        assert(kids.last() == kids[kids.len() - 1]);
        if let Some(ChildView::At { hash, lba }) = kids.last() {
            let init = with_kids(fs, front);
            let x = ("ch"@, ItemView::Hp(hash));
            let y = ("at"@, ItemView::Uint(lba as nat));
            lemma_push_writable(init, x);
            lemma_push_writable(init.push(x), y);
            wire::lemma_flat_len(ItemView::Name("ch"@));
            wire::lemma_flat_len(ItemView::Name("at"@));
            wire::lemma_flat_len(x.1);
            wire::lemma_flat_len(y.1);
        }
    }
}

/// What the named values of a document are worth to a reader.
proof fn lemma_doc_values(d: DocView)
    requires
        doc_fits(d),
    ensures
        seal::fields_writable(doc_fields(d)),
        wire::writable(ItemView::Name(doc_schema(d))),
        seal::body_of(doc_schema(d), doc_fields(d)).len() <= 4055,
        doc_from(doc_schema(d), doc_fields(d), None) == Ok::<DocView, ErrorView>(d),
{
    broadcast use seal::group_push;

    names::lemma_doc_words_differ();
    names::lemma_doc_words_writable();
    wire::lemma_flat_len(ItemView::Name(doc_schema(d)));
    wire::lemma_flat_len(ItemView::Name("key"@));
    wire::lemma_flat_len(ItemView::Name("v"@));
    wire::lemma_flat_len(ItemView::Name("i"@));
    wire::lemma_flat_len(ItemView::Name("size"@));
    wire::lemma_flat_len(ItemView::Name("depth"@));
    wire::lemma_flat_len(ItemView::Name("route"@));
    wire::lemma_flat_len(ItemView::Name("map"@));
    let none = Seq::<FieldView>::empty();
    assert(seal::fields_bytes(none).len() == 0);
    match d {
        DocView::Lone { key, value } => {
            let a = ("key"@, ItemView::Hp(key));
            let b = ("v"@, ItemView::Wrap(0x72, value));
            wire::lemma_flat_len(a.1);
            wire::lemma_flat_len(b.1);
            lemma_push_writable(none, a);
            lemma_push_writable(none.push(a), b);
        },
        DocView::Extent { key, size, runs } => {
            let a = ("key"@, ItemView::Hp(key));
            let b = ("size"@, ItemView::Uint(size as nat));
            wire::lemma_flat_len(a.1);
            wire::lemma_flat_len(b.1);
            lemma_push_writable(none, a);
            lemma_push_writable(none.push(a), b);
            lemma_runs_values(none.push(a).push(b), runs);
        },
        DocView::Direct { key, size, furrows } => {
            let a = ("key"@, ItemView::Hp(key));
            let b = ("size"@, ItemView::Uint(size as nat));
            wire::lemma_flat_len(a.1);
            wire::lemma_flat_len(b.1);
            lemma_push_writable(none, a);
            lemma_push_writable(none.push(a), b);
            lemma_furrows_values(none.push(a).push(b), furrows);
        },
        DocView::Furrow { key, index, payload } => {
            let a = ("key"@, ItemView::Hp(key));
            let b = ("i"@, ItemView::Uint(index as nat));
            let c = ("v"@, ItemView::Wrap(0x72, payload));
            wire::lemma_flat_len(a.1);
            wire::lemma_flat_len(b.1);
            wire::lemma_flat_len(c.1);
            lemma_push_writable(none, a);
            lemma_push_writable(none.push(a), b);
            lemma_push_writable(none.push(a).push(b), c);
        },
        DocView::Node(n) => {
            lemma_presence_bound(n.kids);
            vstd::arithmetic::power2::lemma2_to64();
            let a = ("depth"@, ItemView::Uint(n.depth as nat));
            let b = ("route"@, ItemView::Hp(n.route));
            let c = ("map"@, ItemView::Uint(presence(n.kids)));
            wire::lemma_flat_len(a.1);
            wire::lemma_flat_len(b.1);
            wire::lemma_flat_len(c.1);
            lemma_push_writable(none, a);
            lemma_push_writable(none.push(a), b);
            lemma_push_writable(none.push(a).push(b), c);
            lemma_kids_values(node_head(n), n.kids);
            lemma_spread_back(n.kids);
            assert(n.depth as u64 % 256 == n.depth as u64);
        },
    }
}

/// Law: a tract document that was written is found sealed under its hash and decodes as itself.
pub proof fn law_doc_reads_back(d: DocView)
    requires
        doc_fits(d),
    ensures
        doc_block(d).len() == 4096,
        seal::hp_of(doc_block(d)) == Some(doc_hash(d)),
        doc_of(doc_block(d)) == Ok::<DocView, ErrorView>(d),
        doc_block(d) != block::zeros(),
        doc_hash(d).len() == 32,
{
    reveal(doc_of);
    lemma_doc_values(d);
    seal::law_document_reads_back(doc_schema(d), doc_fields(d));
    seal::lemma_sealed(seal::padded(seal::body_of(doc_schema(d), doc_fields(d))));
    assert(doc_block(d)[0] == 0x52);
    assert(block::zeros()[0] == 0);
}

// ---------------------------------------------------------------- writing documents

/// Largest value a single leaf holds.
pub fn lone_capacity() -> (n: usize)
    ensures
        n == 3927,
{
    4096 - 41 - 128
}

/// Runs one extent leaf holds.
pub fn max_runs() -> (n: usize)
    ensures
        n == 123,
{
    (4096 - 41 - 96) / 32
}

/// Largest payload of one furrow.
pub fn furrow_capacity() -> (n: usize)
    ensures
        n == 3927,
{
    4096 - 41 - 128
}

fn begin_keyed(schema: &str, key: &[u8; 32]) -> (b: Vec<u8>)
    requires
        names::is_word(schema@),
    ensures
        b@ == seal::body_of(schema@, key_field(key@)),
{
    proof {
        names::lemma_doc_words_writable();
    }
    let mut b = begin_body(schema);
    put_field(
        &mut b,
        Ghost(schema@),
        Ghost(Seq::<FieldView>::empty()),
        "key",
        Token::Hp(copied(key.as_slice())),
    );
    b
}

pub(crate) fn encode_lone(key: &[u8; 32], value: &[u8]) -> (r: Block)
    requires
        value@.len() <= 3927,
    ensures
        r@ == doc_block(DocView::Lone { key: key@, value: value@ }),
{
    proof {
        names::lemma_doc_words_writable();
        lemma_doc_values(DocView::Lone { key: key@, value: value@ });
    }
    let mut b = begin_keyed(SCHEMA_LONE, key);
    put_field(
        &mut b,
        Ghost(SCHEMA_LONE@),
        Ghost(key_field(key@)),
        "v",
        Token::Wrap(0x72, copied(value)),
    );
    seal_block(b)
}

pub(crate) fn encode_furrow(key: &[u8; 32], index: u64, payload: &[u8]) -> (r: Block)
    requires
        payload@.len() <= 3927,
    ensures
        r@ == doc_block(DocView::Furrow { key: key@, index, payload: payload@ }),
{
    proof {
        names::lemma_doc_words_writable();
        lemma_doc_values(DocView::Furrow { key: key@, index, payload: payload@ });
    }
    let mut b = begin_keyed(SCHEMA_FURROW, key);
    let ghost fs = key_field(key@);
    put_field(&mut b, Ghost(SCHEMA_FURROW@), Ghost(fs), "i", uint_token(index));
    let ghost fs1 = fs.push(("i"@, ItemView::Uint(index as nat)));
    put_field(
        &mut b,
        Ghost(SCHEMA_FURROW@),
        Ghost(fs1),
        "v",
        Token::Wrap(0x72, copied(payload)),
    );
    seal_block(b)
}

/// The error of a value in more runs than a leaf holds.
pub open spec fn runs_overflow(n: nat) -> ErrorView {
    ErrorView::Corrupt(
        "extent leaf overflow: "@ + text::dec(n) + " runs > "@ + text::dec(123)
            + " — value pathologically fragmented"@,
    )
}

pub(crate) fn encode_extent(key: &[u8; 32], size: u64, runs: &Vec<(u64, u64)>) -> (r: Result<
    Block,
>)
    ensures
        match r {
            Ok(b) => runs@.len() <= 123 && b@ == doc_block(
                DocView::Extent { key: key@, size, runs: runs@ },
            ),
            Err(e) => runs@.len() > 123 && e@ == runs_overflow(runs@.len()),
        },
{
    if runs.len() > max_runs() {
        return Err(
            corrupt_num2(
                "extent leaf overflow: ",
                runs.len() as u64,
                " runs > ",
                123,
                " — value pathologically fragmented",
            ),
        );
    }
    proof {
        names::lemma_doc_words_writable();
        lemma_doc_values(DocView::Extent { key: key@, size, runs: runs@ });
    }
    let mut b = begin_keyed(SCHEMA_EXTENT, key);
    let ghost fs = key_field(key@);
    put_field(&mut b, Ghost(SCHEMA_EXTENT@), Ghost(fs), "size", uint_token(size));
    let ghost fs1 = fs.push(("size"@, ItemView::Uint(size as nat)));
    let mut i: usize = 0;
    assert(runs@.take(0) =~= Seq::<(u64, u64)>::empty());
    while i < runs.len()
        invariant
            i <= runs@.len(),
            b@ == seal::body_of(SCHEMA_EXTENT@, with_runs(fs1, runs@.take(i as int))),
        decreases runs@.len() - i,
    {
        proof {
            names::lemma_doc_words_writable();
        }
        let ghost sofar = with_runs(fs1, runs@.take(i as int));
        let ghost next = runs@.take(i + 1);
        assert(next.drop_last() =~= runs@.take(i as int));
        put_field(&mut b, Ghost(SCHEMA_EXTENT@), Ghost(sofar), "s", uint_token(runs[i].0));
        let ghost more = sofar.push(("s"@, ItemView::Uint(runs@[i as int].0 as nat)));
        put_field(&mut b, Ghost(SCHEMA_EXTENT@), Ghost(more), "c", uint_token(runs[i].1));
        assert(next.last() == runs@[i as int]);
        i = i + 1;
    }
    assert(runs@.take(i as int) =~= runs@);
    Ok(seal_block(b))
}

pub(crate) fn encode_direct(key: &[u8; 32], size: u64, furrows: &Vec<u64>) -> (r: Block)
    requires
        furrows@.len() <= 250,
    ensures
        r@ == doc_block(DocView::Direct { key: key@, size, furrows: furrows@ }),
{
    proof {
        names::lemma_doc_words_writable();
        lemma_doc_values(DocView::Direct { key: key@, size, furrows: furrows@ });
    }
    let mut b = begin_keyed(SCHEMA_DIRECT, key);
    let ghost fs = key_field(key@);
    put_field(&mut b, Ghost(SCHEMA_DIRECT@), Ghost(fs), "size", uint_token(size));
    let ghost fs1 = fs.push(("size"@, ItemView::Uint(size as nat)));
    let mut i: usize = 0;
    assert(furrows@.take(0) =~= Seq::<u64>::empty());
    while i < furrows.len()
        invariant
            i <= furrows@.len(),
            b@ == seal::body_of(SCHEMA_DIRECT@, with_furrows(fs1, furrows@.take(i as int))),
        decreases furrows@.len() - i,
    {
        proof {
            names::lemma_doc_words_writable();
        }
        let ghost sofar = with_furrows(fs1, furrows@.take(i as int));
        let ghost next = furrows@.take(i + 1);
        assert(next.drop_last() =~= furrows@.take(i as int));
        put_field(&mut b, Ghost(SCHEMA_DIRECT@), Ghost(sofar), "f", uint_token(furrows[i]));
        assert(next.last() == furrows@[i as int]);
        i = i + 1;
    }
    assert(furrows@.take(i as int) =~= furrows@);
    seal_block(b)
}

/// The presence map of a node's slots.
fn presence_map(children: &Vec<Option<Child>>) -> (m: u64)
    requires
        children@.len() == 32,
    ensures
        m == presence(kids_view(children@)),
        m < 0x1_0000_0000,
{
    let ghost kids = kids_view(children@);
    let mut m: u64 = 0;
    let mut i: usize = 32;
    assert(kids.skip(32) =~= Seq::<Option<ChildView>>::empty());
    while i > 0
        invariant
            i <= 32,
            children@.len() == 32,
            kids == kids_view(children@),
            m == presence(kids.skip(i as int)),
            m < 0x1_0000_0000,
        decreases i,
    {
        i = i - 1;
        let ghost now = kids.skip(i as int);
        assert(now.skip(1) =~= kids.skip(i + 1));
        assert(now[0] == kids[i as int]);
        proof {
            lemma_presence_bound(now);
            vstd::arithmetic::power2::lemma2_to64();
            if now.len() < 32 {
                vstd::arithmetic::power2::lemma_pow2_strictly_increases(now.len(), 32);
            }
        }
        let bit: u64 = if children[i].is_some() {
            1
        } else {
            0
        };
        m = bit + 2 * m;
    }
    assert(kids.skip(0) =~= kids);
    m
}

pub(crate) fn encode_node(node: &Node) -> (r: Block)
    requires
        node.children@.len() == 32,
        all_at(node@.kids),
    ensures
        r@ == doc_block(DocView::Node(node@)),
{
    proof {
        names::lemma_doc_words_writable();
        lemma_doc_values(DocView::Node(node@));
    }
    let ghost n = node@;
    let ghost none = Seq::<FieldView>::empty();
    let map: u64 = presence_map(&node.children);
    let mut b = begin_body(SCHEMA_NODE);
    put_field(&mut b, Ghost(SCHEMA_NODE@), Ghost(none), "depth", uint_token(node.depth as u64));
    let ghost fs1 = none.push(("depth"@, ItemView::Uint(n.depth as nat)));
    let route = Token::Hp(copied(node.route.as_slice()));
    put_field(&mut b, Ghost(SCHEMA_NODE@), Ghost(fs1), "route", route);
    let ghost fs2 = fs1.push(("route"@, ItemView::Hp(n.route)));
    put_field(&mut b, Ghost(SCHEMA_NODE@), Ghost(fs2), "map", uint_token(map));
    let ghost fs3 = node_head(n);
    let mut i: usize = 0;
    assert(n.kids.take(0) =~= Seq::<Option<ChildView>>::empty());
    while i < 32
        invariant
            i <= 32,
            node.children@.len() == 32,
            n == node@,
            all_at(n.kids),
            b@ == seal::body_of(SCHEMA_NODE@, with_kids(fs3, n.kids.take(i as int))),
        decreases 32 - i,
    {
        proof {
            names::lemma_doc_words_writable();
        }
        let ghost sofar = with_kids(fs3, n.kids.take(i as int));
        let ghost next = n.kids.take(i + 1);
        assert(next.drop_last() =~= n.kids.take(i as int));
        assert(next.last() == n.kids[i as int]);
        assert(n.kids[i as int] == slot_view(node.children@[i as int]));
        if let Some(Child::Committed { hash, lba }) = &node.children[i] {
            let h = Token::Hp(copied(hash.as_slice()));
            put_field(&mut b, Ghost(SCHEMA_NODE@), Ghost(sofar), "ch", h);
            let ghost more = sofar.push(("ch"@, ItemView::Hp(hash@)));
            put_field(&mut b, Ghost(SCHEMA_NODE@), Ghost(more), "at", uint_token(*lba));
        }
        i = i + 1;
    }
    assert(n.kids.take(32) =~= n.kids);
    seal_block(b)
}

// ---------------------------------------------------------------- reading documents

/// The name of the first hash of another length than 32.
fn find_odd_name(fs: &Vec<(String, Item)>) -> (r: Option<String>)
    ensures
        match r {
            Some(s) => seal::first_odd_hash(seal::fields_view(fs@), doc_hash_names()) matches Some(
                (name, _),
            ) && name == s@,
            None => seal::first_odd_hash(seal::fields_view(fs@), doc_hash_names()) is None,
        },
{
    let ghost all = seal::fields_view(fs@);
    let ghost ns = doc_hash_names();
    let mut i: usize = 0;
    assert(all.take(0) =~= Seq::<FieldView>::empty());
    while i < fs.len()
        invariant
            i <= fs@.len(),
            all == seal::fields_view(fs@),
            ns == doc_hash_names(),
            seal::first_odd_hash(all.take(i as int), ns) is None,
        decreases fs@.len() - i,
    {
        let ghost next = all.take(i + 1);
        assert(next.drop_last() =~= all.take(i as int));
        assert(next.last() == (fs@[i as int].0@, fs@[i as int].1@));
        let named = same_text(&fs[i].0, "key") || same_text(&fs[i].0, "route") || same_text(
            &fs[i].0,
            "ch",
        );
        proof {
            assert(ns[0] == "key"@ && ns[1] == "route"@ && ns[2] == "ch"@);
            if ns.contains(fs@[i as int].0@) {
                let k = choose|k: int| 0 <= k < ns.len() && ns[k] == fs@[i as int].0@;
            }
            assert(named == ns.contains(fs@[i as int].0@));
        }
        if named {
            if odd_hash(&fs[i].1).is_some() {
                proof {
                    crate::spine::lemma_odd_stays(all, (i + 1) as int, ns);
                }
                return Some(fs[i].0.clone());
            }
        }
        i = i + 1;
    }
    assert(all.take(i as int) =~= all);
    None
}

/// Pairs up two lists.
pub(crate) fn zip_runs(a: &Vec<u64>, b: &Vec<u64>) -> (r: Vec<(u64, u64)>)
    requires
        a@.len() == b@.len(),
    ensures
        r@ == zipped(a@, b@),
{
    let mut r: Vec<(u64, u64)> = Vec::new();
    let mut i: usize = 0;
    while i < a.len()
        invariant
            i <= a@.len(),
            a@.len() == b@.len(),
            r@.len() == i,
            forall|j: int| 0 <= j < i ==> #[trigger] r@[j] == (a@[j], b@[j]),
        decreases a@.len() - i,
    {
        r.push((a[i], b[i]));
        i = i + 1;
    }
    assert(r@ =~= zipped(a@, b@));
    r
}

/// The number of one-bits among the low `n` bits.
pub(crate) fn count_ones(m: u64, n: u64) -> (c: u64)
    ensures
        c == ones(m as nat, n as nat),
        c <= n,
    decreases n,
{
    if n == 0 {
        0
    } else {
        m % 2 + count_ones(m / 2, n - 1)
    }
}

/// The slots of a presence map.
fn spread_kids(m0: u64, hs: &Vec<[u8; 32]>, ls: &Vec<u64>) -> (r: Vec<Option<Child>>)
    requires
        hs@.len() == ls@.len(),
        ones(m0 as nat, 32) == hs@.len(),
    ensures
        r@.len() == 32,
        kids_view(r@) == spread(m0 as nat, 32, seal::hashes_view(hs@), ls@),
{
    let ghost hv = seal::hashes_view(hs@);
    let ghost whole = spread(m0 as nat, 32, hv, ls@);
    let mut r: Vec<Option<Child>> = Vec::new();
    let mut m: u64 = m0;
    let mut next: usize = 0;
    let mut i: u64 = 0;
    let total: usize = hs.len();
    assert(hv.skip(0) =~= hv);
    assert(ls@.skip(0) =~= ls@);
    assert(kids_view(r@) + whole =~= whole);
    while i < 32
        invariant
            i <= 32,
            hs@.len() == ls@.len(),
            hv == seal::hashes_view(hs@),
            total == hs@.len(),
            next <= total,
            ones(m as nat, (32 - i) as nat) == hs@.len() - next,
            r@.len() == i,
            kids_view(r@) + spread(
                m as nat,
                (32 - i) as nat,
                hv.skip(next as int),
                ls@.skip(next as int),
            ) == whole,
        decreases 32 - i,
    {
        let ghost before = kids_view(r@);
        let ghost hrest = hv.skip(next as int);
        let ghost lrest = ls@.skip(next as int);
        let ghost rest = spread(m as nat, (32 - i) as nat, hrest, lrest);
        if m % 2 == 1 {
            let c = Child::Committed { hash: hs[next], lba: ls[next] };
            r.push(Some(c));
            proof {
                assert(hrest.skip(1) =~= hv.skip(next + 1));
                assert(lrest.skip(1) =~= ls@.skip(next + 1));
                assert(kids_view(r@) =~= before.push(Some(c@)));
            }
            next = next + 1;
        } else {
            r.push(None);
            assert(kids_view(r@) =~= before.push(None));
        }
        m = m / 2;
        i = i + 1;
        assert(kids_view(r@) + spread(
            m as nat,
            (32 - i) as nat,
            hv.skip(next as int),
            ls@.skip(next as int),
        ) =~= before + rest);
    }
    assert(kids_view(r@) =~= whole);
    r
}

/// A hash among named values without an odd one, as an array.
fn hash_field(fs: &Vec<(String, Item)>, name: &str) -> (r: Option<[u8; 32]>)
    requires
        seal::first_odd_hash(seal::fields_view(fs@), doc_hash_names()) is None,
        doc_hash_names().contains(name@),
    ensures
        match r {
            Some(h) => seal::last_hash(seal::fields_view(fs@), name@) == Some(h@),
            None => seal::last_hash(seal::fields_view(fs@), name@) is None,
        },
{
    proof {
        crate::spine::lemma_hash_len(seal::fields_view(fs@), doc_hash_names(), name@);
    }
    match find_hash(fs, name) {
        Some(h) => Some(array32(h.as_slice())),
        None => None,
    }
}

pub proof fn lemma_doc_hash_names()
    ensures
        doc_hash_names().contains("key"@),
        doc_hash_names().contains("route"@),
{
    assert(doc_hash_names()[0] == "key"@);
    assert(doc_hash_names()[1] == "route"@);
}

/// The view of a decoded document.
pub open spec fn doc_result(r: Result<TractDoc>) -> core::result::Result<DocView, ErrorView> {
    match r {
        Ok(d) => Ok(d@),
        Err(e) => Err(e@),
    }
}

/// Reads a node from its named values.
fn node_from_fields(fs: &Vec<(String, Item)>) -> (r: Result<TractDoc>)
    requires
        seal::first_odd_hash(seal::fields_view(fs@), doc_hash_names()) is None,
    ensures
        doc_result(r) == doc_from(SCHEMA_NODE@, seal::fields_view(fs@), None),
        r matches Ok(d) ==> (d matches TractDoc::Node(n) ==> n.children@.len() == 32),
{
    proof {
        lemma_doc_hash_names();
        names::lemma_doc_words_differ();
    }
    let map: u64 = match find_uint(fs, "map") {
        Some(m) => m % 0x1_0000_0000,
        None => return Err(corrupt_err("node: missing map")),
    };
    let hs = find_hashes(fs, "ch");
    let ls = find_uints(fs, "at");
    if count_ones(map, 32) != hs.len() as u64 || hs.len() != ls.len() {
        return Err(corrupt_err("node: presence/children mismatch"));
    }
    let depth: u8 = match find_uint(fs, "depth") {
        Some(d) => (d % 256) as u8,
        None => return Err(corrupt_err("node: missing depth")),
    };
    let route = match hash_field(fs, "route") {
        Some(x) => x,
        None => return Err(corrupt_err("node: missing route")),
    };
    let children = spread_kids(map, &hs, &ls);
    Ok(TractDoc::Node(Node { depth, route, children }))
}

/// Reads a document from its schema and named values.
fn doc_from_fields(schema: &String, fs: &Vec<(String, Item)>, stop: &Option<Stop>) -> (r: Result<
    TractDoc,
>)
    ensures
        doc_result(r) == doc_from(schema@, seal::fields_view(fs@), seal::stop_view(*stop)),
        r matches Ok(d) ==> (d matches TractDoc::Node(n) ==> n.children@.len() == 32),
{
    if let Some(name) = find_odd_name(fs) {
        let mut m = name;
        m.append(" len");
        return Err(Error::Corrupt(m));
    }
    match stop {
        Some(Stop::Name(t)) => return Err(Error::Corrupt(t.clone())),
        Some(Stop::Value(t)) => return Err(Error::Corrupt(t.clone())),
        Some(Stop::NoName) => return Err(corrupt_err("bad field name")),
        None => {},
    }
    proof {
        lemma_doc_hash_names();
        names::lemma_doc_words_differ();
    }
    if same_text(schema, SCHEMA_LONE) {
        let key = match hash_field(fs, "key") {
            Some(k) => k,
            None => return Err(corrupt_err("lone: missing key")),
        };
        let value = match find_wrap(fs, "v") {
            Some(v) => v,
            None => return Err(corrupt_err("lone: missing value")),
        };
        return Ok(TractDoc::Lone { key, value });
    }
    if same_text(schema, SCHEMA_EXTENT) {
        let starts = find_uints(fs, "s");
        let counts = find_uints(fs, "c");
        if starts.len() != counts.len() {
            return Err(corrupt_err("extent: run start/count mismatch"));
        }
        let key = match hash_field(fs, "key") {
            Some(k) => k,
            None => return Err(corrupt_err("extent: missing key")),
        };
        let size: u64 = match find_uint(fs, "size") {
            Some(x) => x,
            None => return Err(corrupt_err("extent: missing size")),
        };
        return Ok(TractDoc::Extent { key, size, runs: zip_runs(&starts, &counts) });
    }
    if same_text(schema, SCHEMA_DIRECT) {
        let key = match hash_field(fs, "key") {
            Some(k) => k,
            None => return Err(corrupt_err("direct: missing key")),
        };
        let size: u64 = match find_uint(fs, "size") {
            Some(x) => x,
            None => return Err(corrupt_err("direct: missing size")),
        };
        return Ok(TractDoc::Direct { key, size, furrows: find_uints(fs, "f") });
    }
    if same_text(schema, SCHEMA_FURROW) {
        let key = match hash_field(fs, "key") {
            Some(k) => k,
            None => return Err(corrupt_err("furrow: missing key")),
        };
        let index: u64 = match find_uint(fs, "i") {
            Some(x) => x,
            None => return Err(corrupt_err("furrow: missing index")),
        };
        let payload = match find_wrap(fs, "v") {
            Some(v) => v,
            None => return Err(corrupt_err("furrow: missing payload")),
        };
        return Ok(TractDoc::Furrow { key, index, payload });
    }
    if same_text(schema, SCHEMA_NODE) {
        return node_from_fields(fs);
    }
    let mut m = "unknown tract schema: ".to_owned();
    m.append(schema.as_str());
    Err(Error::Corrupt(m))
}

/// Decodes a tract block. The seal is checked before, by the caller.
pub(crate) fn decode_doc(block: &Block) -> (r: Result<TractDoc>)
    ensures
        match r {
            Ok(d) => doc_of(block@) == Ok::<DocView, ErrorView>(d@) && (d matches TractDoc::Node(n)
                ==> n.children@.len() == 32),
            Err(e) => doc_of(block@) == Err::<DocView, ErrorView>(e@),
        },
{
    reveal(doc_of);
    let p: usize = match read_block_item(block, 4) {
        Err(t) => return Err(Error::Corrupt(t)),
        Ok((_, p)) => p,
    };
    let (schema, q) = match read_block_item(block, p + 1) {
        Err(t) => return Err(Error::Corrupt(t)),
        Ok((Item::Name(s), q)) => (s, q),
        Ok(_) => return Err(corrupt_err("missing schema")),
    };
    let (fs, stop) = scan_fields(block, q);
    doc_from_fields(&schema, &fs, &stop)
}

/// Law: a node's presence map has a bit for each slot, set where the slot is taken.
pub proof fn law_presence_map_has_a_bit_for_each_slot(kids: Seq<Option<ChildView>>, i: int)
    requires
        0 <= i < kids.len(),
    ensures
        (presence(kids) / vstd::arithmetic::power2::pow2(i as nat)) % 2 == (if kids[i] is Some {
            1nat
        } else {
            0nat
        }),
    decreases kids.len(),
{
    vstd::arithmetic::power2::lemma2_to64();
    let x = presence(kids);
    let y = presence(kids.skip(1));
    if i > 0 {
        law_presence_map_has_a_bit_for_each_slot(kids.skip(1), i - 1);
        assert(kids.skip(1)[i - 1] == kids[i]);
        let p = vstd::arithmetic::power2::pow2((i - 1) as nat);
        vstd::arithmetic::power2::lemma_pow2_unfold(i as nat);
        vstd::arithmetic::power2::lemma_pow2_pos((i - 1) as nat);
        vstd::arithmetic::div_mod::lemma_div_denominator(x as int, 2, p as int);
        assert(x / 2 == y);
    } else {
        assert(x / 1 == x);
    }
}

/// Law: a document is written under its own names. A node says its depth, a key beneath it and which slots are
/// taken, before its pointers; a leaf says its key first, and then the value, or its size and where the
/// furrows lie; and a furrow says whose it is, and its index.
pub proof fn law_document_is_named(d: DocView)
    ensures
        match d {
            DocView::Node(n) => n.kids.len() > 0 ==> {
                &&& doc_schema(d) == "manifestus.hamt"@
                &&& doc_fields(d).len() >= 3
                &&& doc_fields(d)[0] == ("depth"@, ItemView::Uint(n.depth as nat))
                &&& doc_fields(d)[1] == ("route"@, ItemView::Hp(n.route))
                &&& doc_fields(d)[2] == ("map"@, ItemView::Uint(presence(n.kids)))
            },
            DocView::Lone { key, value } => {
                &&& doc_schema(d) == "manifestus.lone"@
                &&& doc_fields(d) == seq![
                    ("key"@, ItemView::Hp(key)),
                    ("v"@, ItemView::Wrap(0x72, value)),
                ]
            },
            DocView::Extent { key, size, runs } => {
                &&& doc_schema(d) == "manifestus.extent"@
                &&& doc_fields(d).len() == 2 + 2 * runs.len()
                &&& doc_fields(d)[0] == ("key"@, ItemView::Hp(key))
                &&& doc_fields(d)[1] == ("size"@, ItemView::Uint(size as nat))
                &&& forall|i: int|
                    0 <= i < runs.len() ==> doc_fields(d)[2 + 2 * i] == (
                        "s"@,
                        ItemView::Uint((#[trigger] runs[i]).0 as nat),
                    ) && doc_fields(d)[3 + 2 * i] == ("c"@, ItemView::Uint(runs[i].1 as nat))
            },
            DocView::Direct { key, size, furrows } => {
                &&& doc_schema(d) == "manifestus.direct"@
                &&& doc_fields(d).len() == 2 + furrows.len()
                &&& doc_fields(d)[0] == ("key"@, ItemView::Hp(key))
                &&& doc_fields(d)[1] == ("size"@, ItemView::Uint(size as nat))
                &&& forall|i: int|
                    0 <= i < furrows.len() ==> doc_fields(d)[2 + i] == (
                        "f"@,
                        ItemView::Uint(#[trigger] furrows[i] as nat),
                    )
            },
            DocView::Furrow { key, index, payload } => {
                &&& doc_schema(d) == "manifestus.furrow"@
                &&& doc_fields(d) == seq![
                    ("key"@, ItemView::Hp(key)),
                    ("i"@, ItemView::Uint(index as nat)),
                    ("v"@, ItemView::Wrap(0x72, payload)),
                ]
            },
        },
{
    match d {
        DocView::Node(n) => lemma_named_kids(node_head(n), n.kids),
        DocView::Extent { key, size, runs } => lemma_named_runs(
            key_field(key).push(("size"@, ItemView::Uint(size as nat))),
            runs,
        ),
        DocView::Direct { key, size, furrows } => lemma_named_furrows(
            key_field(key).push(("size"@, ItemView::Uint(size as nat))),
            furrows,
        ),
        _ => {},
    }
}

proof fn lemma_named_kids(fs: Seq<FieldView>, kids: Seq<Option<ChildView>>)
    ensures
        with_kids(fs, kids).len() >= fs.len(),
        forall|i: int| 0 <= i < fs.len() ==> #[trigger] with_kids(fs, kids)[i] == fs[i],
    decreases kids.len(),
{
    if kids.len() > 0 {
        lemma_named_kids(fs, kids.drop_last());
    }
}

proof fn lemma_named_runs(fs: Seq<FieldView>, runs: Seq<(u64, u64)>)
    ensures
        with_runs(fs, runs).len() == fs.len() + 2 * runs.len(),
        forall|i: int| 0 <= i < fs.len() ==> #[trigger] with_runs(fs, runs)[i] == fs[i],
        forall|i: int|
            0 <= i < runs.len() ==> with_runs(fs, runs)[fs.len() + 2 * i] == (
                "s"@,
                ItemView::Uint((#[trigger] runs[i]).0 as nat),
            ) && with_runs(fs, runs)[fs.len() + 2 * i + 1] == (
                "c"@,
                ItemView::Uint(runs[i].1 as nat),
            ),
    decreases runs.len(),
{
    if runs.len() > 0 {
        let less = runs.drop_last();
        lemma_named_runs(fs, less);
        assert forall|i: int| 0 <= i < runs.len() implies with_runs(fs, runs)[fs.len() + 2 * i] == (
            "s"@,
            ItemView::Uint((#[trigger] runs[i]).0 as nat),
        ) && with_runs(fs, runs)[fs.len() + 2 * i + 1] == (
            "c"@,
            ItemView::Uint(runs[i].1 as nat),
        ) by {
            if i < less.len() {
                assert(less[i] == runs[i]);
            }
        }
    }
}

proof fn lemma_named_furrows(fs: Seq<FieldView>, at: Seq<u64>)
    ensures
        with_furrows(fs, at).len() == fs.len() + at.len(),
        forall|i: int| 0 <= i < fs.len() ==> #[trigger] with_furrows(fs, at)[i] == fs[i],
        forall|i: int|
            0 <= i < at.len() ==> with_furrows(fs, at)[fs.len() + i] == (
                "f"@,
                ItemView::Uint(#[trigger] at[i] as nat),
            ),
    decreases at.len(),
{
    if at.len() > 0 {
        let less = at.drop_last();
        lemma_named_furrows(fs, less);
        assert forall|i: int| 0 <= i < at.len() implies with_furrows(fs, at)[fs.len() + i] == (
            "f"@,
            ItemView::Uint(#[trigger] at[i] as nat),
        ) by {
            if i < less.len() {
                assert(less[i] == at[i]);
            }
        }
    }
}

/// Law: a document is read only where it has what its schema asks for: a leaf its key, and its value or its size;
/// a furrow its owner, its index and its payload; a node its depth, its route, and as many pointers as its
/// presence map has bits.
pub proof fn law_document_needs_what_its_schema_asks_for(schema: Seq<char>, fs: Seq<FieldView>)
    requires
        seal::first_odd_hash(fs, doc_hash_names()) is None,
    ensures
        doc_from(schema, fs, None) matches Ok(d) ==> doc_schema(d) == schema,
        doc_from(schema, fs, None) matches Ok(DocView::Lone { key, value }) ==> seal::last_hash(
            fs,
            "key"@,
        ) == Some(key) && seal::last_wrap(fs, "v"@) == Some(value),
        doc_from(schema, fs, None) matches Ok(DocView::Furrow { key, index, payload })
            ==> seal::last_hash(fs, "key"@) == Some(key) && seal::last_uint(fs, "i"@) == Some(index)
            && seal::last_wrap(fs, "v"@) == Some(payload),
        doc_from(schema, fs, None) matches Ok(DocView::Direct { key, size, furrows })
            ==> seal::last_hash(fs, "key"@) == Some(key) && seal::last_uint(fs, "size"@) == Some(
            size,
        ) && seal::all_uints(fs, "f"@) == furrows,
        doc_from(schema, fs, None) matches Ok(DocView::Extent { key, size, runs })
            ==> seal::last_hash(fs, "key"@) == Some(key) && seal::last_uint(fs, "size"@) == Some(
            size,
        ) && runs.len() == seal::all_uints(fs, "s"@).len() && runs.len() == seal::all_uints(
            fs,
            "c"@,
        ).len() && forall|i: int|
            0 <= i < runs.len() ==> (#[trigger] runs[i]).0 == seal::all_uints(fs, "s"@)[i]
                && runs[i].1 == seal::all_uints(fs, "c"@)[i],
        doc_from(schema, fs, None) matches Ok(DocView::Node(n)) ==> seal::last_hash(fs, "route"@)
            == Some(n.route) && (seal::last_uint(fs, "depth"@) matches Some(x) && n.depth == x % 256)
            && seal::all_hashes(fs, "ch"@).len() == seal::all_uints(fs, "at"@).len(),
        schema == SCHEMA_LONE@ ==> (doc_from(schema, fs, None) is Ok <==> seal::last_hash(
            fs,
            "key"@,
        ) is Some && seal::last_wrap(fs, "v"@) is Some),
        schema == SCHEMA_DIRECT@ && schema != SCHEMA_LONE@ && schema != SCHEMA_EXTENT@ ==> (doc_from(
            schema,
            fs,
            None,
        ) is Ok <==> seal::last_hash(fs, "key"@) is Some && seal::last_uint(fs, "size"@) is Some),
{
}

}
