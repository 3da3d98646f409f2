//! Vault inspector: decodes what is physically on one device and checks it against the format.
//!
//! Independence is the point. A tract block is decoded here from its wire values alone, without the
//! engine's own decoder: an auditor that shares the engine's decoder cannot catch a decoder bug. A
//! disagreement between the two is itself a finding.
//!
//! Reads go to a single device: no mirror and no vault stand between, so each side of a mirror is
//! seen as it is, divergence included.
use vstd::prelude::*;
use vstd::string::*;
use vstd::arithmetic::power2::*;
use std::collections::BTreeSet;
use crate::block;
use crate::block::{array32, same32, zero32, zero_block, Block, BlockDev};
use crate::doc;
use crate::doc::{zip_runs, ChildView, DocView};
use crate::edit;
use crate::error::{corrupt_err, ErrorView, Result};
use crate::keep;
use crate::key;
use crate::key::{chunk, route_with_chunk};
use crate::mooring;
use crate::extent;
use crate::extent::expand_runs;
use crate::findings;
use crate::names;
use crate::names::{SCHEMA_DIRECT, SCHEMA_EXTENT, SCHEMA_FURROW, SCHEMA_LONE, SCHEMA_NODE};
use crate::replicate;
use crate::ring;
use crate::ring::{block_is_sealed, classify, Classified, SpineEntry, HOST_RING_LOG2};
use crate::seal;
use crate::seal::{
    digest_from, find_hash, find_hashes, find_uint, find_uints, find_wrap, hash_is, read_block_item,
    scan_fields, starts_with_magic, FieldView, Stop, StopView,
};
use crate::spine;
use crate::spine::{boot_classify, slot_count, ClassView, SpineView};
use crate::standing;
use crate::survey;
use crate::text;
use crate::text::{push_dec, push_hex_byte, same_text};
use crate::tract;
use crate::trie;
use crate::vault;
use crate::wire;
use crate::wire::{Item, ItemView};

verus! {

/// What to show and how hard to look.
#[derive(Clone, Copy)]
pub struct InspectOptions {
    /// Whether to look through the whole tract for sealed blocks that the committed root does not
    /// reach. One read per tract block.
    pub orphan_scan: bool,
    /// Whether to show every slot of the ring, runs of empty ones too.
    pub verbose_ring: bool,
    /// Whether the report shows the ring.
    pub show_ring: bool,
    /// Whether the report shows the tree. It is walked and checked either way.
    pub show_tree: bool,
}

impl Default for InspectOptions {
    fn default() -> (o: Self)
        ensures
            !o.orphan_scan,
            !o.verbose_ring,
            o.show_ring,
            o.show_tree,
    {
        InspectOptions {
            orphan_scan: false,
            verbose_ring: false,
            show_ring: true,
            show_tree: true,
        }
    }
}

// ---------------------------------------------------------------- tract blocks

/// A tract block, decoded independently of the engine.
#[derive(Debug, Clone, PartialEq)]
pub enum TractBlock {
    /// An index node: its depth, a key beneath it, and its children by slot, hash and address.
    Node { depth: u8, route: [u8; 32], children: Vec<(u8, [u8; 32], u64)> },
    /// A leaf with its value.
    Lone { key: [u8; 32], value_len: usize },
    /// A leaf whose value lies in furrows: owner, total size, addresses.
    Direct { key: [u8; 32], size: u64, furrows: Vec<u64> },
    /// A leaf whose value lies in runs of furrows: owner, total size, and the runs by first address
    /// and length.
    Extent { key: [u8; 32], size: u64, runs: Vec<(u64, u64)> },
    /// One furrow of a value.
    Furrow { key: [u8; 32], index: u64, payload_len: usize },
}

/// The mathematical view of a decoded tract block.
pub enum BlockView {
    Node { depth: u8, route: Seq<u8>, children: Seq<(u8, Seq<u8>, u64)> },
    Lone { key: Seq<u8>, value_len: nat },
    Direct { key: Seq<u8>, size: u64, furrows: Seq<u64> },
    Extent { key: Seq<u8>, size: u64, runs: Seq<(u64, u64)> },
    Furrow { key: Seq<u8>, index: u64, payload_len: nat },
}

/// The view of a node's children.
pub open spec fn children_view(cs: Seq<(u8, [u8; 32], u64)>) -> Seq<(u8, Seq<u8>, u64)> {
    Seq::new(cs.len(), |i: int| (cs[i].0, cs[i].1@, cs[i].2))
}

impl View for TractBlock {
    type V = BlockView;

    open spec fn view(&self) -> BlockView {
        match self {
            TractBlock::Node { depth, route, children } => BlockView::Node {
                depth: *depth,
                route: route@,
                children: children_view(children@),
            },
            TractBlock::Lone { key, value_len } => BlockView::Lone {
                key: key@,
                value_len: *value_len as nat,
            },
            TractBlock::Direct { key, size, furrows } => BlockView::Direct {
                key: key@,
                size: *size,
                furrows: furrows@,
            },
            TractBlock::Extent { key, size, runs } => BlockView::Extent {
                key: key@,
                size: *size,
                runs: runs@,
            },
            TractBlock::Furrow { key, index, payload_len } => BlockView::Furrow {
                key: key@,
                index: *index,
                payload_len: *payload_len as nat,
            },
        }
    }
}

/// A 32-byte hash under a name; a last one of another length counts as none.
pub open spec fn name_of(fs: Seq<FieldView>, name: Seq<char>) -> Option<Seq<u8>> {
    match seal::last_hash(fs, name) {
        Some(h) => if h.len() == 32 {
            Some(h)
        } else {
            None
        },
        None => None,
    }
}

/// The children of a presence map from slot `s` on: where a bit of `m` is set, the next hash and
/// address.
pub open spec fn present(m: nat, s: nat, hs: Seq<Seq<u8>>, ls: Seq<u64>) -> Seq<(u8, Seq<u8>, u64)>
    decreases 32 - s,
{
    if s >= 32 {
        Seq::<(u8, Seq<u8>, u64)>::empty()
    } else if m % 2 == 1 {
        seq![(s as u8, hs[0], ls[0])] + present(m / 2, s + 1, hs.skip(1), ls.skip(1))
    } else {
        present(m / 2, s + 1, hs, ls)
    }
}

/// What a node whose map does not fit its children is refused with.
pub open spec fn misfit(bits: nat, hashes: nat, lbas: nat) -> Seq<char> {
    "node: presence popcount "@ + text::dec(bits) + " != children "@ + text::dec(hashes)
        + " / lbas "@ + text::dec(lbas)
}

/// The tract block that a schema and named values make.
pub open spec fn shape_of(schema: Seq<char>, fs: Seq<FieldView>) -> core::result::Result<
    BlockView,
    Seq<char>,
> {
    let key = name_of(fs, "key"@);
    let value = seal::last_wrap(fs, "v"@);
    if schema == SCHEMA_LONE@ {
        if key is None {
            Err("lone: missing key"@)
        } else if value is None {
            Err("lone: missing value"@)
        } else {
            Ok(BlockView::Lone { key: key->0, value_len: (value->0).len() })
        }
    } else if schema == SCHEMA_DIRECT@ {
        let size = seal::last_uint(fs, "size"@);
        if key is None {
            Err("direct: missing key"@)
        } else if size is None {
            Err("direct: missing size"@)
        } else {
            Ok(
                BlockView::Direct {
                    key: key->0,
                    size: size->0,
                    furrows: seal::all_uints(fs, "f"@),
                },
            )
        }
    } else if schema == SCHEMA_EXTENT@ {
        let starts = seal::all_uints(fs, "s"@);
        let counts = seal::all_uints(fs, "c"@);
        let size = seal::last_uint(fs, "size"@);
        if starts.len() != counts.len() {
            Err("extent: run start/count mismatch"@)
        } else if key is None {
            Err("extent: missing key"@)
        } else if size is None {
            Err("extent: missing size"@)
        } else {
            Ok(
                BlockView::Extent {
                    key: key->0,
                    size: size->0,
                    runs: doc::zipped(starts, counts),
                },
            )
        }
    } else if schema == SCHEMA_FURROW@ {
        let index = seal::last_uint(fs, "i"@);
        if key is None {
            Err("furrow: missing key"@)
        } else if index is None {
            Err("furrow: missing index"@)
        } else if value is None {
            Err("furrow: missing payload"@)
        } else {
            Ok(BlockView::Furrow { key: key->0, index: index->0, payload_len: (value->0).len() })
        }
    } else if schema == SCHEMA_NODE@ {
        let map = seal::last_uint(fs, "map"@);
        let hs = seal::all_hashes(fs, "ch"@);
        let ls = seal::all_uints(fs, "at"@);
        let depth = seal::last_uint(fs, "depth"@);
        let route = name_of(fs, "route"@);
        if map is None {
            Err("node: missing map"@)
        } else {
            let m = (map->0 % 0x1_0000_0000) as nat;
            if doc::ones(m, 32) != hs.len() || hs.len() != ls.len() {
                Err(misfit(doc::ones(m, 32), hs.len(), ls.len()))
            } else if depth is None {
                Err("node: missing depth"@)
            } else if route is None {
                Err("node: missing route"@)
            } else {
                Ok(
                    BlockView::Node {
                        depth: (depth->0 % 256) as u8,
                        route: route->0,
                        children: present(m, 0, hs, ls),
                    },
                )
            }
        }
    } else {
        Err("unknown tract schema: "@ + schema)
    }
}

/// What a block holds: its seal and its shape, or why it holds none.
pub open spec fn tract_of(b: Seq<u8>) -> core::result::Result<(Seq<u8>, BlockView), Seq<char>> {
    if !seal::has_magic(b) {
        Err("no RÅ magic"@)
    } else {
        match wire::parsed(b, 4) {
            Err(t) => Err("hp: "@ + t),
            Ok((ItemView::Hp(stored), p)) => if p >= b.len() || b[p] != 0x3E {
                Err("expected '>' after hp"@)
            } else if seal::digest(b.subrange(p + 1, b.len() as int)) != stored {
                Err("seal mismatch (hp != BLAKE3(body))"@)
            } else {
                match wire::parsed(b, p + 1) {
                    Err(t) => Err("schema: "@ + t),
                    Ok((ItemView::Name(schema), q)) => match seal::scan(b, q).1 {
                        Some(StopView::Name(t)) => Err("name: "@ + t),
                        Some(StopView::Value(t)) => Err("value: "@ + t),
                        Some(StopView::NoName) => Err("bad field name"@),
                        None => match shape_of(schema, seal::scan(b, q).0) {
                            Err(t) => Err(t),
                            Ok(x) => Ok((stored, x)),
                        },
                    },
                    Ok(_) => Err("expected schema id"@),
                }
            },
            Ok(_) => Err("expected hp after magic"@),
        }
    }
}

/// The view of a decoding.
pub open spec fn tract_view(r: core::result::Result<([u8; 32], TractBlock), String>) -> core::result::Result<
    (Seq<u8>, BlockView),
    Seq<char>,
> {
    match r {
        Ok((h, x)) => Ok((h@, x@)),
        Err(t) => Err(t@),
    }
}

/// The view of a shape.
pub open spec fn shape_view(r: core::result::Result<TractBlock, String>) -> core::result::Result<
    BlockView,
    Seq<char>,
> {
    match r {
        Ok(x) => Ok(x@),
        Err(t) => Err(t@),
    }
}

/// Two texts, one after the other.
fn joined(a: &str, b: &str) -> (s: String)
    ensures
        s@ == a@ + b@,
{
    let mut s = a.to_owned();
    s.append(b);
    s
}

fn find_name(fs: &Vec<(String, Item)>, name: &str) -> (r: Option<[u8; 32]>)
    ensures
        match r {
            Some(h) => name_of(seal::fields_view(fs@), name@) == Some(h@),
            None => name_of(seal::fields_view(fs@), name@) is None,
        },
{
    match find_hash(fs, name) {
        Some(h) => if h.len() == 32 {
            Some(array32(h.as_slice()))
        } else {
            None
        },
        None => None,
    }
}

/// The children of a presence map.
fn list_children(m0: u64, hs: &Vec<[u8; 32]>, ls: &Vec<u64>) -> (r: Vec<(u8, [u8; 32], u64)>)
    requires
        hs@.len() == ls@.len(),
        doc::ones(m0 as nat, 32) == hs@.len(),
    ensures
        children_view(r@) == present(m0 as nat, 0, seal::hashes_view(hs@), ls@),
{
    let ghost hv = seal::hashes_view(hs@);
    let ghost whole = present(m0 as nat, 0, hv, ls@);
    let mut r: Vec<(u8, [u8; 32], u64)> = Vec::new();
    let mut m: u64 = m0;
    let mut next: usize = 0;
    let mut i: u8 = 0;
    let total: usize = hs.len();
    assert(hv.skip(0) =~= hv);
    assert(ls@.skip(0) =~= ls@);
    assert(children_view(r@) + whole =~= whole);
    while i < 32
        invariant
            i <= 32,
            hs@.len() == ls@.len(),
            hv == seal::hashes_view(hs@),
            total == hs@.len(),
            next <= total,
            doc::ones(m as nat, (32 - i) as nat) == hs@.len() - next,
            children_view(r@) + present(
                m as nat,
                i as nat,
                hv.skip(next as int),
                ls@.skip(next as int),
            ) == whole,
        decreases 32 - i,
    {
        let ghost before = children_view(r@);
        let ghost hrest = hv.skip(next as int);
        let ghost lrest = ls@.skip(next as int);
        let ghost rest = present(m as nat, i as nat, hrest, lrest);
        if m % 2 == 1 {
            let c = (i, hs[next], ls[next]);
            r.push(c);
            proof {
                assert(hrest.skip(1) =~= hv.skip(next + 1));
                assert(lrest.skip(1) =~= ls@.skip(next + 1));
                assert(children_view(r@) =~= before.push((i, c.1@, c.2)));
            }
            next = next + 1;
        }
        m = m / 2;
        i = i + 1;
        assert(children_view(r@) + present(
            m as nat,
            i as nat,
            hv.skip(next as int),
            ls@.skip(next as int),
        ) =~= before + rest);
    }
    assert(children_view(r@) =~= whole);
    r
}

/// The node that some named values make.
fn node_shape(fs: &Vec<(String, Item)>) -> (r: core::result::Result<TractBlock, String>)
    ensures
        shape_view(r) == shape_of(SCHEMA_NODE@, seal::fields_view(fs@)),
{
    proof {
        names::lemma_doc_words_differ();
    }
    let map: u64 = match find_uint(fs, "map") {
        None => return Err("node: missing map".to_owned()),
        Some(m) => m % 0x1_0000_0000,
    };
    let hs = find_hashes(fs, "ch");
    let ls = find_uints(fs, "at");
    let bits: u64 = doc::count_ones(map, 32);
    if bits != hs.len() as u64 || hs.len() != ls.len() {
        let mut s = "node: presence popcount ".to_owned();
        push_dec(&mut s, bits);
        s.append(" != children ");
        push_dec(&mut s, hs.len() as u64);
        s.append(" / lbas ");
        push_dec(&mut s, ls.len() as u64);
        return Err(s);
    }
    let depth: u64 = match find_uint(fs, "depth") {
        None => return Err("node: missing depth".to_owned()),
        Some(d) => d,
    };
    let route = match find_name(fs, "route") {
        None => return Err("node: missing route".to_owned()),
        Some(h) => h,
    };
    let children = list_children(map, &hs, &ls);
    Ok(TractBlock::Node { depth: (depth % 256) as u8, route, children })
}

/// The tract block that a schema and named values make.
fn shape(schema: &String, fs: &Vec<(String, Item)>) -> (r: core::result::Result<TractBlock, String>)
    ensures
        shape_view(r) == shape_of(schema@, seal::fields_view(fs@)),
{
    if same_text(schema, SCHEMA_LONE) {
        let key = match find_name(fs, "key") {
            None => return Err("lone: missing key".to_owned()),
            Some(k) => k,
        };
        match find_wrap(fs, "v") {
            None => Err("lone: missing value".to_owned()),
            Some(v) => Ok(TractBlock::Lone { key, value_len: v.len() }),
        }
    } else if same_text(schema, SCHEMA_DIRECT) {
        let key = match find_name(fs, "key") {
            None => return Err("direct: missing key".to_owned()),
            Some(k) => k,
        };
        match find_uint(fs, "size") {
            None => Err("direct: missing size".to_owned()),
            Some(size) => Ok(TractBlock::Direct { key, size, furrows: find_uints(fs, "f") }),
        }
    } else if same_text(schema, SCHEMA_EXTENT) {
        let starts = find_uints(fs, "s");
        let counts = find_uints(fs, "c");
        if starts.len() != counts.len() {
            return Err("extent: run start/count mismatch".to_owned());
        }
        let key = match find_name(fs, "key") {
            None => return Err("extent: missing key".to_owned()),
            Some(k) => k,
        };
        match find_uint(fs, "size") {
            None => Err("extent: missing size".to_owned()),
            Some(size) => Ok(TractBlock::Extent { key, size, runs: zip_runs(&starts, &counts) }),
        }
    } else if same_text(schema, SCHEMA_FURROW) {
        let key = match find_name(fs, "key") {
            None => return Err("furrow: missing key".to_owned()),
            Some(k) => k,
        };
        let index: u64 = match find_uint(fs, "i") {
            None => return Err("furrow: missing index".to_owned()),
            Some(i) => i,
        };
        match find_wrap(fs, "v") {
            None => Err("furrow: missing payload".to_owned()),
            Some(v) => Ok(TractBlock::Furrow { key, index, payload_len: v.len() }),
        }
    } else if same_text(schema, SCHEMA_NODE) {
        node_shape(fs)
    } else {
        Err(joined("unknown tract schema: ", schema.as_str()))
    }
}

/// Decodes a tract block: the hash it is sealed with, and its shape. Whether a pointer to it expects
/// that hash is the caller's to compare.
pub fn decode_tract(block: &Block) -> (r: core::result::Result<([u8; 32], TractBlock), String>)
    ensures
        tract_view(r) == tract_of(block@),
{
    if !starts_with_magic(block) {
        return Err("no RÅ magic".to_owned());
    }
    let (stored, p) = match read_block_item(block, 4) {
        Err(t) => return Err(joined("hp: ", t.as_str())),
        Ok((Item::Hp(h), p)) => (h, p),
        Ok(_) => return Err("expected hp after magic".to_owned()),
    };
    if p >= 4096 || block[p] != 0x3E {
        return Err("expected '>' after hp".to_owned());
    }
    let seal = digest_from(block, p + 1);
    if !hash_is(&stored, &seal) {
        return Err("seal mismatch (hp != BLAKE3(body))".to_owned());
    }
    let (schema, q) = match read_block_item(block, p + 1) {
        Err(t) => return Err(joined("schema: ", t.as_str())),
        Ok((Item::Name(s), q)) => (s, q),
        Ok(_) => return Err("expected schema id".to_owned()),
    };
    let (fs, stop) = scan_fields(block, q);
    match stop {
        Some(Stop::Name(t)) => Err(joined("name: ", t.as_str())),
        Some(Stop::Value(t)) => Err(joined("value: ", t.as_str())),
        Some(Stop::NoName) => Err("bad field name".to_owned()),
        None => match shape(&schema, &fs) {
            Err(t) => Err(t),
            Ok(x) => Ok((seal, x)),
        },
    }
}

// ---------------------------------------------------------------- the tree

/// One block met on the walk of the index, with how deep it hangs and what is wrong with it.
pub struct TreeNode {
    pub indent: usize,
    pub lba: u64,
    pub doc: TractBlock,
    /// Whether the block is sealed with the hash that the pointer to it expects.
    pub seal_ok: bool,
    /// Whether the block belongs where it hangs: a node's depth is that of its place, a leaf's key
    /// leads there.
    pub self_addr_ok: bool,
    /// What is wrong, in words.
    pub note: Option<String>,
}

/// The mathematical view of a block met on the walk.
pub struct TreeView {
    pub indent: nat,
    pub lba: u64,
    pub doc: BlockView,
    pub seal_ok: bool,
    pub self_addr_ok: bool,
    pub note: Option<Seq<char>>,
}

/// The view of a remark.
pub open spec fn note_view(n: Option<String>) -> Option<Seq<char>> {
    match n {
        Some(s) => Some(s@),
        None => None,
    }
}

impl View for TreeNode {
    type V = TreeView;

    open spec fn view(&self) -> TreeView {
        TreeView {
            indent: self.indent as nat,
            lba: self.lba,
            doc: self.doc@,
            seal_ok: self.seal_ok,
            self_addr_ok: self.self_addr_ok,
            note: note_view(self.note),
        }
    }
}

/// The view of a walk's blocks.
pub open spec fn tree_view(v: Seq<TreeNode>) -> Seq<TreeView> {
    Seq::new(v.len(), |i: int| v[i]@)
}

/// What a walk comes to: the blocks in the order met, the addresses reached, and how many nodes,
/// leaves and furrows there were.
#[verifier::ext_equal]
pub struct Tour {
    pub tree: Seq<TreeView>,
    pub reached: Set<u64>,
    pub nodes: nat,
    pub leaves: nat,
    pub furrows: nat,
}

/// A walk of nothing.
pub open spec fn no_tour() -> Tour {
    Tour {
        tree: Seq::<TreeView>::empty(),
        reached: Set::<u64>::empty(),
        nodes: 0,
        leaves: 0,
        furrows: 0,
    }
}

impl Tour {
    /// One walk after another.
    pub open spec fn followed(self, o: Tour) -> Tour {
        Tour {
            tree: self.tree + o.tree,
            reached: self.reached.union(o.reached),
            nodes: self.nodes + o.nodes,
            leaves: self.leaves + o.leaves,
            furrows: self.furrows + o.furrows,
        }
    }
}

/// The first eight numerals of a hash: enough to tell two apart at a glance.
pub open spec fn hex8(h: Seq<u8>) -> Seq<char> {
    text::hex(h.take(4))
}

/// What stands for a block that could not be decoded.
pub open spec fn blank_doc() -> BlockView {
    BlockView::Lone { key: block::zeros32(), value_len: 0 }
}

/// The walk of one furrow: its hash is not in the index, so only its seal and its owner count.
pub open spec fn furrow_tour(
    disk: Seq<Seq<u8>>,
    base: int,
    lba: u64,
    owner: Seq<u8>,
    index: u64,
    indent: nat,
) -> Tour {
    if base + lba >= disk.len() {
        no_tour()
    } else {
        let t = match tract_of(disk[base + lba]) {
            Err(reason) => TreeView {
                indent,
                lba,
                doc: BlockView::Furrow { key: owner, index, payload_len: 0 },
                seal_ok: false,
                self_addr_ok: false,
                note: Some(reason),
            },
            Ok((_, doc)) => {
                let ok = doc matches BlockView::Furrow { key, index: i, .. } && key == owner && i
                    == index;
                TreeView {
                    indent,
                    lba,
                    doc,
                    seal_ok: true,
                    self_addr_ok: ok,
                    note: if ok {
                        None
                    } else {
                        Some("furrow owner/index mismatch"@)
                    },
                }
            },
        };
        Tour {
            tree: seq![t],
            reached: Set::<u64>::empty().insert(lba),
            nodes: 0,
            leaves: 0,
            furrows: 1,
        }
    }
}

/// The walk of a leaf's first `n` furrows.
pub open spec fn furrow_tours(
    disk: Seq<Seq<u8>>,
    base: int,
    at: Seq<u64>,
    n: nat,
    owner: Seq<u8>,
    indent: nat,
) -> Tour
    decreases n,
{
    if n == 0 {
        no_tour()
    } else {
        furrow_tours(disk, base, at, (n - 1) as nat, owner, indent).followed(
            furrow_tour(disk, base, at[n - 1], owner, (n - 1) as u64, indent),
        )
    }
}

/// A walk that meets a single block.
pub open spec fn lone_tour(t: TreeView, nodes: nat, leaves: nat) -> Tour {
    Tour {
        tree: seq![t],
        reached: Set::<u64>::empty().insert(t.lba),
        nodes,
        leaves,
        furrows: 0,
    }
}

/// The remark on a block that is not sealed with the hash expected.
pub open spec fn hash_note(seal: Seq<u8>, hash: Seq<u8>) -> Option<Seq<char>> {
    if seal == hash {
        None
    } else {
        Some("block hash "@ + hex8(seal) + " != pointer hash "@ + hex8(hash))
    }
}

/// The walk of the index from a pointer: address and hash, at a depth that `route` leads to. An index
/// deeper than its keys has no walk.
pub open spec fn tour(
    disk: Seq<Seq<u8>>,
    base: int,
    lba: u64,
    hash: Seq<u8>,
    depth: nat,
    route: Seq<u8>,
) -> core::result::Result<Tour, ErrorView>
    decreases 53 - depth, 0nat,
{
    let blank = TreeView {
        indent: depth,
        lba,
        doc: blank_doc(),
        seal_ok: false,
        self_addr_ok: false,
        note: None,
    };
    if base + lba >= disk.len() {
        let t = TreeView {
            note: Some("lba "@ + text::dec(lba as nat) + " out of device range"@),
            ..blank
        };
        Ok(Tour { reached: Set::<u64>::empty(), ..lone_tour(t, 0, 0) })
    } else {
        match tract_of(disk[base + lba]) {
            Err(reason) => Ok(lone_tour(TreeView { note: Some(reason), ..blank }, 0, 0)),
            Ok((seal, doc)) => {
                let t = TreeView {
                    indent: depth,
                    lba,
                    doc,
                    seal_ok: seal == hash,
                    self_addr_ok: false,
                    note: hash_note(seal, hash),
                };
                match doc {
                    BlockView::Node { depth: d, children, .. } => {
                        let here = lone_tour(TreeView { self_addr_ok: d == depth, ..t }, 1, 0);
                        if children.len() == 0 {
                            Ok(here)
                        } else if depth >= 52 {
                            Err(trie::too_deep())
                        } else {
                            match tours(disk, base, children, children.len(), depth, route) {
                                Err(e) => Err(e),
                                Ok(x) => Ok(here.followed(x)),
                            }
                        }
                    },
                    BlockView::Lone { key, .. } => Ok(
                        lone_tour(
                            TreeView { self_addr_ok: key::agree(key, route, depth as int), ..t },
                            0,
                            1,
                        ),
                    ),
                    BlockView::Direct { key, furrows, .. } => Ok(
                        lone_tour(
                            TreeView { self_addr_ok: key::agree(key, route, depth as int), ..t },
                            0,
                            1,
                        ).followed(
                            furrow_tours(disk, base, furrows, furrows.len(), key, depth + 1),
                        ),
                    ),
                    BlockView::Extent { key, size, runs } => match extent::expanded(runs, size) {
                        Ok(at) => Ok(
                            lone_tour(
                                TreeView {
                                    self_addr_ok: key::agree(key, route, depth as int),
                                    ..t
                                },
                                0,
                                1,
                            ).followed(furrow_tours(disk, base, at, at.len(), key, depth + 1)),
                        ),
                        Err(_) => Ok(
                            lone_tour(
                                TreeView { note: Some("extent runs do not fit its size"@), ..t },
                                0,
                                1,
                            ),
                        ),
                    },
                    BlockView::Furrow { .. } => Ok(
                        lone_tour(
                            TreeView { note: Some("furrow block in index position"@), ..t },
                            0,
                            0,
                        ),
                    ),
                }
            },
        }
    }
}

/// The walk of a node's first `n` children.
pub open spec fn tours(
    disk: Seq<Seq<u8>>,
    base: int,
    children: Seq<(u8, Seq<u8>, u64)>,
    n: nat,
    depth: nat,
    route: Seq<u8>,
) -> core::result::Result<Tour, ErrorView>
    decreases 52 - depth, n,
{
    if n == 0 || depth >= 52 {
        Ok(no_tour())
    } else {
        match tours(disk, base, children, (n - 1) as nat, depth, route) {
            Err(e) => Err(e),
            Ok(x) => {
                let (slot, h, lba) = children[n - 1];
                match tour(disk, base, lba, h, depth + 1, key::routed(route, depth as int, slot)) {
                    Err(e) => Err(e),
                    Ok(y) => Ok(x.followed(y)),
                }
            },
        }
    }
}

broadcast use vstd::std_specs::btree::group_btree_axioms;

/// What a walk has found so far.
struct Found {
    tree: Vec<TreeNode>,
    reached: BTreeSet<u64>,
    nodes: usize,
    leaves: usize,
    furrows: usize,
}

impl View for Found {
    type V = Tour;

    closed spec fn view(&self) -> Tour {
        Tour {
            tree: tree_view(self.tree@),
            reached: self.reached@,
            nodes: self.nodes as nat,
            leaves: self.leaves as nat,
            furrows: self.furrows as nat,
        }
    }
}

proof fn lemma_followed(a: Tour, b: Tour, c: Tour)
    ensures
        a.followed(b).followed(c) == a.followed(b.followed(c)),
        a.followed(no_tour()) == a,
        no_tour().followed(a) == a,
{
    assert(a.followed(b).followed(c) =~= a.followed(b.followed(c)));
    assert(a.followed(no_tour()) =~= a);
    assert(no_tour().followed(a) =~= a);
}

/// The children of a node stand in slots.
proof fn lemma_present_slots(m: nat, s: nat, hs: Seq<Seq<u8>>, ls: Seq<u64>)
    ensures
        forall|i: int| 0 <= i < present(m, s, hs, ls).len() ==> (#[trigger] present(
            m,
            s,
            hs,
            ls,
        )[i]).0 < 32,
    decreases 32 - s,
{
    if s < 32 {
        if m % 2 == 1 {
            lemma_present_slots(m / 2, s + 1, hs.skip(1), ls.skip(1));
            let rest = present(m / 2, s + 1, hs.skip(1), ls.skip(1));
            let all = present(m, s, hs, ls);
            assert forall|i: int| 0 <= i < all.len() implies (#[trigger] all[i]).0 < 32 by {
                if i > 0 {
                    assert(all[i] == rest[i - 1]);
                }
            }
        } else {
            lemma_present_slots(m / 2, s + 1, hs, ls);
            assert(present(m, s, hs, ls) == present(m / 2, s + 1, hs, ls));
        }
    }
}

proof fn lemma_decoded_slots(b: Seq<u8>)
    ensures
        tract_of(b) matches Ok((_, BlockView::Node { children, .. })) ==> forall|i: int|
            0 <= i < children.len() ==> (#[trigger] children[i]).0 < 32,
{
    if let Ok((_, BlockView::Node { .. })) = tract_of(b) {
        if let Ok((ItemView::Hp(_), p)) = wire::parsed(b, 4) {
            if let Ok((ItemView::Name(_), q)) = wire::parsed(b, p + 1) {
                let fs = seal::scan(b, q).0;
                let m = (seal::last_uint(fs, "map"@)->0 % 0x1_0000_0000) as nat;
                lemma_present_slots(
                    m,
                    0,
                    seal::all_hashes(fs, "ch"@),
                    seal::all_uints(fs, "at"@),
                );
            }
        }
    }
}

impl Found {
    fn new() -> (f: Self)
        ensures
            f@ == no_tour(),
            f.wf(),
    {
        let f = Found {
            tree: Vec::new(),
            reached: BTreeSet::new(),
            nodes: 0,
            leaves: 0,
            furrows: 0,
        };
        assert(f@ =~= no_tour());
        f
    }

    /// Every count is that of blocks in the list, and none of them hangs deeper than any index.
    closed spec fn wf(&self) -> bool {
        &&& self.nodes <= self.tree@.len()
        &&& self.leaves <= self.tree@.len()
        &&& self.furrows <= self.tree@.len()
        &&& forall|i: int| 0 <= i < self.tree@.len() ==> (#[trigger] self.tree@[i]).indent < 0x1_0000
    }

    /// Adds a block to the list, without counting it.
    fn add(&mut self, t: TreeNode, nodes: bool, leaves: bool, furrows: bool)
        requires
            old(self).wf(),
            t.indent < 0x1_0000,
        ensures
            final(self).wf(),
            final(self)@ == (Tour {
                tree: old(self)@.tree.push(t@),
                reached: old(self)@.reached,
                nodes: old(self)@.nodes + (if nodes {
                    1nat
                } else {
                    0nat
                }),
                leaves: old(self)@.leaves + (if leaves {
                    1nat
                } else {
                    0nat
                }),
                furrows: old(self)@.furrows + (if furrows {
                    1nat
                } else {
                    0nat
                }),
            }),
    {
        let ghost was = self@;
        let ghost tv = t@;
        self.tree.push(t);
        let len: usize = self.tree.len();
        assert(tree_view(self.tree@) =~= was.tree.push(tv));
        assert(len >= 1);
        if nodes {
            self.nodes = self.nodes + 1;
        }
        if leaves {
            self.leaves = self.leaves + 1;
        }
        if furrows {
            self.furrows = self.furrows + 1;
        }
    }

    /// Notes an address as reached.
    fn reach(&mut self, lba: u64)
        requires
            old(self).wf(),
        ensures
            final(self).wf(),
            final(self)@ == (Tour { reached: old(self)@.reached.insert(lba), ..old(self)@ }),
    {
        self.reached.insert(lba);
    }
}

/// The first eight numerals of a hash.
pub(crate) fn hex8_text(h: &[u8; 32]) -> (s: String)
    ensures
        s@ == hex8(h@),
{
    let mut s = String::new();
    let mut i: usize = 0;
    assert(text::hex(h@.take(0)) =~= Seq::<char>::empty());
    while i < 4
        invariant
            i <= 4,
            s@ == text::hex(h@.take(i as int)),
        decreases 4 - i,
    {
        push_hex_byte(&mut s, h[i]);
        i = i + 1;
        assert(h@.take(i as int).drop_last() =~= h@.take(i - 1));
        assert(h@.take(i as int).last() == h@[i - 1]);
    }
    s
}

fn hash_words(seal: &[u8; 32], hash: &[u8; 32]) -> (n: Option<String>)
    ensures
        note_view(n) == hash_note(seal@, hash@),
{
    if same32(seal, hash) {
        return None;
    }
    let mut s = "block hash ".to_owned();
    s.append(hex8_text(seal).as_str());
    s.append(" != pointer hash ");
    s.append(hex8_text(hash).as_str());
    Some(s)
}

/// Whether a key leads to a place: its chunks are those of the way there.
fn leads_here(key: &[u8; 32], route: &[u8; 32], depth: u8) -> (r: bool)
    requires
        depth <= 52,
    ensures
        r == key::agree(key@, route@, depth as int),
{
    let mut d: u8 = 0;
    while d < depth
        invariant
            d <= depth <= 52,
            key::agree(key@, route@, d as int),
        decreases depth - d,
    {
        if chunk(key, d) != chunk(route, d) {
            assert(key::chunk_of(key@, d as int) != key::chunk_of(route@, d as int));
            return false;
        }
        d = d + 1;
    }
    true
}

/// A copy of a furrow list.
fn copied_list(v: &Vec<u64>) -> (r: Vec<u64>)
    ensures
        r@ == v@,
{
    let mut r: Vec<u64> = Vec::new();
    let mut i: usize = 0;
    while i < v.len()
        invariant
            i <= v@.len(),
            r@ == v@.take(i as int),
        decreases v@.len() - i,
    {
        r.push(v[i]);
        i = i + 1;
        assert(r@ =~= v@.take(i as int));
    }
    assert(r@ =~= v@);
    r
}

/// A copy of a node's children.
fn copied_children(v: &Vec<(u8, [u8; 32], u64)>) -> (r: Vec<(u8, [u8; 32], u64)>)
    ensures
        r@ == v@,
{
    let mut r: Vec<(u8, [u8; 32], u64)> = Vec::new();
    let mut i: usize = 0;
    while i < v.len()
        invariant
            i <= v@.len(),
            r@ == v@.take(i as int),
        decreases v@.len() - i,
    {
        r.push(v[i]);
        i = i + 1;
        assert(r@ =~= v@.take(i as int));
    }
    assert(r@ =~= v@);
    r
}

/// Whether a walk's step reports the truth, or the failure of an unreliable device.
spec fn toured(
    r: Result<()>,
    was: Tour,
    now: Tour,
    truth: core::result::Result<Tour, ErrorView>,
    sure: bool,
) -> bool {
    match r {
        Ok(()) => truth matches Ok(x) && now == was.followed(x),
        Err(e) => truth == Err::<Tour, ErrorView>(e@) || (block::device_error(e@) && !sure),
    }
}

/// Walks one furrow of a leaf.
fn walk_furrow<D: BlockDev>(
    dev: &mut D,
    tract_base: u64,
    lba: u64,
    owner: &[u8; 32],
    expected_index: u64,
    indent: usize,
    found: &mut Found,
) -> (r: Result<()>)
    requires
        old(found).wf(),
        indent < 0x1_0000,
    ensures
        final(found).wf(),
        (*final(dev)).disk() == (*old(dev)).disk(),
        (*final(dev)).reliable() == (*old(dev)).reliable(),
        toured(
            r,
            old(found)@,
            final(found)@,
            Ok(
                furrow_tour(
                    (*old(dev)).disk(),
                    tract_base as int,
                    lba,
                    owner@,
                    expected_index,
                    indent as nat,
                ),
            ),
            (*old(dev)).reliable(),
        ),
{
    let ghost was = found@;
    let ghost disk = (*dev).disk();
    let count: u64 = dev.block_count();
    if tract_base >= count || lba >= count - tract_base {
        proof {
            lemma_followed(was, was, was);
        }
        return Ok(());
    }
    let mut buf = zero_block();
    dev.read(tract_base + lba, &mut buf)?;
    found.reach(lba);
    let t = match decode_tract(&buf) {
        Err(reason) => TreeNode {
            indent,
            lba,
            doc: TractBlock::Furrow { key: *owner, index: expected_index, payload_len: 0 },
            seal_ok: false,
            self_addr_ok: false,
            note: Some(reason),
        },
        Ok((_, doc)) => {
            let ok = match &doc {
                TractBlock::Furrow { key, index, .. } => same32(key, owner) && *index
                    == expected_index,
                _ => false,
            };
            let note = if ok {
                None
            } else {
                Some("furrow owner/index mismatch".to_owned())
            };
            TreeNode { indent, lba, doc, seal_ok: true, self_addr_ok: ok, note }
        },
    };
    let ghost tv = t@;
    found.add(t, false, false, true);
    assert(found@ =~= was.followed(
        furrow_tour(disk, tract_base as int, lba, owner@, expected_index, indent as nat),
    ));
    Ok(())
}

/// Walks the furrows of a leaf.
fn walk_furrows<D: BlockDev>(
    dev: &mut D,
    tract_base: u64,
    at: &Vec<u64>,
    owner: &[u8; 32],
    indent: usize,
    found: &mut Found,
) -> (r: Result<()>)
    requires
        old(found).wf(),
        indent < 0x1_0000,
    ensures
        final(found).wf(),
        (*final(dev)).disk() == (*old(dev)).disk(),
        (*final(dev)).reliable() == (*old(dev)).reliable(),
        toured(
            r,
            old(found)@,
            final(found)@,
            Ok(
                furrow_tours(
                    (*old(dev)).disk(),
                    tract_base as int,
                    at@,
                    at@.len(),
                    owner@,
                    indent as nat,
                ),
            ),
            (*old(dev)).reliable(),
        ),
{
    let ghost was = found@;
    let ghost disk = (*dev).disk();
    let mut i: usize = 0;
    proof {
        lemma_followed(was, was, was);
    }
    while i < at.len()
        invariant
            i <= at@.len(),
            indent < 0x1_0000,
            found.wf(),
            disk == (*old(dev)).disk(),
            (*dev).disk() == disk,
            (*dev).reliable() == (*old(dev)).reliable(),
            found@ == was.followed(
                furrow_tours(disk, tract_base as int, at@, i as nat, owner@, indent as nat),
            ),
        decreases at@.len() - i,
    {
        let ghost sofar = furrow_tours(
            disk,
            tract_base as int,
            at@,
            i as nat,
            owner@,
            indent as nat,
        );
        walk_furrow(dev, tract_base, at[i], owner, i as u64, indent, found)?;
        proof {
            lemma_followed(
                was,
                sofar,
                furrow_tour(
                    disk,
                    tract_base as int,
                    at@[i as int],
                    owner@,
                    i as u64,
                    indent as nat,
                ),
            );
        }
        i = i + 1;
    }
    Ok(())
}

proof fn lemma_tours_fail(
    disk: Seq<Seq<u8>>,
    base: int,
    children: Seq<(u8, Seq<u8>, u64)>,
    n: nat,
    m: nat,
    depth: nat,
    route: Seq<u8>,
)
    requires
        n <= m,
        depth < 52,
        tours(disk, base, children, n, depth, route) is Err,
    ensures
        tours(disk, base, children, m, depth, route) == tours(
            disk,
            base,
            children,
            n,
            depth,
            route,
        ),
    decreases m,
{
    if n < m {
        lemma_tours_fail(disk, base, children, n, (m - 1) as nat, depth, route);
    }
}

/// Walks the index from a pointer.
#[verifier::rlimit(60)]
fn walk_tree<D: BlockDev>(
    dev: &mut D,
    tract_base: u64,
    lba: u64,
    hash: &[u8; 32],
    depth: u8,
    route: [u8; 32],
    found: &mut Found,
) -> (r: Result<()>)
    requires
        old(found).wf(),
        depth <= 52,
    ensures
        final(found).wf(),
        (*final(dev)).disk() == (*old(dev)).disk(),
        (*final(dev)).reliable() == (*old(dev)).reliable(),
        toured(
            r,
            old(found)@,
            final(found)@,
            tour((*old(dev)).disk(), tract_base as int, lba, hash@, depth as nat, route@),
            (*old(dev)).reliable(),
        ),
    decreases 53 - depth,
{
    let ghost was = found@;
    let ghost disk = (*dev).disk();
    let ghost base = tract_base as int;
    let indent: usize = depth as usize;
    let count: u64 = dev.block_count();
    if tract_base >= count || lba >= count - tract_base {
        let mut s = "lba ".to_owned();
        push_dec(&mut s, lba);
        s.append(" out of device range");
        found.add(
            TreeNode {
                indent,
                lba,
                doc: TractBlock::Lone { key: zero32(), value_len: 0 },
                seal_ok: false,
                self_addr_ok: false,
                note: Some(s),
            },
            false,
            false,
            false,
        );
        assert(found@ =~= was.followed(
            tour(disk, base, lba, hash@, depth as nat, route@)->Ok_0,
        ));
        return Ok(());
    }
    let mut buf = zero_block();
    dev.read(tract_base + lba, &mut buf)?;
    found.reach(lba);
    let (seal, doc) = match decode_tract(&buf) {
        Err(reason) => {
            found.add(
                TreeNode {
                    indent,
                    lba,
                    doc: TractBlock::Lone { key: zero32(), value_len: 0 },
                    seal_ok: false,
                    self_addr_ok: false,
                    note: Some(reason),
                },
                false,
                false,
                false,
            );
            assert(found@ =~= was.followed(
                tour(disk, base, lba, hash@, depth as nat, route@)->Ok_0,
            ));
            return Ok(());
        },
        Ok(x) => x,
    };
    let seal_ok = same32(&seal, hash);
    let note = hash_words(&seal, hash);
    proof {
        lemma_decoded_slots(disk[base + lba]);
    }
    match &doc {
        TractBlock::Node { depth: d, children, .. } => {
            let self_addr_ok = *d == depth;
            let kids = copied_children(children);
            let ghost t = TreeView {
                indent: depth as nat,
                lba,
                doc: doc@,
                seal_ok,
                self_addr_ok,
                note: note_view(note),
            };
            let ghost kv = children_view(kids@);
            let ghost here = lone_tour(t, 1, 0);
            found.add(TreeNode { indent, lba, doc, seal_ok, self_addr_ok, note }, true, false, false);
            assert(found@ =~= was.followed(here));
            if kids.len() == 0 {
                return Ok(());
            }
            if depth >= 52 {
                return Err(corrupt_err("index deeper than its keys"));
            }
            let ghost start = found@;
            let mut i: usize = 0;
            proof {
                lemma_followed(start, start, start);
            }
            while i < kids.len()
                invariant
                    i <= kids@.len(),
                    depth < 52,
                    found.wf(),
                    base == tract_base,
                    disk == (*old(dev)).disk(),
                    (*dev).disk() == disk,
                    (*dev).reliable() == (*old(dev)).reliable(),
                    kv == children_view(kids@),
                    forall|j: int| 0 <= j < kv.len() ==> (#[trigger] kv[j]).0 < 32,
                    tours(disk, base, kv, i as nat, depth as nat, route@) matches Ok(x) && found@
                        == start.followed(x),
                    kids@.len() > 0,
                    start == was.followed(here),
                    was == old(found)@,
                    tour(disk, base, lba, hash@, depth as nat, route@) == (match tours(
                        disk,
                        base,
                        kv,
                        kv.len(),
                        depth as nat,
                        route@,
                    ) {
                        Err(e) => Err::<Tour, ErrorView>(e),
                        Ok(x) => Ok(here.followed(x)),
                    }),
                decreases kids@.len() - i,
            {
                let ghost sofar = tours(disk, base, kv, i as nat, depth as nat, route@)->Ok_0;
                let k: (u8, [u8; 32], u64) = kids[i];
                assert(kv[i as int] == (k.0, k.1@, k.2));
                let child_route = route_with_chunk(route, depth, k.0);
                match walk_tree(dev, tract_base, k.2, &k.1, depth + 1, child_route, found) {
                    Err(e) => {
                        proof {
                            if tours(
                                disk,
                                base,
                                kv,
                                (i + 1) as nat,
                                depth as nat,
                                route@,
                            ) is Err {
                                lemma_tours_fail(
                                    disk,
                                    base,
                                    kv,
                                    (i + 1) as nat,
                                    kv.len(),
                                    depth as nat,
                                    route@,
                                );
                            }
                        }
                        return Err(e);
                    },
                    Ok(()) => {},
                }
                proof {
                    let y = tour(
                        disk,
                        base,
                        k.2,
                        k.1@,
                        (depth + 1) as nat,
                        child_route@,
                    )->Ok_0;
                    lemma_followed(start, sofar, y);
                }
                i = i + 1;
            }
            proof {
                let all = tours(disk, base, kv, kv.len(), depth as nat, route@)->Ok_0;
                lemma_followed(was, here, all);
            }
            Ok(())
        },
        TractBlock::Lone { key, .. } => {
            let self_addr_ok = leads_here(key, &route, depth);
            found.add(TreeNode { indent, lba, doc, seal_ok, self_addr_ok, note }, false, true, false);
            assert(found@ =~= was.followed(
                tour(disk, base, lba, hash@, depth as nat, route@)->Ok_0,
            ));
            Ok(())
        },
        TractBlock::Direct { key, furrows, .. } => {
            let self_addr_ok = leads_here(key, &route, depth);
            let at = copied_list(furrows);
            let owner = *key;
            let ghost t = TreeView {
                indent: depth as nat,
                lba,
                doc: doc@,
                seal_ok,
                self_addr_ok,
                note: note_view(note),
            };
            let ghost here = lone_tour(t, 0, 1);
            found.add(TreeNode { indent, lba, doc, seal_ok, self_addr_ok, note }, false, true, false);
            assert(found@ =~= was.followed(here));
            walk_furrows(dev, tract_base, &at, &owner, indent + 1, found)?;
            proof {
                lemma_followed(
                    was,
                    here,
                    furrow_tours(disk, base, at@, at@.len(), owner@, (depth + 1) as nat),
                );
            }
            Ok(())
        },
        TractBlock::Extent { key, size, runs } => {
            let self_addr_ok = leads_here(key, &route, depth);
            let owner = *key;
            let at = match expand_runs(runs, *size) {
                Ok(at) => at,
                Err(_) => {
                    found.add(
                        TreeNode {
                            indent,
                            lba,
                            doc,
                            seal_ok,
                            self_addr_ok: false,
                            note: Some("extent runs do not fit its size".to_owned()),
                        },
                        false,
                        true,
                        false,
                    );
                    assert(found@ =~= was.followed(
                        tour(disk, base, lba, hash@, depth as nat, route@)->Ok_0,
                    ));
                    return Ok(());
                },
            };
            let ghost t = TreeView {
                indent: depth as nat,
                lba,
                doc: doc@,
                seal_ok,
                self_addr_ok,
                note: note_view(note),
            };
            let ghost here = lone_tour(t, 0, 1);
            found.add(TreeNode { indent, lba, doc, seal_ok, self_addr_ok, note }, false, true, false);
            assert(found@ =~= was.followed(here));
            walk_furrows(dev, tract_base, &at, &owner, indent + 1, found)?;
            proof {
                lemma_followed(
                    was,
                    here,
                    furrow_tours(disk, base, at@, at@.len(), owner@, (depth + 1) as nat),
                );
            }
            Ok(())
        },
        TractBlock::Furrow { .. } => {
            found.add(
                TreeNode {
                    indent,
                    lba,
                    doc,
                    seal_ok,
                    self_addr_ok: false,
                    note: Some("furrow block in index position".to_owned()),
                },
                false,
                false,
                false,
            );
            assert(found@ =~= was.followed(
                tour(disk, base, lba, hash@, depth as nat, route@)->Ok_0,
            ));
            Ok(())
        },
    }
}

// ---------------------------------------------------------------- the report

/// What a ring slot holds.
pub enum SlotKind {
    Valid(SpineEntry),
    Empty,
    Corrupt,
}

impl View for SlotKind {
    type V = ClassView;

    open spec fn view(&self) -> ClassView {
        match self {
            SlotKind::Valid(e) => ClassView::Valid(e@),
            SlotKind::Empty => ClassView::Empty,
            SlotKind::Corrupt => ClassView::Corrupt,
        }
    }
}

/// The view of the slots.
pub open spec fn slots_view(v: Seq<(u64, SlotKind)>) -> Seq<(u64, ClassView)> {
    Seq::new(v.len(), |i: int| (v[i].0, v[i].1@))
}

/// One check, passed or failed.
pub struct Check {
    pub name: String,
    pub pass: bool,
    pub detail: String,
}

/// The mathematical view of a check.
pub struct CheckView {
    pub name: Seq<char>,
    pub pass: bool,
    pub detail: Seq<char>,
}

impl View for Check {
    type V = CheckView;

    open spec fn view(&self) -> CheckView {
        CheckView { name: self.name@, pass: self.pass, detail: self.detail@ }
    }
}

/// The view of the checks.
pub open spec fn checks_view(v: Seq<Check>) -> Seq<CheckView> {
    Seq::new(v.len(), |i: int| v[i]@)
}

/// The inspection of one device.
pub struct InspectReport {
    pub file_blocks: u64,
    pub block_aligned: bool,
    pub ring_log2: u8,
    pub ring_n: u64,
    pub tract_base: u64,
    pub tract_blocks_field: Option<u64>,
    /// What each ring slot holds.
    pub slots: Vec<(u64, SlotKind)>,
    pub head: Option<(u64, SpineEntry)>,
    /// The links of the hash chain, newest first: a generation, and whether its entry names its
    /// parent's hash.
    pub chain: Vec<(u64, bool)>,
    pub tree: Vec<TreeNode>,
    pub reachable_nodes: usize,
    pub reachable_leaves: usize,
    pub reachable_furrows: usize,
    pub reachable_blocks: usize,
    pub orphans: Option<Vec<u64>>,
    pub checks: Vec<Check>,
}

/// The mathematical view of an inspection.
#[verifier::ext_equal]
pub struct ReportView {
    pub file_blocks: u64,
    pub block_aligned: bool,
    pub ring_log2: u8,
    pub ring_n: u64,
    pub tract_base: u64,
    pub tract_blocks_field: Option<u64>,
    pub slots: Seq<(u64, ClassView)>,
    pub head: Option<(u64, SpineView)>,
    pub chain: Seq<(u64, bool)>,
    pub tree: Seq<TreeView>,
    pub nodes: nat,
    pub leaves: nat,
    pub furrows: nat,
    pub reachable: nat,
    pub orphans: Option<Seq<u64>>,
    pub checks: Seq<CheckView>,
}

/// The view of the orphans.
pub open spec fn orphans_view(v: Option<Vec<u64>>) -> Option<Seq<u64>> {
    match v {
        Some(x) => Some(x@),
        None => None,
    }
}

impl View for InspectReport {
    type V = ReportView;

    open spec fn view(&self) -> ReportView {
        ReportView {
            file_blocks: self.file_blocks,
            block_aligned: self.block_aligned,
            ring_log2: self.ring_log2,
            ring_n: self.ring_n,
            tract_base: self.tract_base,
            tract_blocks_field: self.tract_blocks_field,
            slots: slots_view(self.slots@),
            head: ring::head_view(self.head),
            chain: self.chain@,
            tree: tree_view(self.tree@),
            nodes: self.reachable_nodes as nat,
            leaves: self.reachable_leaves as nat,
            furrows: self.reachable_furrows as nat,
            reachable: self.reachable_blocks as nat,
            orphans: orphans_view(self.orphans),
            checks: checks_view(self.checks@),
        }
    }
}

/// The ring exponent that a disk's low slots declare, or the hosts' where they declare none.
pub open spec fn ring_on(disk: Seq<Seq<u8>>) -> u8 {
    if exists|x: u8| ring::boots(disk, x) {
        choose|x: u8| ring::boots(disk, x)
    } else {
        HOST_RING_LOG2
    }
}

/// What the slots of a disk's ring hold, as far as the disk goes.
pub open spec fn slots_on(disk: Seq<Seq<u8>>, ring: u8) -> Seq<(u64, ClassView)> {
    let n = pow2(ring as nat);
    Seq::new(
        if n < disk.len() {
            n
        } else {
            disk.len()
        },
        |i: int| (i as u64, ring::class_at(disk, 0, ring, i)),
    )
}

/// The hash chain from generation `gen`, whose entry names `prev`, down to genesis or to where the
/// ring no longer has the parent.
pub open spec fn chain_on(disk: Seq<Seq<u8>>, ring: u8, gen: u64, prev: Seq<u8>) -> Seq<(u64, bool)>
    decreases gen,
{
    if gen == 0 {
        seq![(0u64, prev == block::zeros32())]
    } else {
        let p = (gen - 1) as u64;
        match ring::class_at(disk, 0, ring, p as int % (pow2(ring as nat) as int)) {
            ClassView::Valid(e) => if e.gen == p {
                seq![(gen, prev == spine::spine_hash(e))] + chain_on(disk, ring, p, e.prev)
            } else {
                seq![(gen, false)]
            },
            _ => seq![(gen, false)],
        }
    }
}

/// The hash chain of a disk's head.
pub open spec fn head_chain(disk: Seq<Seq<u8>>, ring: u8, head: Option<(u64, SpineView)>) -> Seq<
    (u64, bool),
> {
    match head {
        None => Seq::<(u64, bool)>::empty(),
        Some((_, e)) => chain_on(disk, ring, e.gen, e.prev),
    }
}

/// Whether `got` is the chain `whole` broken off at a link that could not be read.
pub open spec fn cut_short(whole: Seq<(u64, bool)>, got: Seq<(u64, bool)>) -> bool {
    &&& 0 < got.len() <= whole.len()
    &&& got == whole.take(got.len() - 1).push((whole[got.len() - 1].0, false))
}

/// The walk of the index that a head names.
pub open spec fn tree_on(
    disk: Seq<Seq<u8>>,
    base: int,
    head: Option<(u64, SpineView)>,
) -> core::result::Result<Tour, ErrorView> {
    match head {
        Some((_, e)) => if e.hamt != block::zeros32() {
            tour(disk, base, e.hamtat, e.hamt, 0, block::zeros32())
        } else {
            Ok(no_tour())
        },
        None => Ok(no_tour()),
    }
}

/// The sealed blocks among the first `n` of a tract that were not reached.
pub open spec fn orphans_on(disk: Seq<Seq<u8>>, base: int, n: nat, reached: Set<u64>) -> Seq<u64>
    decreases n,
{
    if n == 0 {
        Seq::<u64>::empty()
    } else {
        let x = (n - 1) as u64;
        if seal::hp_of(disk[base + n - 1]) is Some && !reached.contains(x) {
            orphans_on(disk, base, (n - 1) as nat, reached).push(x)
        } else {
            orphans_on(disk, base, (n - 1) as nat, reached)
        }
    }
}

/// How many blocks of a tract an orphan scan looks at: those the head names, or all there are.
pub open spec fn scanned(disk: Seq<Seq<u8>>, base: int, blocks: Option<u64>) -> nat {
    let end = match blocks {
        Some(n) => if base + n < disk.len() {
            base + n
        } else {
            disk.len() as int
        },
        None => disk.len() as int,
    };
    if base < end {
        (end - base) as nat
    } else {
        0
    }
}

// ---------------------------------------------------------------- the checks

/// How many slots hold damage.
pub open spec fn corrupt_slots(slots: Seq<(u64, ClassView)>) -> nat
    decreases slots.len(),
{
    if slots.len() == 0 {
        0
    } else {
        corrupt_slots(slots.drop_last()) + (if slots.last().1 is Corrupt {
            1nat
        } else {
            0nat
        })
    }
}

/// How many links of the ring's first lap, of `n` generations, are broken. Later on a parent may have
/// been lapped out, and a link that cannot be followed is no failure.
pub open spec fn broken_links(chain: Seq<(u64, bool)>, n: nat) -> nat
    decreases chain.len(),
{
    if chain.len() == 0 {
        0
    } else {
        broken_links(chain.drop_last(), n) + (if !chain.last().1 && chain.last().0 < n {
            1nat
        } else {
            0nat
        })
    }
}

/// How many blocks of the tree are not sealed as expected, or not where they belong.
pub open spec fn bad_blocks(tree: Seq<TreeView>) -> nat
    decreases tree.len(),
{
    if tree.len() == 0 {
        0
    } else {
        bad_blocks(tree.drop_last()) + (if !tree.last().seal_ok || !tree.last().self_addr_ok {
            1nat
        } else {
            0nat
        })
    }
}

pub open spec fn slots_check(slots: Seq<(u64, ClassView)>) -> CheckView {
    let bad = corrupt_slots(slots);
    CheckView {
        name: "spine slots seal + congruent"@,
        pass: bad == 0,
        detail: if bad == 0 {
            "all non-empty slots are Valid"@
        } else {
            text::dec(bad) + " corrupt/misplaced slot(s)"@
        },
    }
}

pub open spec fn head_check(head: Option<(u64, SpineView)>) -> CheckView {
    CheckView {
        name: "head found"@,
        pass: head is Some,
        detail: match head {
            Some((s, e)) => "gen "@ + text::dec(e.gen as nat) + " at slot "@ + text::dec(s as nat),
            None => "no valid spine entry"@,
        },
    }
}

pub open spec fn chain_check(chain: Seq<(u64, bool)>, n: nat) -> CheckView {
    let bad = broken_links(chain, n);
    CheckView {
        name: "hash chain intact"@,
        pass: bad == 0,
        detail: if chain.len() == 0 {
            "no chain (no head)"@
        } else if bad == 0 {
            text::dec(chain.len()) + " link(s) verified to genesis/lap horizon"@
        } else {
            text::dec(bad) + " broken link(s) within the ring window"@
        },
    }
}

pub open spec fn root_check(e: SpineView, tree: Seq<TreeView>) -> CheckView {
    if e.hamt == block::zeros32() {
        CheckView {
            name: "merkle root"@,
            pass: true,
            detail: "empty index (genesis convention)"@,
        }
    } else {
        let ok = tree.len() > 0 && tree[0].seal_ok;
        CheckView {
            name: "merkle root resolves"@,
            pass: ok,
            detail: if ok {
                "root @ tract lba "@ + text::dec(e.hamtat as nat) + " seals to head.hamt"@
            } else {
                "root block missing / unsealed / hash mismatch"@
            },
        }
    }
}

pub open spec fn tree_check(tree: Seq<TreeView>) -> CheckView {
    let bad = bad_blocks(tree);
    CheckView {
        name: "HAMT blocks seal + self-address"@,
        pass: bad == 0,
        detail: if tree.len() == 0 {
            "empty tree"@
        } else if bad == 0 {
            text::dec(tree.len()) + " block(s) all sound"@
        } else {
            text::dec(bad) + " block(s) failed seal/self-address"@
        },
    }
}

pub open spec fn live_check(e: SpineView, reachable: nat) -> CheckView {
    CheckView {
        name: "live count matches commit"@,
        pass: reachable == e.live,
        detail: "reachable "@ + text::dec(reachable) + " vs head.live "@ + text::dec(e.live as nat),
    }
}

/// The checks of an inspection, in order.
pub open spec fn checks_of(
    slots: Seq<(u64, ClassView)>,
    ring: u8,
    head: Option<(u64, SpineView)>,
    chain: Seq<(u64, bool)>,
    tree: Seq<TreeView>,
    reachable: nat,
) -> Seq<CheckView> {
    let a = seq![
        slots_check(slots),
        head_check(head),
        chain_check(chain, pow2(ring as nat)),
    ];
    match head {
        Some((_, e)) => a.push(root_check(e, tree)).push(tree_check(tree)).push(
            live_check(e, reachable),
        ),
        None => a.push(tree_check(tree)),
    }
}

fn counted(n: u64, words: &str) -> (s: String)
    ensures
        s@ == text::dec(n as nat) + words@,
{
    let mut s = text::dec_text(n);
    s.append(words);
    s
}

fn check_slots(slots: &Vec<(u64, SlotKind)>) -> (c: Check)
    ensures
        c@ == slots_check(slots_view(slots@)),
{
    let ghost v = slots_view(slots@);
    let mut bad: u64 = 0;
    let mut i: usize = 0;
    assert(v.take(0) =~= Seq::<(u64, ClassView)>::empty());
    while i < slots.len()
        invariant
            i <= slots@.len(),
            v == slots_view(slots@),
            bad == corrupt_slots(v.take(i as int)),
            bad <= i,
        decreases slots@.len() - i,
    {
        assert(v.take(i + 1).drop_last() =~= v.take(i as int));
        assert(v.take(i + 1).last() == v[i as int]);
        if let SlotKind::Corrupt = &slots[i].1 {
            bad = bad + 1;
        }
        i = i + 1;
    }
    assert(v.take(i as int) =~= v);
    let detail = if bad == 0 {
        "all non-empty slots are Valid".to_owned()
    } else {
        counted(bad, " corrupt/misplaced slot(s)")
    };
    Check { name: "spine slots seal + congruent".to_owned(), pass: bad == 0, detail }
}

fn check_head(head: &Option<(u64, SpineEntry)>) -> (c: Check)
    ensures
        c@ == head_check(ring::head_view(*head)),
{
    let detail = match head {
        Some(x) => {
            let mut s = "gen ".to_owned();
            push_dec(&mut s, x.1.gen);
            s.append(" at slot ");
            push_dec(&mut s, x.0);
            s
        },
        None => "no valid spine entry".to_owned(),
    };
    Check { name: "head found".to_owned(), pass: head.is_some(), detail }
}

fn check_chain(chain: &Vec<(u64, bool)>, n: u64) -> (c: Check)
    ensures
        c@ == chain_check(chain@, n as nat),
{
    let ghost v = chain@;
    let mut bad: u64 = 0;
    let mut i: usize = 0;
    assert(v.take(0) =~= Seq::<(u64, bool)>::empty());
    while i < chain.len()
        invariant
            i <= chain@.len(),
            v == chain@,
            bad == broken_links(v.take(i as int), n as nat),
            bad <= i,
        decreases chain@.len() - i,
    {
        assert(v.take(i + 1).drop_last() =~= v.take(i as int));
        assert(v.take(i + 1).last() == v[i as int]);
        let link: (u64, bool) = chain[i];
        if !link.1 && link.0 < n {
            bad = bad + 1;
        }
        i = i + 1;
    }
    assert(v.take(i as int) =~= v);
    let detail = if chain.len() == 0 {
        "no chain (no head)".to_owned()
    } else if bad == 0 {
        counted(chain.len() as u64, " link(s) verified to genesis/lap horizon")
    } else {
        counted(bad, " broken link(s) within the ring window")
    };
    Check { name: "hash chain intact".to_owned(), pass: bad == 0, detail }
}

fn check_root(e: &SpineEntry, tree: &Vec<TreeNode>) -> (c: Check)
    ensures
        c@ == root_check(e@, tree_view(tree@)),
{
    if same32(&e.hamt_hash, &zero32()) {
        return Check {
            name: "merkle root".to_owned(),
            pass: true,
            detail: "empty index (genesis convention)".to_owned(),
        };
    }
    let ok = tree.len() > 0 && tree[0].seal_ok;
    let detail = if ok {
        let mut s = "root @ tract lba ".to_owned();
        push_dec(&mut s, e.hamt_lba);
        s.append(" seals to head.hamt");
        s
    } else {
        "root block missing / unsealed / hash mismatch".to_owned()
    };
    Check { name: "merkle root resolves".to_owned(), pass: ok, detail }
}

fn check_tree(tree: &Vec<TreeNode>) -> (c: Check)
    ensures
        c@ == tree_check(tree_view(tree@)),
{
    let ghost v = tree_view(tree@);
    let mut bad: u64 = 0;
    let mut i: usize = 0;
    assert(v.take(0) =~= Seq::<TreeView>::empty());
    while i < tree.len()
        invariant
            i <= tree@.len(),
            v == tree_view(tree@),
            bad == bad_blocks(v.take(i as int)),
            bad <= i,
        decreases tree@.len() - i,
    {
        assert(v.take(i + 1).drop_last() =~= v.take(i as int));
        assert(v.take(i + 1).last() == v[i as int]);
        if !tree[i].seal_ok || !tree[i].self_addr_ok {
            bad = bad + 1;
        }
        i = i + 1;
    }
    assert(v.take(i as int) =~= v);
    let detail = if tree.len() == 0 {
        "empty tree".to_owned()
    } else if bad == 0 {
        counted(tree.len() as u64, " block(s) all sound")
    } else {
        counted(bad, " block(s) failed seal/self-address")
    };
    Check { name: "HAMT blocks seal + self-address".to_owned(), pass: bad == 0, detail }
}

fn check_live(e: &SpineEntry, reachable: usize) -> (c: Check)
    ensures
        c@ == live_check(e@, reachable as nat),
{
    let mut s = "reachable ".to_owned();
    push_dec(&mut s, reachable as u64);
    s.append(" vs head.live ");
    push_dec(&mut s, e.live);
    Check {
        name: "live count matches commit".to_owned(),
        pass: reachable as u64 == e.live,
        detail: s,
    }
}

fn build_checks(
    slots: &Vec<(u64, SlotKind)>,
    ring_log2: u8,
    head: &Option<(u64, SpineEntry)>,
    chain: &Vec<(u64, bool)>,
    tree: &Vec<TreeNode>,
    reachable: usize,
) -> (r: Vec<Check>)
    requires
        ring_log2 < 64,
    ensures
        checks_view(r@) == checks_of(
            slots_view(slots@),
            ring_log2,
            ring::head_view(*head),
            chain@,
            tree_view(tree@),
            reachable as nat,
        ),
{
    let mut r: Vec<Check> = Vec::new();
    r.push(check_slots(slots));
    r.push(check_head(head));
    let n: u64 = slot_count(ring_log2);
    r.push(check_chain(chain, n));
    if let Some(x) = head {
        r.push(check_root(&x.1, tree));
    }
    r.push(check_tree(tree));
    if let Some(x) = head {
        r.push(check_live(&x.1, reachable));
    }
    assert(checks_view(r@) =~= checks_of(
        slots_view(slots@),
        ring_log2,
        ring::head_view(*head),
        chain@,
        tree_view(tree@),
        reachable as nat,
    ));
    r
}

impl InspectReport {
    /// Whether a report can be shown: its head names a ring that has a size, and the lines of its tree
    /// have lengths.
    pub open spec fn showable(&self) -> bool {
        &&& self@.head matches Some((_, e)) ==> e.ring < 64
        &&& forall|i: int|
            0 <= i < self.tree@.len() ==> 2 * ((#[trigger] self.tree@[i]).indent + 1) <= usize::MAX
    }

    /// Whether every check passed.
    pub fn all_checks_pass(&self) -> (r: bool)
        ensures
            r == (forall|i: int| 0 <= i < self@.checks.len() ==> (#[trigger] self@.checks[i]).pass),
    {
        let mut i: usize = 0;
        while i < self.checks.len()
            invariant
                i <= self.checks@.len(),
                forall|j: int| 0 <= j < i ==> (#[trigger] self@.checks[j]).pass,
            decreases self.checks@.len() - i,
        {
            if !self.checks[i].pass {
                assert(!self@.checks[i as int].pass);
                return false;
            }
            i = i + 1;
        }
        true
    }
}

// ---------------------------------------------------------------- the inspection

/// The inspection of a disk, given its hash chain as read.
pub open spec fn report_on(disk: Seq<Seq<u8>>, opts: InspectOptions, chain: Seq<(u64, bool)>) -> core::result::Result<
    ReportView,
    ErrorView,
> {
    let ring = ring_on(disk);
    let n = pow2(ring as nat);
    let head = replicate::best(disk, 0, ring, n);
    let blocks = match head {
        Some((_, e)) => Some(e.tract),
        None => None,
    };
    let slots = slots_on(disk, ring);
    match tree_on(disk, n as int, head) {
        Err(e) => Err(e),
        Ok(t) => Ok(
            ReportView {
                file_blocks: disk.len() as u64,
                block_aligned: true,
                ring_log2: ring,
                ring_n: n as u64,
                tract_base: n as u64,
                tract_blocks_field: blocks,
                slots,
                head,
                chain,
                tree: t.tree,
                nodes: t.nodes,
                leaves: t.leaves,
                furrows: t.furrows,
                reachable: t.reached.len(),
                orphans: if opts.orphan_scan {
                    Some(
                        orphans_on(
                            disk,
                            n as int,
                            scanned(disk, n as int, blocks),
                            t.reached,
                        ),
                    )
                } else {
                    None
                },
                checks: checks_of(slots, ring, head, chain, t.tree, t.reached.len()),
            },
        ),
    }
}

/// The ring exponent that the low slots declare.
fn discover_ring_log2<D: BlockDev>(dev: &mut D) -> (r: Result<Option<u8>>)
    ensures
        (*final(dev)).disk() == (*old(dev)).disk(),
        (*final(dev)).reliable() == (*old(dev)).reliable(),
        match r {
            Ok(Some(x)) => ring::boots((*old(dev)).disk(), x) && 0 < x <= 32,
            Ok(None) => forall|x: u8| !ring::boots((*old(dev)).disk(), x),
            Err(e) => block::device_error(e@),
        },
        (*old(dev)).reliable() ==> r is Ok,
{
    let ghost d = (*dev).disk();
    let mut buf = zero_block();
    let count: u64 = dev.block_count();
    let probe: u64 = if count < 16 {
        count
    } else {
        16
    };
    let mut slot: u64 = 0;
    while slot < probe
        invariant
            slot <= probe,
            probe <= 16,
            probe == 16 || probe == d.len(),
            probe <= d.len(),
            d == (*old(dev)).disk(),
            (*dev).disk() == d,
            (*dev).reliable() == (*old(dev)).reliable(),
            forall|t: int|
                0 <= t < slot ==> !(spine::boot_class(#[trigger] d[t], t as u64) is Valid),
        decreases probe - slot,
    {
        dev.read(slot, &mut buf)?;
        if let Classified::Valid(e) = boot_classify(&buf, slot) {
            proof {
                spine::lemma_spine_ring(d[slot as int]);
                assert(ring::boots_at(d, slot as int, e.ring_log2));
            }
            return Ok(Some(e.ring_log2));
        }
        slot = slot + 1;
    }
    Ok(None)
}

/// What every slot of the ring holds, and the newest entry among them.
fn read_slots<D: BlockDev>(dev: &mut D, ring_log2: u8) -> (r: Result<
    (Vec<(u64, SlotKind)>, Option<(u64, SpineEntry)>),
>)
    requires
        ring_log2 < 64,
    ensures
        (*final(dev)).disk() == (*old(dev)).disk(),
        (*final(dev)).reliable() == (*old(dev)).reliable(),
        r matches Ok((slots, head)) ==> slots_view(slots@) == slots_on(
            (*old(dev)).disk(),
            ring_log2,
        ) && ring::head_view(head) == replicate::best(
            (*old(dev)).disk(),
            0,
            ring_log2,
            pow2(ring_log2 as nat),
        ),
        r matches Err(e) ==> block::device_error(e@),
        (*old(dev)).reliable() ==> r is Ok,
{
    let ghost d = (*dev).disk();
    let n: u64 = slot_count(ring_log2);
    let count: u64 = dev.block_count();
    let end: u64 = if n < count {
        n
    } else {
        count
    };
    let mut slots: Vec<(u64, SlotKind)> = Vec::new();
    let mut head: Option<(u64, SpineEntry)> = None;
    let mut buf = zero_block();
    let mut slot: u64 = 0;
    let ghost whole = slots_on(d, ring_log2);
    assert(slots_view(slots@) =~= whole.take(0));
    while slot < end
        invariant
            slot <= end,
            end <= n,
            end <= d.len(),
            whole == slots_on(d, ring_log2),
            whole.len() == end,
            d == (*old(dev)).disk(),
            (*dev).disk() == d,
            (*dev).reliable() == (*old(dev)).reliable(),
            slots_view(slots@) == whole.take(slot as int),
            ring::head_view(head) == replicate::best(d, 0, ring_log2, slot as nat),
        decreases end - slot,
    {
        dev.read(slot, &mut buf)?;
        let ghost before = slots_view(slots@);
        let kind = match classify(&buf, slot, Some(ring_log2)) {
            Classified::Valid(e) => {
                let newer = match &head {
                    Some(x) => e.gen > x.1.gen,
                    None => true,
                };
                if newer {
                    head = Some((slot, e));
                }
                SlotKind::Valid(e)
            },
            Classified::Empty => SlotKind::Empty,
            Classified::Corrupt => SlotKind::Corrupt,
        };
        let ghost kv = kind@;
        slots.push((slot, kind));
        proof {
            assert(slots_view(slots@) =~= before.push((slot, kv)));
            assert(whole[slot as int] == (slot, kv));
            assert(whole.take(slot + 1) =~= whole.take(slot as int).push(whole[slot as int]));
        }
        slot = slot + 1;
    }
    proof {
        assert(whole.take(slot as int) =~= whole);
        if end < n {
            replicate::lemma_best_short(d, 0, ring_log2, end as nat, n as nat);
        }
    }
    Ok((slots, head))
}

/// Follows the hash chain from the head: each entry must name its parent's hash, genesis none. A
/// parent that a later lap took, or that cannot be read, ends the chain.
fn walk_chain<D: BlockDev>(dev: &mut D, ring_log2: u8, head: &Option<(u64, SpineEntry)>) -> (r: Vec<
    (u64, bool),
>)
    requires
        ring_log2 < 64,
    ensures
        (*final(dev)).disk() == (*old(dev)).disk(),
        (*final(dev)).reliable() == (*old(dev)).reliable(),
        ({
            let whole = head_chain((*old(dev)).disk(), ring_log2, ring::head_view(*head));
            r@ == whole || (!(*old(dev)).reliable() && cut_short(whole, r@))
        }),
{
    let mut out: Vec<(u64, bool)> = Vec::new();
    let (top, first_prev) = match head {
        None => return out,
        Some(x) => (x.1.gen, x.1.prev_hash),
    };
    let ghost d = (*dev).disk();
    let ghost whole = chain_on(d, ring_log2, top, first_prev@);
    let n: u64 = slot_count(ring_log2);
    let zero = zero32();
    let mut buf = zero_block();
    let mut gen: u64 = top;
    let mut prev = first_prev;
    assert(out@ + whole =~= whole);
    while gen > 0
        invariant
            n == pow2(ring_log2 as nat),
            n > 0,
            ring_log2 < 64,
            d == (*old(dev)).disk(),
            (*dev).disk() == d,
            (*dev).reliable() == (*old(dev)).reliable(),
            out@ + chain_on(d, ring_log2, gen, prev@) == whole,
            whole == head_chain((*old(dev)).disk(), ring_log2, ring::head_view(*head)),
        decreases gen,
    {
        let ghost rest = chain_on(d, ring_log2, gen, prev@);
        let ghost before = out@;
        let parent: u64 = gen - 1;
        let slot: u64 = parent % n;
        let read = dev.read(slot, &mut buf);
        if read.is_err() {
            out.push((gen, false));
            proof {
                assert(rest[0].0 == gen);
                if slot >= d.len() {
                    assert(rest =~= seq![(gen, false)]);
                    assert(out@ =~= whole);
                } else {
                    assert(whole[before.len() as int] == rest[0]);
                    assert(out@ =~= whole.take(out@.len() - 1).push(
                        (whole[out@.len() - 1].0, false),
                    ));
                    assert(cut_short(whole, out@));
                }
            }
            return out;
        }
        match classify(&buf, slot, Some(ring_log2)) {
            Classified::Valid(e) => {
                if e.gen != parent {
                    out.push((gen, false));
                    assert(rest =~= seq![(gen, false)]);
                    assert(out@ =~= whole);
                    return out;
                }
                let ok = same32(&prev, &e.body_hash());
                out.push((gen, ok));
                assert(out@ + chain_on(d, ring_log2, parent, e@.prev) =~= before + rest);
                prev = e.prev_hash;
                gen = parent;
            },
            _ => {
                out.push((gen, false));
                assert(rest =~= seq![(gen, false)]);
                assert(out@ =~= whole);
                return out;
            },
        }
    }
    out.push((0, same32(&prev, &zero)));
    assert(out@ =~= whole);
    out
}

/// Looks through a tract for sealed blocks that were not reached: old generations that the fence
/// still holds, and what awaits the plow.
fn scan_orphans<D: BlockDev>(
    dev: &mut D,
    tract_base: u64,
    tract_blocks: Option<u64>,
    reached: &BTreeSet<u64>,
) -> (r: Result<Vec<u64>>)
    ensures
        (*final(dev)).disk() == (*old(dev)).disk(),
        (*final(dev)).reliable() == (*old(dev)).reliable(),
        r matches Ok(v) ==> v@ == orphans_on(
            (*old(dev)).disk(),
            tract_base as int,
            scanned((*old(dev)).disk(), tract_base as int, tract_blocks),
            reached@,
        ),
        r matches Ok(v) ==> forall|x: u64| #[trigger]
            v@.contains(x) <==> {
                &&& tract_base + x < (*old(dev)).disk().len()
                &&& tract_blocks matches Some(n) ==> x < n
                &&& seal::seal_of((*old(dev)).disk()[tract_base + x]) is Some
                &&& !reached@.contains(x)
            },
        r matches Err(e) ==> block::device_error(e@),
        (*old(dev)).reliable() ==> r is Ok,
{
    let ghost d = (*dev).disk();
    let count: u64 = dev.block_count();
    let mut out: Vec<u64> = Vec::new();
    if tract_base >= count {
        return Ok(out);
    }
    let room: u64 = count - tract_base;
    let n: u64 = match tract_blocks {
        Some(x) => if x < room {
            x
        } else {
            room
        },
        None => room,
    };
    let mut buf = zero_block();
    let mut i: u64 = 0;
    while i < n
        invariant
            i <= n,
            tract_base + n <= d.len(),
            d.len() <= u64::MAX,
            d == (*old(dev)).disk(),
            (*dev).disk() == d,
            (*dev).reliable() == (*old(dev)).reliable(),
            out@ == orphans_on(d, tract_base as int, i as nat, reached@),
        decreases n - i,
    {
        dev.read(tract_base + i, &mut buf)?;
        if block_is_sealed(&buf) && !reached.contains(&i) {
            out.push(i);
        }
        i = i + 1;
    }
    proof {
        findings::law_scan_lists_what_was_not_reached(d, tract_base as int, n as nat, reached@);
    }
    Ok(out)
}

/// Inspects one device. The options say what to look at; the report can then be rendered.
pub fn inspect<D: BlockDev>(dev: &mut D, opts: InspectOptions) -> (r: Result<InspectReport>)
    ensures
        (*final(dev)).disk() == (*old(dev)).disk(),
        (*final(dev)).reliable() == (*old(dev)).reliable(),
        match r {
            Ok(rep) => {
                let whole = head_chain((*old(dev)).disk(), ring_on((*old(dev)).disk()), rep@.head);
                &&& report_on((*old(dev)).disk(), opts, rep@.chain) == Ok::<ReportView, ErrorView>(
                    rep@,
                )
                &&& rep@.chain == whole || (!(*old(dev)).reliable() && cut_short(whole, rep@.chain))
                &&& rep.showable()
                &&& rep@.orphans is Some == opts.orphan_scan
                &&& rep@.orphans matches Some(o) ==> forall|x: u64| #[trigger]
                    o.contains(x) <==> {
                        &&& rep@.tract_base + x < (*old(dev)).disk().len()
                        &&& rep@.head matches Some((_, e)) ==> x < e.tract
                        &&& seal::seal_of((*old(dev)).disk()[rep@.tract_base + x]) is Some
                        &&& !tree_on(
                            (*old(dev)).disk(),
                            rep@.tract_base as int,
                            rep@.head,
                        )->Ok_0.reached.contains(x)
                    }
            },
            Err(e) => report_on(
                (*old(dev)).disk(),
                opts,
                Seq::<(u64, bool)>::empty(),
            ) == Err::<ReportView, ErrorView>(e@) || (block::device_error(e@) && !(*old(
                dev,
            )).reliable()),
        },
{
    let ghost d = (*dev).disk();
    let file_blocks: u64 = dev.block_count();
    let declared = discover_ring_log2(dev)?;
    let ring_log2: u8 = match declared {
        Some(x) => x,
        None => HOST_RING_LOG2,
    };
    proof {
        if let Some(x) = declared {
            let y = ring_on(d);
            assert(ring::boots(d, x));
            assert(ring::boots(d, y));
            mooring::lemma_one_boot(d, x, y);
        }
        assert(ring_log2 == ring_on(d));
    }
    let ring_n: u64 = slot_count(ring_log2);
    let (slots, head) = read_slots(dev, ring_log2)?;
    let tract_blocks_field = match &head {
        Some(x) => Some(x.1.tract_blocks),
        None => None,
    };
    let chain = walk_chain(dev, ring_log2, &head);
    let mut found = Found::new();
    proof {
        lemma_followed(no_tour(), no_tour(), no_tour());
    }
    let zero = zero32();
    if let Some(x) = &head {
        if !same32(&x.1.hamt_hash, &zero) {
            walk_tree(dev, ring_n, x.1.hamt_lba, &x.1.hamt_hash, 0, zero, &mut found)?;
            proof {
                lemma_followed(
                    tree_on(d, ring_n as int, ring::head_view(head))->Ok_0,
                    no_tour(),
                    no_tour(),
                );
            }
        }
    }
    let reachable: usize = found.reached.len();
    let orphans = if opts.orphan_scan {
        Some(scan_orphans(dev, ring_n, tract_blocks_field, &found.reached)?)
    } else {
        None
    };
    let checks = build_checks(&slots, ring_log2, &head, &chain, &found.tree, reachable);
    proof {
        if let Some((s, e)) = ring::head_view(head) {
            replicate::lemma_best_newest(d, 0, ring_log2, ring_n as nat);
            assert(ring::class_at(d, 0, ring_log2, s as int) == ClassView::Valid(e));
        }
    }
    let rep = InspectReport {
        file_blocks,
        block_aligned: true,
        ring_log2,
        ring_n,
        tract_base: ring_n,
        tract_blocks_field,
        slots,
        head,
        chain,
        tree: found.tree,
        reachable_nodes: found.nodes,
        reachable_leaves: found.leaves,
        reachable_furrows: found.furrows,
        reachable_blocks: reachable,
        orphans,
        checks,
    };
    assert(rep@ =~= report_on(d, opts, rep@.chain)->Ok_0);
    Ok(rep)
}

// ---------------------------------------------------------------- two sides of a mirror

/// How the heads of two devices stand to each other.
#[derive(Debug, Clone, Copy, PartialEq, Eq, Structural)]
pub enum Convergence {
    /// Both are at this generation, with the same index.
    Converged(u64),
    /// Both are at this generation, with different indexes.
    Split(u64),
    /// One is newer: whether it is the first, its generation, and the other's.
    Behind { first_newer: bool, newer: u64, older: u64 },
    /// One of them has no head.
    NoHead,
}

/// How two heads, by generation and index hash, stand to each other.
pub open spec fn convergence(a: Option<(u64, Seq<u8>)>, b: Option<(u64, Seq<u8>)>) -> Convergence {
    match (a, b) {
        (Some(x), Some(y)) => if x.0 == y.0 {
            if x.1 == y.1 {
                Convergence::Converged(x.0)
            } else {
                Convergence::Split(x.0)
            }
        } else if x.0 > y.0 {
            Convergence::Behind { first_newer: true, newer: x.0, older: y.0 }
        } else {
            Convergence::Behind { first_newer: false, newer: y.0, older: x.0 }
        },
        _ => Convergence::NoHead,
    }
}

/// The generation and index hash of a report's head.
pub open spec fn head_of(v: ReportView) -> Option<(u64, Seq<u8>)> {
    match v.head {
        Some((_, e)) => Some((e.gen, e.hamt)),
        None => None,
    }
}

/// Compares the heads of two reports.
pub fn compare_heads(a: &InspectReport, b: &InspectReport) -> (c: Convergence)
    ensures
        c == convergence(head_of(a@), head_of(b@)),
{
    match (&a.head, &b.head) {
        (Some(x), Some(y)) => {
            if x.1.gen == y.1.gen {
                if same32(&x.1.hamt_hash, &y.1.hamt_hash) {
                    Convergence::Converged(x.1.gen)
                } else {
                    Convergence::Split(x.1.gen)
                }
            } else if x.1.gen > y.1.gen {
                Convergence::Behind { first_newer: true, newer: x.1.gen, older: y.1.gen }
            } else {
                Convergence::Behind { first_newer: false, newer: y.1.gen, older: x.1.gen }
            }
        },
        _ => Convergence::NoHead,
    }
}

// ---------------------------------------------------------------- laws

/// A node's children from slot `s` on, one by one.
pub open spec fn listed(kids: Seq<Option<ChildView>>, s: nat) -> Seq<(u8, Seq<u8>, u64)>
    decreases 32 - s,
{
    if s >= 32 {
        Seq::<(u8, Seq<u8>, u64)>::empty()
    } else {
        (match kids[s as int] {
            Some(ChildView::At { hash, lba }) => seq![(s as u8, hash, lba)],
            _ => Seq::<(u8, Seq<u8>, u64)>::empty(),
        }) + listed(kids, s + 1)
    }
}

/// What the inspector should see in a document of the engine.
pub open spec fn audited(d: DocView) -> BlockView {
    match d {
        DocView::Node(n) => BlockView::Node {
            depth: n.depth,
            route: n.route,
            children: listed(n.kids, 0),
        },
        DocView::Lone { key, value } => BlockView::Lone { key, value_len: value.len() },
        DocView::Direct { key, size, furrows } => BlockView::Direct { key, size, furrows },
        DocView::Furrow { key, index, payload } => BlockView::Furrow {
            key,
            index,
            payload_len: payload.len(),
        },
        DocView::Extent { key, size, runs } => BlockView::Extent { key, size, runs },
    }
}

proof fn lemma_listed(
    m: nat,
    s: nat,
    hs: Seq<Seq<u8>>,
    ls: Seq<u64>,
    kids: Seq<Option<ChildView>>,
)
    requires
        s <= 32,
        kids.len() == 32,
        kids.skip(s as int) == doc::spread(m, (32 - s) as nat, hs, ls),
    ensures
        listed(kids, s) == present(m, s, hs, ls),
    decreases 32 - s,
{
    if s < 32 {
        let rest = kids.skip(s as int);
        assert(rest[0] == kids[s as int]);
        assert(kids.skip(s as int + 1) =~= rest.skip(1));
        if m % 2 == 1 {
            let tail = doc::spread(m / 2, (31 - s) as nat, hs.skip(1), ls.skip(1));
            assert(rest.skip(1) =~= tail);
            lemma_listed(m / 2, s + 1, hs.skip(1), ls.skip(1), kids);
        } else {
            let tail = doc::spread(m / 2, (31 - s) as nat, hs, ls);
            assert(rest.skip(1) =~= tail);
            lemma_listed(m / 2, s + 1, hs, ls, kids);
            assert(listed(kids, s) =~= listed(kids, s + 1));
        }
    }
}

proof fn lemma_spread_len(m: nat, n: nat, hs: Seq<Seq<u8>>, ls: Seq<u64>)
    ensures
        doc::spread(m, n, hs, ls).len() == n,
    decreases n,
{
    if n > 0 {
        if m % 2 == 1 {
            lemma_spread_len(m / 2, (n - 1) as nat, hs.skip(1), ls.skip(1));
        } else {
            lemma_spread_len(m / 2, (n - 1) as nat, hs, ls);
        }
    }
}

/// Law: the inspector and the engine agree: in a sealed block that the engine reads as a node, a
/// leaf or a furrow, the inspector sees the same, sealed with the same hash.
pub proof fn law_inspector_agrees_with_engine(b: Seq<u8>, h: Seq<u8>, d: DocView)
    requires
        b.len() == 4096,
        seal::hp_of(b) == Some(h),
        doc::doc_of(b) == Ok::<DocView, ErrorView>(d),
    ensures
        tract_of(b) == Ok::<(Seq<u8>, BlockView), Seq<char>>((h, audited(d))),
{
    reveal(doc::doc_of);
    names::lemma_doc_words_differ();
    let p = wire::parsed(b, 4)->Ok_0.1;
    let q = wire::parsed(b, p + 1)->Ok_0.1;
    let fs = seal::scan(b, q).0;
    doc::lemma_doc_hash_names();
    spine::lemma_hash_len(fs, doc::doc_hash_names(), "key"@);
    spine::lemma_hash_len(fs, doc::doc_hash_names(), "route"@);
    if d is Node {
        let m = (seal::last_uint(fs, "map"@)->0 % 0x1_0000_0000) as nat;
        let hs = seal::all_hashes(fs, "ch"@);
        let ls = seal::all_uints(fs, "at"@);
        let kids = doc::spread(m, 32, hs, ls);
        lemma_spread_len(m, 32, hs, ls);
        assert(kids.skip(0) =~= kids);
        lemma_listed(m, 0, hs, ls, kids);
    }
}

/// A node's children in its first `n` slots, one by one.
spec fn fronted(kids: Seq<Option<ChildView>>, n: nat) -> Seq<(u8, Seq<u8>, u64)>
    decreases n,
{
    if n == 0 {
        Seq::<(u8, Seq<u8>, u64)>::empty()
    } else {
        match kids[n - 1] {
            Some(ChildView::At { hash, lba }) => fronted(kids, (n - 1) as nat).push(
                ((n - 1) as u8, hash, lba),
            ),
            _ => fronted(kids, (n - 1) as nat),
        }
    }
}

/// The children in the first slots are those that a node lists first.
proof fn lemma_fronted(kids: Seq<Option<ChildView>>, n: nat)
    requires
        n <= 32,
    ensures
        fronted(kids, n) + listed(kids, n) == listed(kids, 0),
    decreases n,
{
    if n == 0 {
        assert(fronted(kids, 0) + listed(kids, 0) =~= listed(kids, 0));
    } else {
        lemma_fronted(kids, (n - 1) as nat);
        assert(fronted(kids, n) + listed(kids, n) =~= fronted(kids, (n - 1) as nat) + listed(
            kids,
            (n - 1) as nat,
        ));
    }
}

proof fn lemma_places_push(ms: Seq<(u64, Seq<u8>)>, x: (u64, Seq<u8>))
    ensures
        edit::places(ms.push(x)) == edit::places(ms).insert(x.0),
{
    let all = ms.push(x);
    assert forall|p: u64| edit::places(all).contains(p) == (edit::places(ms).contains(p) || p
        == x.0) by {
        if edit::places(all).contains(p) {
            let i = choose|i: int| 0 <= i < all.len() && (#[trigger] all[i]).0 == p;
            if i < ms.len() {
                assert(ms[i].0 == p);
            }
        }
        if edit::places(ms).contains(p) {
            let i = choose|i: int| 0 <= i < ms.len() && (#[trigger] ms[i]).0 == p;
            assert(all[i].0 == p);
        }
        if p == x.0 {
            assert(all[ms.len() as int].0 == p);
        }
    }
    assert(edit::places(all) =~= edit::places(ms).insert(x.0));
}

proof fn lemma_places_join(a: Seq<(u64, Seq<u8>)>, b: Seq<(u64, Seq<u8>)>)
    ensures
        edit::places(a + b) == edit::places(a).union(edit::places(b)),
    decreases b.len(),
{
    if b.len() == 0 {
        assert(a + b =~= a);
        assert(edit::places(b) =~= Set::<u64>::empty());
        assert(edit::places(a).union(edit::places(b)) =~= edit::places(a));
    } else {
        let front = b.drop_last();
        lemma_places_join(a, front);
        lemma_places_push(a + front, b.last());
        lemma_places_push(front, b.last());
        assert((a + front).push(b.last()) =~= a + b);
        assert(front.push(b.last()) =~= b);
        assert(edit::places(a + b) =~= edit::places(a).union(edit::places(b)));
    }
}

proof fn lemma_place_alone(lba: u64, hash: Seq<u8>)
    ensures
        edit::places(seq![(lba, hash)]) == Set::<u64>::empty().insert(lba),
{
    let none = Seq::<(u64, Seq<u8>)>::empty();
    lemma_places_push(none, (lba, hash));
    assert(none.push((lba, hash)) =~= seq![(lba, hash)]);
    assert(edit::places(none) =~= Set::<u64>::empty());
}

/// Whether a walk met no damage.
pub open spec fn unharmed(r: core::result::Result<survey::Survey, ErrorView>) -> bool {
    r matches Ok(s) && s.stale.len() == 0 && s.dangling.len() == 0
}

/// Furrows that are all sound are reached.
proof fn lemma_furrows_reached(
    disk: Seq<Seq<u8>>,
    base: int,
    t: Seq<Seq<u8>>,
    key: Seq<u8>,
    ps: Seq<u64>,
    n: nat,
    indent: nat,
)
    requires
        0 <= base,
        base + t.len() <= disk.len(),
        n <= ps.len(),
    ensures
        survey::checked(t, key, ps, n) matches survey::Checked::Sound(ms) ==> furrow_tours(
            disk,
            base,
            ps,
            n,
            key,
            indent,
        ).reached == edit::places(ms),
    decreases n,
{
    if n == 0 {
        assert(edit::places(Seq::<(u64, Seq<u8>)>::empty()) =~= Set::<u64>::empty());
    } else {
        lemma_furrows_reached(disk, base, t, key, ps, (n - 1) as nat, indent);
        if let survey::Checked::Sound(ms) = survey::checked(t, key, ps, n) {
            let was = survey::checked(t, key, ps, (n - 1) as nat)->Sound_0;
            lemma_places_push(was, ms.last());
            assert(was.push(ms.last()) =~= ms);
            assert(furrow_tours(disk, base, ps, n, key, indent).reached =~= edit::places(ms));
        }
    }
}

proof fn lemma_tour_reaches(
    disk: Seq<Seq<u8>>,
    base: int,
    len: nat,
    hash: Seq<u8>,
    lba: u64,
    route: Seq<u8>,
    d: nat,
)
    requires
        0 <= base,
        base + len <= disk.len(),
        forall|i: int| 0 <= i < disk.len() ==> (#[trigger] disk[i]).len() == 4096,
        unharmed(
            survey::survey(tract::ground(disk, base, len), hash, lba, route, d as int, true),
        ),
    ensures
        tour(disk, base, lba, hash, d, route) matches Ok(x) && x.reached == edit::places(
            survey::survey(
                tract::ground(disk, base, len),
                hash,
                lba,
                route,
                d as int,
                true,
            )->Ok_0.live,
        ),
    decreases 52 - d, 33int,
{
    let t = tract::ground(disk, base, len);
    let s = survey::survey(t, hash, lba, route, d as int, true)->Ok_0;
    lemma_place_alone(lba, hash);
    match trie::doc_at(t, lba, hash) {
        Ok(Some(doc)) => {
            let b = disk[base + lba];
            assert(t[lba as int] == b);
            law_inspector_agrees_with_engine(b, hash, doc);
            match doc {
                DocView::Node(n) => {
                    let c = listed(n.kids, 0);
                    lemma_fronted(n.kids, 32);
                    assert(fronted(n.kids, 32) + listed(n.kids, 32) =~= fronted(n.kids, 32));
                    assert(c.take(c.len() as int) =~= c);
                    lemma_tours_reach(disk, base, len, n.kids, 32, c, route, d);
                    let o = survey::survey_kids(t, n.kids, 32, route, d as int, true)->Ok_0;
                    lemma_places_join(seq![(lba, hash)], o.live);
                    let x = tour(disk, base, lba, hash, d, route)->Ok_0;
                    assert(x.reached =~= edit::places(s.live));
                },
                DocView::Lone { .. } => {},
                DocView::Furrow { .. } => {},
                _ => {
                    if let Ok(ps) = trie::leaf_positions(doc) {
                        let key = trie::leaf_key(doc)->0;
                        lemma_furrows_reached(disk, base, t, key, ps, ps.len(), d + 1);
                        if let survey::Checked::Sound(ms) = survey::checked(t, key, ps, ps.len()) {
                            lemma_places_join(seq![(lba, hash)], ms);
                            let x = tour(disk, base, lba, hash, d, route)->Ok_0;
                            assert(x.reached =~= edit::places(s.live));
                        }
                    }
                },
            }
        },
        _ => {},
    }
}

proof fn lemma_tours_reach(
    disk: Seq<Seq<u8>>,
    base: int,
    len: nat,
    kids: Seq<Option<ChildView>>,
    n: nat,
    c: Seq<(u8, Seq<u8>, u64)>,
    route: Seq<u8>,
    d: nat,
)
    requires
        0 <= base,
        base + len <= disk.len(),
        forall|i: int| 0 <= i < disk.len() ==> (#[trigger] disk[i]).len() == 4096,
        n <= 32,
        d < 52,
        fronted(kids, n).len() <= c.len(),
        c.take(fronted(kids, n).len() as int) == fronted(kids, n),
        unharmed(
            survey::survey_kids(tract::ground(disk, base, len), kids, n, route, d as int, true),
        ),
    ensures
        tours(disk, base, c, fronted(kids, n).len(), d, route) matches Ok(x) && x.reached
            == edit::places(
            survey::survey_kids(
                tract::ground(disk, base, len),
                kids,
                n,
                route,
                d as int,
                true,
            )->Ok_0.live,
        ),
    decreases 52 - d, n,
{
    let t = tract::ground(disk, base, len);
    if n == 0 {
        assert(edit::places(Seq::<(u64, Seq<u8>)>::empty()) =~= Set::<u64>::empty());
    } else {
        let less = (n - 1) as nat;
        let before = fronted(kids, less);
        let was = survey::survey_kids(t, kids, less, route, d as int, true)->Ok_0;
        if let Some(ChildView::At { hash, lba }) = kids[n - 1] {
            let now = fronted(kids, n);
            assert(now.drop_last() =~= before);
            assert(c.take(before.len() as int) =~= c.take(now.len() as int).drop_last());
            assert(c[now.len() - 1] == c.take(now.len() as int)[now.len() - 1]);
            let deeper = key::routed(route, d as int, (n - 1) as u8);
            let o = survey::survey(t, hash, lba, deeper, d as int + 1, true)->Ok_0;
            assert(was.join(o).stale.len() == was.stale.len() + o.stale.len());
            assert(was.join(o).dangling.len() == was.dangling.len() + o.dangling.len());
            lemma_tours_reach(disk, base, len, kids, less, c, route, d);
            lemma_tour_reaches(disk, base, len, hash, lba, deeper, d + 1);
            lemma_places_join(was.live, o.live);
            let x = tours(disk, base, c, now.len(), d, route)->Ok_0;
            assert(x.reached =~= edit::places(was.live + o.live));
        } else {
            lemma_tours_reach(disk, base, len, kids, less, c, route, d);
        }
    }
}

/// What a live set holds that was filled from marks.
proof fn lemma_filled_places(ms: Seq<(u64, Seq<u8>)>)
    ensures
        keep::filled(Map::<u64, Seq<u8>>::empty(), ms).dom() == edit::places(ms),
    decreases ms.len(),
{
    if ms.len() == 0 {
        assert(edit::places(ms) =~= Set::<u64>::empty());
    } else {
        lemma_filled_places(ms.drop_last());
        lemma_places_push(ms.drop_last(), ms.last());
        assert(ms.drop_last().push(ms.last()) =~= ms);
        assert(keep::filled(Map::<u64, Seq<u8>>::empty(), ms).dom() =~= edit::places(ms));
    }
}

/// Law: what the inspector reaches is what the engine holds live. Where nothing of the index that a head
/// names is damaged, the blocks that the inspector counts as reachable are exactly those of the live
/// set that an opening fills from the same head.
pub proof fn law_inspector_reaches_what_is_live(
    disk: Seq<Seq<u8>>,
    base: int,
    slot: u64,
    e: SpineView,
)
    requires
        0 <= base,
        base + e.tract <= disk.len(),
        forall|i: int| 0 <= i < disk.len() ==> (#[trigger] disk[i]).len() == 4096,
        unharmed(vault::survey_of(disk, base, e, true)),
    ensures
        vault::survey_of(disk, base, e, false) == vault::survey_of(disk, base, e, true),
        tree_on(disk, base, Some((slot, e))) matches Ok(x) && x.reached == keep::filled(
            Map::<u64, Seq<u8>>::empty(),
            vault::survey_of(disk, base, e, false)->Ok_0.live,
        ).dom(),
{
    let t = vault::ground_of(disk, base, e);
    let root = standing::index_of(e).root;
    survey::law_walks_agree_without_damage(t, root);
    let s = survey::survey_root(t, root, true)->Ok_0;
    lemma_filled_places(s.live);
    if e.hamt != block::zeros32() {
        lemma_tour_reaches(
            disk,
            base,
            e.tract as nat,
            e.hamt,
            e.hamtat,
            block::zeros32(),
            0,
        );
    } else {
        assert(edit::places(s.live) =~= Set::<u64>::empty());
    }
}

}
