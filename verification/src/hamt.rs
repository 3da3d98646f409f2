//! Copy-on-write hash array mapped trie: the object index, which lives inside the tract and is
//! plowed like everything else.
//!
//! 32-way branching, 5 bits of the key per level. Every edit copies the touched path and produces a
//! new root; old roots remain intact and readable, so the root in a spine entry is the version.
//!
//! Every block is sealed by the hash of its body. The key lives as a field inside the leaf, so a
//! lookup compares keys explicitly and the seal stays uniform.
use vstd::prelude::*;
use crate::block;
use crate::block::{is_zero, same32, zero_block, Block, BlockDev};
use crate::cut;
use crate::doc;
use crate::doc::{decode_doc, encode_extent, encode_node, Child, ChildView, DocView, Node, NodeView, TractDoc};
use crate::edit;
use crate::edit::set_kid;
use crate::error;
use crate::error::{corrupt_err, corrupt_num, Error, ErrorView, Result};
use crate::extent;
use crate::extent::{compress_runs, expand_runs};
use crate::haul;
use crate::keep;
use crate::key;
use crate::key::chunk;
use crate::live;
use crate::live::Owners;
use crate::mirror::{Mirror, Reading};
use crate::regroup;
use crate::regroup::{by_index, patch, read_blocks, still_listed};
use crate::roster;
use crate::roster::walk_keys_at;
use crate::seal;
use crate::settle;
use crate::survey;
use crate::survey::{walk_child, Lists, Survey};
use crate::swap;
use crate::tight;
use crate::tract;
use crate::tract::{sealed_hp, Liveness, Reloc, Tract};
use crate::trie;
use crate::trie::Trace;
use crate::value;
use crate::value::{append_one, mark_blocks, place_furrows, place_value};

pub use crate::doc::{furrow_capacity, lone_capacity, max_runs};
pub use crate::survey::{DanglingPointer, StalePointer};
pub use crate::names::{SCHEMA_DIRECT, SCHEMA_EXTENT, SCHEMA_FURROW, SCHEMA_LONE, SCHEMA_NODE};

verus! {

/// Positions and hashes that the live set must gain and lose. Accumulated across operations,
/// drained by `take_delta`.
#[derive(Debug)]
pub struct Delta {
    pub added: Vec<(u64, [u8; 32])>,
    pub removed: Vec<(u64, [u8; 32])>,
}

/// The view of positions and their hashes.
pub open spec fn marks_view(v: Seq<(u64, [u8; 32])>) -> Seq<(u64, Seq<u8>)> {
    Seq::new(v.len(), |i: int| (v[i].0, v[i].1@))
}

impl Default for Delta {
    fn default() -> (d: Self)
        ensures
            d.added@.len() == 0,
            d.removed@.len() == 0,
    {
        Delta { added: Vec::new(), removed: Vec::new() }
    }
}

/// The view of the dirty arena.
pub open spec fn arena_view(v: Seq<Node>) -> Seq<NodeView> {
    Seq::new(v.len(), |i: int| v[i]@)
}

/// What an operation reports against what it should: the truth, or the failure of an unreliable
/// device.
pub open spec fn reports<X>(
    got: core::result::Result<X, ErrorView>,
    truth: core::result::Result<X, ErrorView>,
    sure: bool,
) -> bool {
    &&& got is Ok ==> got == truth
    &&& sure ==> got == truth
    &&& got matches Err(e) ==> got == truth || block::device_error(e)
}

/// Whether reads of the tract cannot fail: the deciding device is reliable and holds all of it.
pub open spec fn sure_of<A: BlockDev, B: BlockDev>(mirror: &Mirror<A, B>, tract: &Tract) -> bool {
    mirror.reliable() && tract.base + tract.len <= mirror.disk().len()
}

/// Whether reads of the tract in one way cannot fail.
pub open spec fn sure_as<A: BlockDev, B: BlockDev>(
    mirror: &Mirror<A, B>,
    tract: &Tract,
    how: Reading,
) -> bool {
    mirror.clear(how) && tract.base + tract.len <= mirror.seen(how).len()
}

/// What a key finds on two devices: what it finds on the first, as `t`; where that is damaged, what it
/// finds with the second's copy of every block whose seal fails, as `m`; and where a block is another
/// than was asked for, what it finds the other way round, as `w`.
pub open spec fn healed(
    t: Seq<Seq<u8>>,
    m: Seq<Seq<u8>>,
    w: Seq<Seq<u8>>,
    ix: Index,
    k: Seq<u8>,
) -> core::result::Result<Option<Seq<u8>>, ErrorView> {
    match ix.path(t, k).found {
        Ok(v) => Ok(v),
        Err(e) => match ix.path(m, k).found {
            Ok(v) => Ok(v),
            Err(ErrorView::Seal) => match ix.path(w, k).found {
                Ok(v) => Ok(v),
                Err(_) => Err(e),
            },
            Err(_) => Err(e),
        },
    }
}

/// What a lookup says against what a key finds on two devices: the truth, or what is wrong with the
/// first, or the failure of an unreliable device.
pub open spec fn recovers(
    got: core::result::Result<Option<Seq<u8>>, ErrorView>,
    first: core::result::Result<Option<Seq<u8>>, ErrorView>,
    truth: core::result::Result<Option<Seq<u8>>, ErrorView>,
    sure: bool,
) -> bool {
    &&& got is Ok ==> got == truth
    &&& sure ==> got == truth
    &&& got matches Err(e) ==> got == first || block::device_error(e)
}

/// A path that finds its way reads sealed blocks and zeros alone.
pub(crate) proof fn lemma_found_reads(
    t: Seq<Seq<u8>>,
    arena: Seq<NodeView>,
    slot: Option<ChildView>,
    k: Seq<u8>,
    d: int,
)
    requires
        trie::walk(t, arena, slot, k, d).found is Ok,
    ensures
        forall|p: u64| #[trigger]
            trie::walk(t, arena, slot, k, d).reads.contains(p) ==> p < t.len() && (t[p as int]
                == block::zeros() || seal::hp_of(t[p as int]) is Some),
    decreases 52 - d,
{
    let x = trie::walk(t, arena, slot, k, d);
    match slot {
        Some(ChildView::Dirty(j)) => {
            let s = arena[j].kids[key::chunk_of(k, d) as int];
            lemma_found_reads(t, arena, s, k, d + 1);
            assert forall|p: u64| #[trigger] x.reads.contains(p) implies p < t.len() && (t[p as int]
                == block::zeros() || seal::hp_of(t[p as int]) is Some) by {
                assert(trie::walk(t, arena, s, k, d + 1).reads.contains(p));
            }
        },
        Some(ChildView::At { hash, lba }) => match trie::doc_at(t, lba, hash) {
            Ok(Some(DocView::Node(n))) => {
                let s = n.kids[key::chunk_of(k, d) as int];
                lemma_found_reads(t, arena, s, k, d + 1);
                assert forall|p: u64| #[trigger] x.reads.contains(p) implies p < t.len() && (
                t[p as int] == block::zeros() || seal::hp_of(t[p as int]) is Some) by {
                    if p != lba {
                        assert(trie::walk(t, arena, s, k, d + 1).reads.contains(p));
                    }
                }
            },
            Ok(Some(DocView::Furrow { .. })) => {},
            Ok(Some(leaf)) => {
                assert forall|p: u64| #[trigger] x.reads.contains(p) implies p < t.len() && (
                t[p as int] == block::zeros() || seal::hp_of(t[p as int]) is Some) by {
                    if p != lba {
                        trie::lemma_leaf_owns(t, leaf, p);
                    }
                }
            },
            _ => {},
        },
        None => {},
    }
}

/// What a key finds on the first device it finds with the second's copies too.
proof fn lemma_mended_found<A: BlockDev, B: BlockDev>(
    mirror: &Mirror<A, B>,
    tract: &Tract,
    ix: Index,
    k: Seq<u8>,
)
    requires
        ix.wf(),
        k.len() == 32,
    ensures
        ix.path(tract.on(mirror.disk()), k).found is Ok ==> ix.path(
            tract.on(mirror.seen(Reading::Mended)),
            k,
        ) == ix.path(tract.on(mirror.disk()), k),
{
    let t = tract.on(mirror.disk());
    let m = tract.on(mirror.seen(Reading::Mended));
    if ix.path(t, k).found is Ok {
        lemma_found_reads(t, ix.arena, ix.root, k, 0);
        let r = ix.path(t, k).reads;
        assert(trie::same_at(t, m, r)) by {
            assert forall|p: u64| #[trigger] r.contains(p) && p < t.len() implies t[p as int]
                == m[p as int] by {
                assert(trie::walk(t, ix.arena, ix.root, k, 0).reads.contains(p));
            }
        }
        trie::law_path_depends_on_its_reads(t, m, ix.arena, ix.arena, ix.root, k, 0);
    }
}

/// Whether a mirror was only read.
pub open spec fn untouched<A: BlockDev, B: BlockDev>(
    now: &Mirror<A, B>,
    before: &Mirror<A, B>,
) -> bool {
    &&& now.carries_on(before)
    &&& now.first() == before.first()
    &&& now.second() == before.second()
}

/// The view of a document that was read, or not.
pub open spec fn doc_seen(r: Result<Option<TractDoc>>) -> core::result::Result<
    Option<DocView>,
    ErrorView,
> {
    match r {
        Ok(Some(d)) => Ok(Some(d@)),
        Ok(None) => Ok(None),
        Err(e) => Err(e@),
    }
}

/// The view of bytes that were found, or not.
pub open spec fn bytes_seen(r: Result<Option<Vec<u8>>>) -> core::result::Result<
    Option<Seq<u8>>,
    ErrorView,
> {
    match r {
        Ok(Some(v)) => Ok(Some(v@)),
        Ok(None) => Ok(None),
        Err(e) => Err(e@),
    }
}

/// Reads a tract block and checks it against its hash. None is a zeroed block: deleted.
fn read_doc_as<A: BlockDev, B: BlockDev>(
    mirror: &mut Mirror<A, B>,
    tract: &Tract,
    lba: u64,
    expected: &[u8; 32],
    how: Reading,
) -> (r: Result<Option<TractDoc>>)
    requires
        tract.base + tract.len <= u64::MAX,
    ensures
        untouched(final(mirror), old(mirror)),
        reports(
            doc_seen(r),
            trie::doc_at(tract.on(old(mirror).seen(how)), lba, expected@),
            sure_as(old(mirror), tract, how),
        ),
{
    let mut buf = zero_block();
    tract.read_as(mirror, lba, &mut buf, how)?;
    if is_zero(&buf) {
        return Ok(None);
    }
    match sealed_hp(&buf) {
        None => Err(corrupt_num("unsealed block at tract lba ", lba, "")),
        Some(h) => {
            if !same32(&h, expected) {
                return Err(Error::Seal);
            }
            match decode_doc(&buf) {
                Ok(d) => Ok(Some(d)),
                Err(e) => Err(e),
            }
        },
    }
}

/// Reads a tract block from the first device present and checks it against its hash.
pub(crate) fn read_doc<A: BlockDev, B: BlockDev>(
    mirror: &mut Mirror<A, B>,
    tract: &Tract,
    lba: u64,
    expected: &[u8; 32],
) -> (r: Result<Option<TractDoc>>)
    requires
        tract.base + tract.len <= u64::MAX,
    ensures
        untouched(final(mirror), old(mirror)),
        reports(
            doc_seen(r),
            trie::doc_at(tract.on(old(mirror).disk()), lba, expected@),
            sure_of(old(mirror), tract),
        ),
{
    read_doc_as(mirror, tract, lba, expected, Reading::First)
}

/// The view of bytes that were put together, or not.
pub open spec fn vec_seen(r: Result<Vec<u8>>) -> core::result::Result<Seq<u8>, ErrorView> {
    match r {
        Ok(v) => Ok(v@),
        Err(e) => Err(e@),
    }
}

/// A failed prefix fails the whole.
proof fn lemma_gathered_fails(
    tract: Seq<Seq<u8>>,
    k: Seq<u8>,
    ps: Seq<u64>,
    n: nat,
    m: nat,
)
    requires
        n <= m,
        trie::gathered(tract, k, ps, n) is Err,
    ensures
        trie::gathered(tract, k, ps, m) == trie::gathered(tract, k, ps, n),
    decreases m,
{
    if n < m {
        lemma_gathered_fails(tract, k, ps, n, (m - 1) as nat);
    }
}

/// Reads one furrow of a value.
fn read_furrow<A: BlockDev, B: BlockDev>(
    mirror: &mut Mirror<A, B>,
    tract: &Tract,
    key: &[u8; 32],
    lba: u64,
    i: u64,
    how: Reading,
) -> (r: Result<Vec<u8>>)
    requires
        tract.base + tract.len <= u64::MAX,
    ensures
        untouched(final(mirror), old(mirror)),
        reports(
            vec_seen(r),
            trie::furrow_at(tract.on(old(mirror).seen(how)), key@, lba, i as int),
            sure_as(old(mirror), tract, how),
        ),
{
    let mut buf = zero_block();
    tract.read_as(mirror, lba, &mut buf, how)?;
    if sealed_hp(&buf).is_none() {
        return Err(corrupt_num("furrow ", i, " unsealed"));
    }
    match decode_doc(&buf) {
        Err(e) => Err(e),
        Ok(TractDoc::Furrow { key: k, index, payload }) => {
            if !same32(&k, key) || index != i {
                return Err(corrupt_num("furrow ", i, " mismatched owner/index"));
            }
            Ok(payload)
        },
        Ok(_) => Err(corrupt_num("furrow ", i, " wrong schema")),
    }
}

/// Puts a value together from its furrows.
fn read_furrows_as<A: BlockDev, B: BlockDev>(
    mirror: &mut Mirror<A, B>,
    tract: &Tract,
    key: &[u8; 32],
    size: u64,
    furrows: &Vec<u64>,
    how: Reading,
) -> (r: Result<Vec<u8>>)
    requires
        tract.base + tract.len <= u64::MAX,
    ensures
        untouched(final(mirror), old(mirror)),
        reports(
            vec_seen(r),
            trie::assembled(tract.on(old(mirror).seen(how)), key@, size, furrows@),
            sure_as(old(mirror), tract, how),
        ),
{
    let ghost t = tract.on(mirror.seen(how));
    let mut out: Vec<u8> = Vec::new();
    let mut i: usize = 0;
    while i < furrows.len()
        invariant
            i <= furrows@.len(),
            tract.base + tract.len <= u64::MAX,
            untouched(mirror, old(mirror)),
            t == tract.on(old(mirror).seen(how)),
            trie::gathered(t, key@, furrows@, i as nat) == Ok::<Seq<u8>, ErrorView>(out@),
        decreases furrows@.len() - i,
    {
        let got = read_furrow(mirror, tract, key, furrows[i], i as u64, how);
        let ghost sofar = out@;
        match got {
            Err(e) => {
                proof {
                    if trie::furrow_at(t, key@, furrows@[i as int], i as int) is Err {
                        assert(trie::gathered(t, key@, furrows@, (i + 1) as nat) is Err);
                        lemma_gathered_fails(t, key@, furrows@, (i + 1) as nat, furrows@.len());
                    }
                }
                return Err(e);
            },
            Ok(p) => {
                out.extend_from_slice(p.as_slice());
                assert(out@ =~= sofar + p@);
            },
        }
        i = i + 1;
    }
    if out.len() as u64 != size {
        return Err(corrupt_err("assembled size mismatch"));
    }
    Ok(out)
}

/// Puts a value together from its furrows on the first device present.
pub(crate) fn read_furrows<A: BlockDev, B: BlockDev>(
    mirror: &mut Mirror<A, B>,
    tract: &Tract,
    key: &[u8; 32],
    size: u64,
    furrows: &Vec<u64>,
) -> (r: Result<Vec<u8>>)
    requires
        tract.base + tract.len <= u64::MAX,
    ensures
        untouched(final(mirror), old(mirror)),
        reports(
            vec_seen(r),
            trie::assembled(tract.on(old(mirror).disk()), key@, size, furrows@),
            sure_of(old(mirror), tract),
        ),
{
    read_furrows_as(mirror, tract, key, size, furrows, Reading::First)
}

/// The object index: a root, the nodes that were touched and not yet flushed, and what changed
/// hands since the last drain.
pub struct Hamt {
    root: Option<Child>,
    arena: Vec<Node>,
    delta: Delta,
}

/// The mathematical view of the index.
#[verifier::ext_equal]
pub struct Index {
    pub root: Option<ChildView>,
    pub arena: Seq<NodeView>,
    pub added: Seq<(u64, Seq<u8>)>,
    pub removed: Seq<(u64, Seq<u8>)>,
}

impl View for Hamt {
    type V = Index;

    closed spec fn view(&self) -> Index {
        Index {
            root: doc::slot_view(self.root),
            arena: arena_view(self.arena@),
            added: marks_view(self.delta.added@),
            removed: marks_view(self.delta.removed@),
        }
    }
}

impl Index {
    /// The path of a key through the index over a tract.
    pub open spec fn path(self, tract: Seq<Seq<u8>>, k: Seq<u8>) -> Trace {
        trie::walk(tract, self.arena, self.root, k, 0)
    }

    /// Whether links lead somewhere.
    pub open spec fn wf(self) -> bool {
        trie::arena_wf(self.arena) && trie::slot_wf(self.root, self.arena)
    }

    /// How many nodes there are to write, at most, before the index is committed.
    pub open spec fn dirt(self) -> nat {
        edit::dirt(self.arena, self.root)
    }
}

/// What a flush says of a root that is not dirty: where it stands, and for the empty index a hash of
/// zeros at place zero.
pub open spec fn root_place(slot: Option<ChildView>) -> (Seq<u8>, u64) {
    match slot {
        Some(ChildView::At { hash, lba }) => (hash, lba),
        _ => (block::zeros32(), 0),
    }
}

/// What a flush that succeeds says, of the root before it and the root that it leaves: where the root
/// stands now, which is where it stood if it was not dirty.
pub open spec fn flush_says(
    before: Option<ChildView>,
    said: (Seq<u8>, u64),
    after: Option<ChildView>,
) -> bool {
    &&& after == root_slot(said.0, said.1)
    &&& said == root_place(after)
    &&& (exists|h: Seq<u8>, l: u64| #[trigger] root_slot(h, l) == before) ==> said == root_place(
        before,
    )
}

/// Law: a second flush returns the same place, and leaves the same root.
pub proof fn law_second_flush_same_place(
    dirty: Option<ChildView>,
    first: (Seq<u8>, u64),
    left: Option<ChildView>,
    second: (Seq<u8>, u64),
    again: Option<ChildView>,
)
    requires
        flush_says(dirty, first, left),
        flush_says(left, second, again),
    ensures
        second == first,
        again == left,
{
    assert(root_slot(first.0, first.1) == left);
}

/// The slot that a root hash stands for: all zero is the empty index.
pub open spec fn root_slot(hash: Seq<u8>, lba: u64) -> Option<ChildView> {
    if hash == block::zeros32() {
        None
    } else {
        Some(ChildView::At { hash, lba })
    }
}

/// The index of a committed root.
pub open spec fn committed_index(hash: Seq<u8>, lba: u64) -> Index {
    Index {
        root: root_slot(hash, lba),
        arena: Seq::<NodeView>::empty(),
        added: Seq::<(u64, Seq<u8>)>::empty(),
        removed: Seq::<(u64, Seq<u8>)>::empty(),
    }
}

impl Hamt {
    pub fn empty() -> (h: Self)
        ensures
            h@ == committed_index(block::zeros32(), 0),
            h@.wf(),
    {
        let h = Self { root: None, arena: Vec::new(), delta: Delta::default() };
        assert(h@ =~= committed_index(block::zeros32(), 0));
        h
    }

    /// Resumes from a committed root. The all-zero hash is the empty index.
    pub fn from_root(hash: [u8; 32], lba: u64) -> (h: Self)
        ensures
            h@ == committed_index(hash@, lba),
            h@.wf(),
    {
        let zero = block::zero32();
        let root = if same32(&hash, &zero) {
            None
        } else {
            Some(Child::Committed { hash, lba })
        };
        let h = Self { root, arena: Vec::new(), delta: Delta::default() };
        assert(h@ =~= committed_index(hash@, lba));
        h
    }

    pub fn is_dirty(&self) -> (r: bool)
        ensures
            r == (self@.root matches Some(ChildView::Dirty(_))),
    {
        match self.root {
            Some(Child::Dirty(_)) => true,
            _ => false,
        }
    }

    /// Whether nothing was added to or removed from the index since the delta was last taken.
    pub(crate) fn no_delta(&self) -> (r: bool)
        ensures
            r == (self@.added.len() == 0 && self@.removed.len() == 0),
    {
        self.delta.added.len() == 0 && self.delta.removed.len() == 0
    }

    pub fn take_delta(&mut self) -> (d: Delta)
        ensures
            marks_view(d.added@) == old(self)@.added,
            marks_view(d.removed@) == old(self)@.removed,
            final(self)@.root == old(self)@.root,
            final(self)@.arena == old(self)@.arena,
            final(self)@.added.len() == 0,
            final(self)@.removed.len() == 0,
    {
        let mut d = Delta::default();
        std::mem::swap(&mut d, &mut self.delta);
        d
    }

    /// The value under a key, read in one way.
    fn lookup_as<A: BlockDev, B: BlockDev>(
        &mut self,
        mirror: &mut Mirror<A, B>,
        tract: &Tract,
        key: &[u8; 32],
        how: Reading,
    ) -> (r: Result<Option<Vec<u8>>>)
        requires
            old(self)@.wf(),
            tract.base + tract.len <= u64::MAX,
        ensures
            *final(self) == *old(self),
            untouched(final(mirror), old(mirror)),
            reports(
                bytes_seen(r),
                old(self)@.path(tract.on(old(mirror).seen(how)), key@).found,
                sure_as(old(mirror), tract, how),
            ),
    {
        let ghost t = tract.on(mirror.seen(how));
        let ghost ix = self@;
        let mut current: Child = match self.root {
            None => return Ok(None),
            Some(c) => c,
        };
        let mut depth: u8 = 0;
        loop
            invariant
                *self == *old(self),
                self@ == ix,
                ix.wf(),
                depth <= 52,
                tract.base + tract.len <= u64::MAX,
                untouched(mirror, old(mirror)),
                t == tract.on(old(mirror).seen(how)),
                trie::slot_wf(Some(current@), ix.arena),
                ix.path(t, key@).found == trie::walk(
                    t,
                    ix.arena,
                    Some(current@),
                    key@,
                    depth as int,
                ).found,
            decreases 52 - depth,
        {
            match current {
                Child::Dirty(idx) => {
                    if depth >= 52 {
                        return Err(corrupt_err("index deeper than its keys"));
                    }
                    let c: usize = chunk(key, depth) as usize;
                    assert(self.arena@[idx as int]@ == ix.arena[idx as int]);
                    assert(trie::node_wf(
                        ix.arena[idx as int],
                        idx as int,
                        ix.arena.len() as int,
                    ));
                    let ghost kids = ix.arena[idx as int].kids;
                    assert(doc::slot_view(self.arena@[idx as int].children@[c as int])
                        == kids[c as int]);
                    assert(trie::walk(t, ix.arena, None, key@, depth + 1).found is Ok);
                    match self.arena[idx].children[c] {
                        None => return Ok(None),
                        Some(k) => {
                            current = k;
                            depth = depth + 1;
                        },
                    }
                },
                Child::Committed { hash, lba } => {
                    let doc = match read_doc_as(mirror, tract, lba, &hash, how) {
                        Err(e) => return Err(e),
                        Ok(None) => return Ok(None),
                        Ok(Some(d)) => d,
                    };
                    proof {
                        trie::lemma_doc_shape(t[lba as int]);
                    }
                    match doc {
                        TractDoc::Node(node) => {
                            if depth >= 52 {
                                return Err(corrupt_err("index deeper than its keys"));
                            }
                            let c: usize = chunk(key, depth) as usize;
                            assert(doc::slot_view(node.children@[c as int])
                                == node@.kids[c as int]);
                            assert(trie::walk(t, ix.arena, None, key@, depth + 1).found is Ok);
                            match node.children[c] {
                                None => return Ok(None),
                                Some(k) => {
                                    current = k;
                                    depth = depth + 1;
                                },
                            }
                        },
                        TractDoc::Lone { key: k, value } => {
                            return Ok(
                                if same32(&k, key) {
                                    Some(value)
                                } else {
                                    None
                                },
                            );
                        },
                        TractDoc::Direct { key: k, size, furrows } => {
                            if !same32(&k, key) {
                                return Ok(None);
                            }
                            return match read_furrows_as(mirror, tract, key, size, &furrows, how) {
                                Ok(v) => Ok(Some(v)),
                                Err(e) => Err(e),
                            };
                        },
                        TractDoc::Extent { key: k, size, runs } => {
                            if !same32(&k, key) {
                                return Ok(None);
                            }
                            let positions = match expand_runs(&runs, size) {
                                Ok(p) => p,
                                Err(e) => return Err(e),
                            };
                            return match read_furrows_as(mirror, tract, key, size, &positions, how) {
                                Ok(v) => Ok(Some(v)),
                                Err(e) => Err(e),
                            };
                        },
                        TractDoc::Furrow { .. } => {
                            return Err(corrupt_err("furrow reached via index walk"));
                        },
                    }
                },
            }
        }
    }

    /// The value under a key on the first device present.
    pub(crate) fn lookup_first<A: BlockDev, B: BlockDev>(
        &mut self,
        mirror: &mut Mirror<A, B>,
        tract: &Tract,
        key: &[u8; 32],
    ) -> (r: Result<Option<Vec<u8>>>)
        requires
            old(self)@.wf(),
            tract.base + tract.len <= u64::MAX,
        ensures
            *final(self) == *old(self),
            untouched(final(mirror), old(mirror)),
            reports(
                bytes_seen(r),
                old(self)@.path(tract.on(old(mirror).disk()), key@).found,
                sure_of(old(mirror), tract),
            ),
    {
        self.lookup_as(mirror, tract, key, Reading::First)
    }

    /// The value under a key. Never changes the index. A block whose seal fails is routed around: the
    /// mirror's copy is read. Where a sealed block is not the one that was asked for, the mirror's
    /// copies are tried first.
    pub fn lookup<A: BlockDev, B: BlockDev>(
        &mut self,
        mirror: &mut Mirror<A, B>,
        tract: &Tract,
        key: &[u8; 32],
    ) -> (r: Result<Option<Vec<u8>>>)
        requires
            old(self)@.wf(),
            tract.base + tract.len <= u64::MAX,
        ensures
            *final(self) == *old(self),
            untouched(final(mirror), old(mirror)),
            recovers(
                bytes_seen(r),
                old(self)@.path(tract.on(old(mirror).disk()), key@).found,
                healed(
                    tract.on(old(mirror).seen(Reading::First)),
                    tract.on(old(mirror).seen(Reading::Mended)),
                    tract.on(old(mirror).seen(Reading::Swapped)),
                    old(self)@,
                    key@,
                ),
                sure_of(old(mirror), tract) && (old(self)@.path(
                    tract.on(old(mirror).disk()),
                    key@,
                ).found is Ok || (sure_as(old(mirror), tract, Reading::Mended) && sure_as(
                    old(mirror),
                    tract,
                    Reading::Swapped,
                ))),
            ),
    {
        let ghost m0 = *mirror;
        let ghost ix = self@;
        let ghost t = tract.on(mirror.seen(Reading::First));
        let ghost m = tract.on(mirror.seen(Reading::Mended));
        let ghost w = tract.on(mirror.seen(Reading::Swapped));
        proof {
            lemma_mended_found(&m0, tract, ix, key@);
        }
        let e = match self.lookup_as(mirror, tract, key, Reading::First) {
            Ok(x) => return Ok(x),
            Err(e) => e,
        };
        match self.lookup_as(mirror, tract, key, Reading::Mended) {
            Ok(x) => return Ok(x),
            Err(Error::Seal) => {},
            Err(_) => return Err(e),
        }
        match self.lookup_as(mirror, tract, key, Reading::Swapped) {
            Ok(x) => Ok(x),
            Err(_) => Err(e),
        }
    }

    /// Where the leaf of a key stands, without changing anything.
    pub(crate) fn find_leaf<A: BlockDev, B: BlockDev>(
        &mut self,
        mirror: &mut Mirror<A, B>,
        tract: &Tract,
        key: &[u8; 32],
    ) -> (r: Result<Option<(u64, [u8; 32])>>)
        requires
            old(self)@.wf(),
            tract.base + tract.len <= u64::MAX,
        ensures
            *final(self) == *old(self),
            untouched(final(mirror), old(mirror)),
            reports(
                leaf_seen(r),
                old(self)@.path(tract.on(old(mirror).disk()), key@).leaf,
                sure_of(old(mirror), tract),
            ),
    {
        let ghost t = tract.on(mirror.disk());
        let ghost ix = self@;
        let mut current: Child = match self.root {
            None => return Ok(None),
            Some(c) => c,
        };
        let mut depth: u8 = 0;
        loop
            invariant
                *self == *old(self),
                self@ == ix,
                ix.wf(),
                depth <= 52,
                tract.base + tract.len <= u64::MAX,
                untouched(mirror, old(mirror)),
                t == tract.on(old(mirror).disk()),
                trie::slot_wf(Some(current@), ix.arena),
                ix.path(t, key@).leaf == trie::walk(
                    t,
                    ix.arena,
                    Some(current@),
                    key@,
                    depth as int,
                ).leaf,
            decreases 52 - depth,
        {
            match current {
                Child::Dirty(idx) => {
                    if depth >= 52 {
                        return Err(corrupt_err("index deeper than its keys"));
                    }
                    let c: usize = chunk(key, depth) as usize;
                    assert(self.arena@[idx as int]@ == ix.arena[idx as int]);
                    assert(trie::node_wf(
                        ix.arena[idx as int],
                        idx as int,
                        ix.arena.len() as int,
                    ));
                    let ghost kids = ix.arena[idx as int].kids;
                    assert(doc::slot_view(self.arena@[idx as int].children@[c as int])
                        == kids[c as int]);
                    assert(trie::walk(t, ix.arena, None, key@, depth + 1).leaf is Ok);
                    match self.arena[idx].children[c] {
                        None => return Ok(None),
                        Some(k) => {
                            current = k;
                            depth = depth + 1;
                        },
                    }
                },
                Child::Committed { hash, lba } => {
                    let doc = match read_doc(mirror, tract, lba, &hash) {
                        Err(e) => return Err(e),
                        Ok(None) => return Ok(None),
                        Ok(Some(d)) => d,
                    };
                    proof {
                        trie::lemma_doc_shape(t[lba as int]);
                    }
                    match doc {
                        TractDoc::Node(node) => {
                            if depth >= 52 {
                                return Err(corrupt_err("index deeper than its keys"));
                            }
                            let c: usize = chunk(key, depth) as usize;
                            assert(doc::slot_view(node.children@[c as int])
                                == node@.kids[c as int]);
                            assert(trie::walk(t, ix.arena, None, key@, depth + 1).leaf is Ok);
                            match node.children[c] {
                                None => return Ok(None),
                                Some(k) => {
                                    current = k;
                                    depth = depth + 1;
                                },
                            }
                        },
                        TractDoc::Lone { key: k, .. }
                        | TractDoc::Direct { key: k, .. }
                        | TractDoc::Extent { key: k, .. } => {
                            return Ok(
                                if same32(&k, key) {
                                    Some((lba, hash))
                                } else {
                                    None
                                },
                            );
                        },
                        TractDoc::Furrow { .. } => {
                            return Err(corrupt_err("furrow in index position"));
                        },
                    }
                },
            }
        }
    }

    /// Records a leaf and its furrows as no longer live.
    fn remove_leaf_blocks<A: BlockDev, B: BlockDev>(
        &mut self,
        mirror: &mut Mirror<A, B>,
        tract: &Tract,
        lba: u64,
        hash: &[u8; 32],
    ) -> (r: Result<()>)
        requires
            tract.base + tract.len <= u64::MAX,
        ensures
            untouched(final(mirror), old(mirror)),
            final(self)@.root == old(self)@.root,
            final(self)@.arena == old(self)@.arena,
            final(self)@.added == old(self)@.added,
            r is Err ==> *final(self) == *old(self),
            r is Ok ==> trie::leaf_marks(tract.on(old(mirror).disk()), lba, hash@) is Ok
                && final(self)@.removed == old(self)@.removed + trie::leaf_marks(
                tract.on(old(mirror).disk()),
                lba,
                hash@,
            )->Ok_0,
            reports(
                match r {
                    Ok(()) => Ok::<(), ErrorView>(()),
                    Err(e) => Err(e@),
                },
                match trie::leaf_marks(tract.on(old(mirror).disk()), lba, hash@) {
                    Ok(_) => Ok::<(), ErrorView>(()),
                    Err(e) => Err(e),
                },
                sure_of(old(mirror), tract),
            ),
    {
        let doc = match read_doc(mirror, tract, lba, hash) {
            Err(e) => return Err(e),
            Ok(d) => d,
        };
        let mut marks: Vec<(u64, [u8; 32])> = match doc {
            Some(TractDoc::Direct { furrows, .. }) => mark_sealed(mirror, tract, &furrows)?,
            Some(TractDoc::Extent { size, runs, .. }) => {
                let positions = expand_runs(&runs, size)?;
                mark_sealed(mirror, tract, &positions)?
            },
            _ => Vec::new(),
        };
        let ghost ms = marks_view(marks@);
        let ghost was = self@.removed;
        self.delta.removed.push((lba, *hash));
        self.delta.removed.append(&mut marks);
        assert(self@.removed =~= was + (seq![(lba, hash@)] + ms));
        Ok(())
    }
}

/// The view of a leaf's place that was found, or not.
pub open spec fn leaf_seen(r: Result<Option<(u64, [u8; 32])>>) -> core::result::Result<
    Option<(u64, Seq<u8>)>,
    ErrorView,
> {
    match r {
        Ok(Some((l, h))) => Ok(Some((l, h@))),
        Ok(None) => Ok(None),
        Err(e) => Err(e@),
    }
}

/// The view of marks that were collected, or not.
pub open spec fn marks_seen(r: Result<Vec<(u64, [u8; 32])>>) -> core::result::Result<
    Seq<(u64, Seq<u8>)>,
    ErrorView,
> {
    match r {
        Ok(v) => Ok(marks_view(v@)),
        Err(e) => Err(e@),
    }
}

/// The sealed blocks among some positions, with their hashes.
pub(crate) fn mark_sealed<A: BlockDev, B: BlockDev>(
    mirror: &mut Mirror<A, B>,
    tract: &Tract,
    positions: &Vec<u64>,
) -> (r: Result<Vec<(u64, [u8; 32])>>)
    requires
        tract.base + tract.len <= u64::MAX,
    ensures
        untouched(final(mirror), old(mirror)),
        reports(
            marks_seen(r),
            trie::marked(tract.on(old(mirror).disk()), positions@, positions@.len()),
            sure_of(old(mirror), tract),
        ),
{
    let ghost t = tract.on(mirror.disk());
    let mut out: Vec<(u64, [u8; 32])> = Vec::new();
    let mut buf = zero_block();
    let mut i: usize = 0;
    assert(marks_view(out@) =~= Seq::<(u64, Seq<u8>)>::empty());
    while i < positions.len()
        invariant
            i <= positions@.len(),
            tract.base + tract.len <= u64::MAX,
            untouched(mirror, old(mirror)),
            t == tract.on(old(mirror).disk()),
            trie::marked(t, positions@, i as nat) == Ok::<Seq<(u64, Seq<u8>)>, ErrorView>(
                marks_view(out@),
            ),
        decreases positions@.len() - i,
    {
        let pos: u64 = positions[i];
        match tract.read(mirror, pos, &mut buf) {
            Err(e) => {
                proof {
                    if pos >= t.len() {
                        assert(trie::marked(t, positions@, (i + 1) as nat) is Err);
                        trie::lemma_marked_fails(t, positions@, (i + 1) as nat, positions@.len());
                    }
                }
                return Err(e);
            },
            Ok(()) => {},
        }
        let ghost sofar = marks_view(out@);
        if let Some(h) = sealed_hp(&buf) {
            out.push((pos, h));
            assert(marks_view(out@) =~= sofar.push((pos, h@)));
        }
        i = i + 1;
    }
    Ok(out)
}

/// The marks that were put behind others.
pub open spec fn newer(was: Seq<(u64, Seq<u8>)>, now: Seq<(u64, Seq<u8>)>) -> Seq<(u64, Seq<u8>)> {
    now.skip(was.len() as int)
}

/// Whether marks were only put behind others.
pub open spec fn extended(was: Seq<(u64, Seq<u8>)>, now: Seq<(u64, Seq<u8>)>) -> bool {
    now.len() >= was.len() && now.take(was.len() as int) == was
}

/// Whether marks were only put behind others, of positions within the totals `from` up to `mid`.
pub open spec fn arrived(
    was: Seq<(u64, Seq<u8>)>,
    now: Seq<(u64, Seq<u8>)>,
    from: int,
    mid: int,
    len: int,
) -> bool {
    &&& extended(was, now)
    &&& forall|i: int|
        was.len() <= i < now.len() ==> (#[trigger] now[i]).0 < len && tract::in_strip(
            now[i].0 as int,
            from,
            mid,
            len,
        )
}

/// What arrived in two goes arrived.
pub proof fn lemma_arrived_twice(
    a: Seq<(u64, Seq<u8>)>,
    b: Seq<(u64, Seq<u8>)>,
    c: Seq<(u64, Seq<u8>)>,
    from: int,
    mid: int,
    to: int,
    len: int,
)
    requires
        from <= mid <= to,
        to - from <= len,
        arrived(a, b, from, mid, len),
        arrived(b, c, mid, to, len),
    ensures
        arrived(a, c, from, to, len),
{
    assert(c.take(a.len() as int) =~= b.take(a.len() as int));
    assert forall|i: int| a.len() <= i < c.len() implies (#[trigger] c[i]).0 < len
        && tract::in_strip(c[i].0 as int, from, to, len) by {
        if i < b.len() {
            assert(c.take(b.len() as int)[i] == c[i]);
            assert(b[i] == c[i]);
        } else {
            tract::lemma_strip_tail(c[i].0 as int, from, mid, to, len);
        }
    }
}

/// Whether an error is about something else than room.
pub open spec fn not_room(e: ErrorView) -> bool {
    !(e is Fenced) && !(e is TractFull)
}

proof fn lemma_newer_none(was: Seq<(u64, Seq<u8>)>)
    ensures
        extended(was, was),
        edit::places(newer(was, was)) == Set::<u64>::empty(),
{
    assert(was.take(was.len() as int) =~= was);
    assert(edit::places(newer(was, was)) =~= Set::<u64>::empty());
}

proof fn lemma_newer_push(was: Seq<(u64, Seq<u8>)>, mid: Seq<(u64, Seq<u8>)>, m: (u64, Seq<u8>))
    requires
        extended(was, mid),
    ensures
        extended(was, mid.push(m)),
        edit::places(newer(was, mid.push(m))) == edit::places(newer(was, mid)).insert(m.0),
{
    let now = mid.push(m);
    assert(now.take(was.len() as int) =~= mid.take(was.len() as int));
    let a = newer(was, now);
    let b = newer(was, mid);
    assert(a =~= b.push(m));
    assert forall|p: u64| edit::places(a).contains(p) == edit::places(b).insert(m.0).contains(p) by {
        if edit::places(b).contains(p) {
            let i = choose|i: int| 0 <= i < b.len() && (#[trigger] b[i]).0 == p;
            assert(a[i].0 == p);
        }
        if p == m.0 {
            assert(a[b.len() as int].0 == p);
        }
        if edit::places(a).contains(p) && p != m.0 {
            let i = choose|i: int| 0 <= i < a.len() && (#[trigger] a[i]).0 == p;
            assert(b[i].0 == p);
        }
    }
    assert(edit::places(a) =~= edit::places(b).insert(m.0));
}

proof fn lemma_newer_add(was: Seq<(u64, Seq<u8>)>, more: Seq<(u64, Seq<u8>)>)
    ensures
        extended(was, was + more),
        newer(was, was + more) == more,
{
    assert((was + more).take(was.len() as int) =~= was);
    assert(newer(was, was + more) =~= more);
}

/// What a put does to what is live: it gives up only blocks of the key's path, and leads to all that it
/// adds.
pub open spec fn put_tight(
    t0: Seq<Seq<u8>>,
    ix0: Index,
    t1: Seq<Seq<u8>>,
    ix1: Index,
    key: Seq<u8>,
) -> bool {
    &&& tight::still_tight(t0, ix0, t1, ix1)
    &&& forall|p: u64| #[trigger]
        edit::places(newer(ix0.removed, ix1.removed)).contains(p) ==> ix0.path(
            t0,
            key,
        ).reads.contains(p)
}

/// Whether marks say what the blocks say.
pub open spec fn marks_true(t: Seq<Seq<u8>>, ms: Seq<(u64, Seq<u8>)>) -> bool {
    forall|i: int|
        0 <= i < ms.len() ==> (#[trigger] ms[i]).0 < t.len() && seal::hp_of(t[ms[i].0 as int])
            == Some(ms[i].1)
}

/// Makes the chain of nodes that parts two leaves from `depth` down.
fn split(
    arena: &mut Vec<Node>,
    depth: u8,
    ka: &[u8; 32],
    a: Child,
    kb: &[u8; 32],
    b: Child,
    Ghost(t): Ghost<Seq<Seq<u8>>>,
) -> (r: Result<Child>)
    requires
        depth <= 52,
        ka@ != kb@,
        trie::arena_wf(arena_view(old(arena)@)),
        edit::leaf_stands(t, a@, ka@),
        edit::leaf_stands(t, b@, kb@),
    ensures
        match r {
            Ok(c) => edit::plants(
                t,
                arena_view(old(arena)@),
                Some(a@),
                arena_view(final(arena)@),
                Some(c@),
                kb@,
                b@,
                Set::<u64>::empty(),
                depth as int,
            ) && edit::dirt(arena_view(final(arena)@), Some(c@)) == edit::dirty_slots(
                arena_view(old(arena)@),
            ) + edit::parting(ka@, kb@, depth as int),
            Err(e) => e@ == trie::too_deep() && trie::arena_wf(arena_view(final(arena)@))
                && edit::arena_within(
                arena_view(old(arena)@),
                arena_view(final(arena)@),
                Set::<int>::empty(),
            ),
        },
        key::agree(ka@, kb@, depth as int) ==> r is Ok,
    decreases 52 - depth,
{
    if depth >= 52 {
        proof {
            if key::agree(ka@, kb@, depth as int) {
                key::law_different_keys_part(ka@, kb@);
            }
        }
        return Err(corrupt_err("index deeper than its keys"));
    }
    let ghost was = arena_view(arena@);
    let ca: u8 = chunk(ka, depth);
    let cb: u8 = chunk(kb, depth);
    let idx: usize = arena.len();
    arena.push(Node::new(depth, *ka));
    let ghost bare = NodeView { depth, route: ka@, kids: doc::no_kids() };
    let ghost grown = arena_view(arena@);
    assert(grown =~= was.push(bare));
    proof {
        edit::lemma_bare_joins(was, depth, ka@);
    }
    if ca == cb {
        let sub = match split(arena, depth + 1, ka, a, kb, b, Ghost(t)) {
            Ok(c) => c,
            Err(e) => {
                proof {
                    let now = arena_view(arena@);
                    assert forall|i: int| 0 <= i < was.len() implies #[trigger] now[i] == was[i] by {
                        assert(grown[i] == was[i]);
                    }
                    if key::agree(ka@, kb@, depth as int) {
                        trie::lemma_agree_step(ka@, kb@, depth as int);
                    }
                }
                return Err(e);
            },
        };
        let ghost mid = arena_view(arena@);
        proof {
            edit::lemma_committed_walk(t, grown, grown, Some(a@), kb@, depth + 1);
            assert(mid[idx as int] == grown[idx as int]);
            assert(arena@[idx as int]@ == mid[idx as int]);
        }
        set_kid(arena, idx, ca as usize, Some(sub));
        proof {
            let n = NodeView {
                depth,
                route: ka@,
                kids: doc::no_kids().update(ca as int, Some(sub@)),
            };
            assert(arena_view(arena@) =~= mid.update(idx as int, n));
            edit::lemma_fork_shared(
                t,
                was,
                mid,
                arena_view(arena@),
                depth,
                ka@,
                a@,
                kb@,
                b@,
                Some(sub@),
            );
            edit::lemma_dirt_joins(was, bare);
            edit::lemma_dirt_kid(mid, arena_view(arena@), idx as int, ca as int, Some(sub@));
        }
    } else {
        set_kid(arena, idx, ca as usize, Some(a));
        set_kid(arena, idx, cb as usize, Some(b));
        proof {
            assert(arena_view(arena@) =~= was.push(
                edit::fork(depth, ka@, ca as int, Some(a@), cb as int, Some(b@)),
            ));
            edit::lemma_fork_apart(t, was, arena_view(arena@), depth, ka@, a@, kb@, b@);
            edit::lemma_dirt_joins(
                was,
                edit::fork(depth, ka@, ca as int, Some(a@), cb as int, Some(b@)),
            );
        }
    }
    Ok(Child::Dirty(idx))
}

impl Hamt {
    /// Gives up the older leaf of a key, and its furrows, for a new one.
    fn overwrite<A: BlockDev, B: BlockDev>(
        &mut self,
        mirror: &mut Mirror<A, B>,
        tract: &Tract,
        hash: &[u8; 32],
        lba: u64,
        depth: u8,
        key: &[u8; 32],
        leaf: Child,
    ) -> (r: Result<()>)
        requires
            tract.base + tract.len <= u64::MAX,
            trie::arena_wf(old(self)@.arena),
            edit::leaf_stands(tract.on(old(mirror).disk()), leaf@, key@),
            edit::leaf_stands(
                tract.on(old(mirror).disk()),
                (ChildView::At { hash: hash@, lba }),
                key@,
            ),
        ensures
            untouched(final(mirror), old(mirror)),
            final(self)@.root == old(self)@.root,
            final(self)@.added == old(self)@.added,
            final(self)@.arena == old(self)@.arena,
            match r {
                Ok(()) => {
                    &&& extended(old(self)@.removed, final(self)@.removed)
                    &&& edit::plants(
                        tract.on(old(mirror).disk()),
                        old(self)@.arena,
                        Some(ChildView::At { hash: hash@, lba }),
                        old(self)@.arena,
                        Some(leaf@),
                        key@,
                        leaf@,
                        edit::places(newer(old(self)@.removed, final(self)@.removed)),
                        depth as int,
                    )
                    &&& marks_true(
                        tract.on(old(mirror).disk()),
                        newer(old(self)@.removed, final(self)@.removed),
                    )
                },
                Err(e) => {
                    &&& final(self)@.removed == old(self)@.removed
                    &&& not_room(e@)
                    &&& !(sure_of(old(mirror), tract) && trie::walk(
                        tract.on(old(mirror).disk()),
                        old(self)@.arena,
                        Some(ChildView::At { hash: hash@, lba }),
                        key@,
                        depth as int,
                    ).sound())
                },
            },
    {
        let ghost t = tract.on(mirror.disk());
        let ghost was = self@.arena;
        let ghost gone0 = self@.removed;
        let ghost at = Some(ChildView::At { hash: hash@, lba });
        let ghost old_leaf = trie::doc_at(t, lba, hash@)->Ok_0->0;
        proof {
            trie::lemma_read_errors(t, lba, hash@);
            if trie::leaf_value(t, old_leaf) is Ok {
                trie::lemma_leaf_marks(t, old_leaf);
            }
        }
        self.remove_leaf_blocks(mirror, tract, lba, hash)?;
        proof {
            let ms = trie::leaf_marks(t, lba, hash@)->Ok_0;
            lemma_newer_add(gone0, ms);
            let ps = trie::leaf_positions(old_leaf)->Ok_0;
            trie::lemma_marked(t, ps, ps.len());
            let fm = trie::furrow_marks(t, old_leaf)->Ok_0;
            assert forall|p: u64| #[trigger] edit::places(ms).contains(p) implies p == lba || (
            trie::furrow_set(old_leaf).contains(p) && seal::hp_of(t[p as int]) is Some) by {
                let i = choose|i: int| 0 <= i < ms.len() && (#[trigger] ms[i]).0 == p;
                if i > 0 {
                    assert(ms[i] == fm[i - 1]);
                }
            }
            assert forall|p: u64|
                p == lba || (trie::furrow_set(old_leaf).contains(p) && seal::hp_of(
                    t[p as int],
                ) is Some) implies #[trigger] edit::places(ms).contains(p) by {
                if p == lba {
                    assert(ms[0].0 == lba);
                } else {
                    let j = choose|j: int| 0 <= j < ps.len() && ps[j] == p;
                    let h = seal::hp_of(t[ps[j] as int])->0;
                    assert(fm.contains((ps[j], h)));
                    let i = choose|i: int| 0 <= i < fm.len() && fm[i] == (ps[j], h);
                    assert(ms[i + 1] == fm[i]);
                }
            }
            edit::lemma_plant_end(t, was, at, key@, leaf@, edit::places(ms), depth as int);
            assert forall|i: int| 0 <= i < ms.len() implies (#[trigger] ms[i]).0 < t.len()
                && seal::hp_of(t[ms[i].0 as int]) == Some(ms[i].1) by {
                if i > 0 {
                    assert(ms[i] == fm[i - 1]);
                }
            }
        }
        Ok(())
    }

    /// Copy-on-write insert: returns the replacement for `slot`.
    #[verifier::rlimit(60)]
    fn insert_child<A: BlockDev, B: BlockDev>(
        &mut self,
        mirror: &mut Mirror<A, B>,
        tract: &Tract,
        slot: Option<Child>,
        depth: u8,
        key: &[u8; 32],
        leaf: Child,
    ) -> (r: Result<Child>)
        requires
            depth <= 52,
            tract.base + tract.len <= u64::MAX,
            trie::arena_wf(old(self)@.arena),
            trie::slot_wf(doc::slot_view(slot), old(self)@.arena),
            edit::leaf_stands(tract.on(old(mirror).disk()), leaf@, key@),
        ensures
            untouched(final(mirror), old(mirror)),
            final(self)@.root == old(self)@.root,
            final(self)@.added == old(self)@.added,
            match r {
                Ok(c) => {
                    &&& extended(old(self)@.removed, final(self)@.removed)
                    &&& edit::plants(
                        tract.on(old(mirror).disk()),
                        old(self)@.arena,
                        doc::slot_view(slot),
                        final(self)@.arena,
                        Some(c@),
                        key@,
                        leaf@,
                        edit::places(newer(old(self)@.removed, final(self)@.removed)),
                        depth as int,
                    )
                    &&& edit::dirt(final(self)@.arena, Some(c@)) == edit::dirt(
                        old(self)@.arena,
                        doc::slot_view(slot),
                    ) + edit::soiled(
                        tract.on(old(mirror).disk()),
                        old(self)@.arena,
                        doc::slot_view(slot),
                        key@,
                        depth as int,
                    )
                    &&& marks_true(
                        tract.on(old(mirror).disk()),
                        newer(old(self)@.removed, final(self)@.removed),
                    )
                },
                Err(e) => {
                    &&& final(self)@.removed == old(self)@.removed
                    &&& trie::arena_wf(final(self)@.arena)
                    &&& edit::arena_within(
                        old(self)@.arena,
                        final(self)@.arena,
                        Set::<int>::empty(),
                    )
                    &&& not_room(e@)
                    &&& !(sure_of(old(mirror), tract) && trie::walk(
                        tract.on(old(mirror).disk()),
                        old(self)@.arena,
                        doc::slot_view(slot),
                        key@,
                        depth as int,
                    ).sound())
                },
            },
        decreases 52 - depth,
    {
        let ghost t = tract.on(mirror.disk());
        let ghost was = self@.arena;
        let ghost gone0 = self@.removed;
        let ghost at = doc::slot_view(slot);
        proof {
            lemma_newer_none(gone0);
        }
        match slot {
            None => {
                proof {
                    edit::lemma_plant_end(
                        t,
                        was,
                        at,
                        key@,
                        leaf@,
                        Set::<u64>::empty(),
                        depth as int,
                    );
                }
                Ok(leaf)
            },
            Some(Child::Dirty(idx)) => {
                if depth >= 52 {
                    return Err(corrupt_err("index deeper than its keys"));
                }
                let c: usize = chunk(key, depth) as usize;
                assert(self.arena@[idx as int]@ == was[idx as int]);
                assert(trie::node_wf(was[idx as int], idx as int, was.len() as int));
                let sub = self.arena[idx].children[c];
                assert(doc::slot_view(sub) == was[idx as int].kids[c as int]);
                let new_sub = self.insert_child(mirror, tract, sub, depth + 1, key, leaf)?;
                let ghost mid = self@.arena;
                proof {
                    trie::lemma_nodes_above(t, was, doc::slot_view(sub), key@, depth + 1);
                    assert(mid[idx as int] == was[idx as int]);
                    assert(self.arena@[idx as int]@ == mid[idx as int]);
                }
                set_kid(&mut self.arena, idx, c, Some(new_sub));
                proof {
                    let now = self@.arena;
                    assert(now =~= mid.update(
                        idx as int,
                        NodeView {
                            kids: was[idx as int].kids.update(c as int, Some(new_sub@)),
                            ..was[idx as int]
                        },
                    ));
                    edit::lemma_plant_dirty(
                        t,
                        was,
                        mid,
                        now,
                        idx as int,
                        Some(new_sub@),
                        key@,
                        leaf@,
                        edit::places(newer(gone0, self@.removed)),
                        depth as int,
                    );
                    edit::lemma_dirt_kid(mid, now, idx as int, c as int, Some(new_sub@));
                }
                Ok(Child::Dirty(idx))
            },
            Some(Child::Committed { hash, lba }) => {
                proof {
                    trie::lemma_read_errors(t, lba, hash@);
                }
                let doc = match read_doc(mirror, tract, lba, &hash) {
                    Err(e) => return Err(e),
                    Ok(None) => {
                        proof {
                            edit::lemma_plant_end(
                                t,
                                was,
                                at,
                                key@,
                                leaf@,
                                Set::<u64>::empty(),
                                depth as int,
                            );
                        }
                        return Ok(leaf);
                    },
                    Ok(Some(d)) => d,
                };
                proof {
                    trie::lemma_doc_shape(t[lba as int]);
                }
                let (k, own) = match doc {
                    TractDoc::Node(node) => {
                        if depth >= 52 {
                            return Err(corrupt_err("index deeper than its keys"));
                        }
                        let ghost n = node@;
                        let idx: usize = self.arena.len();
                        let c: usize = chunk(key, depth) as usize;
                        let sub = node.children[c];
                        assert(doc::slot_view(sub) == n.kids[c as int]);
                        self.arena.push(node);
                        let ghost grown = self@.arena;
                        proof {
                            assert(grown =~= was.push(n));
                            edit::lemma_node_joins(was, t[lba as int], n);
                            assert(n.kids[c as int] matches Some(x) ==> x is At
                                && x->hash.len() == 32);
                            edit::lemma_committed_walk(t, was, grown, n.kids[c as int], key@, depth + 1);
                            edit::lemma_soiled(t, was, grown, n.kids[c as int], key@, depth + 1);
                        }
                        let new_sub = match self.insert_child(
                            mirror,
                            tract,
                            sub,
                            depth + 1,
                            key,
                            leaf,
                        ) {
                            Ok(x) => x,
                            Err(e) => {
                                proof {
                                    let now = self@.arena;
                                    assert forall|i: int| 0 <= i < was.len() implies #[trigger] now[i]
                                        == was[i] by {
                                        assert(grown[i] == was[i]);
                                    }
                                }
                                return Err(e);
                            },
                        };
                        let ghost mid = self@.arena;
                        let ghost gone1 = self@.removed;
                        proof {
                            assert(mid[idx as int] == grown[idx as int]);
                            assert(self.arena@[idx as int]@ == mid[idx as int]);
                        }
                        set_kid(&mut self.arena, idx, c, Some(new_sub));
                        self.delta.removed.push((lba, hash));
                        proof {
                            let now = self@.arena;
                            assert(now =~= mid.update(
                                idx as int,
                                NodeView { kids: n.kids.update(c as int, Some(new_sub@)), ..n },
                            ));
                            assert(self@.removed =~= gone1.push((lba, hash@)));
                            lemma_newer_push(gone0, gone1, (lba, hash@));
                            assert forall|i: int|
                                0 <= i < newer(gone0, self@.removed).len() implies (
                            #[trigger] newer(gone0, self@.removed)[i]).0 < t.len() && seal::hp_of(
                                t[newer(gone0, self@.removed)[i].0 as int],
                            ) == Some(newer(gone0, self@.removed)[i].1) by {
                                if i < newer(gone0, gone1).len() {
                                    assert(newer(gone0, self@.removed)[i] == newer(
                                        gone0,
                                        gone1,
                                    )[i]);
                                }
                            }
                            edit::lemma_plant_committed(
                                t,
                                was,
                                n,
                                mid,
                                now,
                                hash@,
                                lba,
                                Some(new_sub@),
                                key@,
                                leaf@,
                                edit::places(newer(gone0, gone1)),
                                depth as int,
                            );
                            edit::lemma_dirt_joins(was, n);
                            edit::lemma_dirt_kid(mid, now, idx as int, c as int, Some(new_sub@));
                        }
                        return Ok(Child::Dirty(idx));
                    },
                    TractDoc::Lone { key: k, .. }
                    | TractDoc::Direct { key: k, .. }
                    | TractDoc::Extent { key: k, .. } => {
                        let own = same32(&k, key);
                        (k, own)
                    },
                    TractDoc::Furrow { .. } => {
                        return Err(corrupt_err("furrow in index position"));
                    },
                };
                if own {
                    return match self.overwrite(mirror, tract, &hash, lba, depth, key, leaf) {
                        Ok(()) => Ok(leaf),
                        Err(e) => Err(e),
                    };
                }
                let old_child = Child::Committed { hash, lba };
                assert(edit::leaf_stands(t, old_child@, k@));
                let made = split(&mut self.arena, depth, &k, old_child, key, leaf, Ghost(t));
                made
            },
        }
    }
}

/// What an operation leaves of the tract and of what lies around it.
pub open spec fn plowed_on<A: BlockDev, B: BlockDev>(
    mirror0: &Mirror<A, B>,
    tract0: &Tract,
    mirror1: &Mirror<A, B>,
    tract1: &Tract,
) -> bool {
    &&& tract1.plowed(tract0)
    &&& mirror1.carries_on(mirror0)
    &&& tract::kept_around(
        mirror0.disk(),
        mirror1.disk(),
        tract0.base as int,
        tract0.len as int,
    )
}

/// What an operation keeps of an index.
pub open spec fn index_tended<A: BlockDev, B: BlockDev>(
    mirror0: &Mirror<A, B>,
    tract0: &Tract,
    ix0: Index,
    mirror1: &Mirror<A, B>,
    tract1: &Tract,
    ix1: Index,
) -> bool {
    keep::tended(
        tract0.on(mirror0.disk()),
        ix0,
        tract0.plow as int,
        tract0.on(mirror1.disk()),
        ix1,
        tract1.plow as int,
        tract0.reach(),
        tract0.reap + tract0.len,
    )
}

/// Whether an index is in working order over its tract.
pub open spec fn index_fit<A: BlockDev, B: BlockDev>(
    mirror: &Mirror<A, B>,
    tract: &Tract,
    ix: Index,
) -> bool {
    keep::fit(tract.on(mirror.disk()), ix, tract.plow as int, tract.reap + tract.len)
}

/// What putting a value under a key does.
pub open spec fn put_done<A: BlockDev, B: BlockDev>(
    mirror0: &Mirror<A, B>,
    tract0: &Tract,
    ix0: Index,
    mirror1: &Mirror<A, B>,
    tract1: &Tract,
    ix1: Index,
    key: Seq<u8>,
    value: Seq<u8>,
) -> bool {
    let t0 = tract0.on(mirror0.disk());
    let t1 = tract0.on(mirror1.disk());
    &&& ix1.path(t1, key).found == Ok::<Option<Seq<u8>>, ErrorView>(Some(value))
    &&& index_fit(mirror0, tract0, ix0) ==> {
        &&& keep::same_answers_but(t0, ix0, t1, ix1, key)
        &&& forall|k: Seq<u8>|
            k.len() == 32 && k != key ==> (#[trigger] ix1.path(t1, k)).leaf == ix0.path(
                t0,
                k,
            ).leaf
        &&& forall|k: Seq<u8>, p: u64|
            k.len() == 32 && (#[trigger] ix1.path(t1, k).reads.contains(p)) ==> edit::places(
                newer(ix0.removed, ix1.removed),
            ).contains(p) ==> tract::in_strip(
                p as int,
                tract0.plow as int,
                tract1.plow as int,
                tract0.len as int,
            )
        &&& forall|p: u64|
            #[trigger] ix1.path(t1, key).reads.contains(p) && seal::hp_of(t1[p as int]) is Some && (
            doc::doc_of(
                t1[p as int],
            ) matches Ok(DocView::Furrow { .. })) ==> tract::in_strip(
                p as int,
                tract0.plow as int,
                tract1.plow as int,
                tract0.len as int,
            )
    }
}

impl Hamt {
    /// Threads a leaf that was laid down into the index.
    fn plant<A: BlockDev, B: BlockDev>(
        &mut self,
        mirror: &mut Mirror<A, B>,
        tract: &Tract,
        key: &[u8; 32],
        leaf: Child,
        marks: Vec<(u64, [u8; 32])>,
        Ghost(mirror0): Ghost<Mirror<A, B>>,
        Ghost(tract0): Ghost<Tract>,
        Ghost(v): Ghost<Seq<u8>>,
    ) -> (r: Result<()>)
        requires
            old(self)@.wf(),
            tract0.wf(),
            plowed_on(&mirror0, &tract0, old(mirror), tract),
            tract::kept_outside(
                tract0.on(mirror0.disk()),
                tract0.on(old(mirror).disk()),
                tract0.plow as int,
                tract.plow as int,
            ),
            value::stored(
                tract0.on(old(mirror).disk()),
                leaf@,
                key@,
                v,
                tract0.plow as int,
                tract.plow as int,
                marks_view(marks@),
            ),
        ensures
            untouched(final(mirror), old(mirror)),
            index_tended(&mirror0, &tract0, old(self)@, final(mirror), tract, final(self)@),
            match r {
                Ok(()) => {
                    &&& put_done(
                        &mirror0,
                        &tract0,
                        old(self)@,
                        final(mirror),
                        tract,
                        final(self)@,
                        key@,
                        v,
                    )
                    &&& extended(old(self)@.removed, final(self)@.removed)
                    &&& arrived(
                        old(self)@.added,
                        final(self)@.added,
                        tract0.plow as int,
                        tract.plow as int,
                        tract0.len as int,
                    )
                    &&& index_fit(&mirror0, &tract0, old(self)@) ==> put_tight(
                        tract0.on(mirror0.disk()),
                        old(self)@,
                        tract0.on(final(mirror).disk()),
                        final(self)@,
                        key@,
                    )
                    &&& final(self)@.dirt() <= old(self)@.dirt() + 53
                    &&& index_fit(&mirror0, &tract0, old(self)@) ==> final(self)@.dirt() == old(
                        self,
                    )@.dirt() + edit::soiled(
                        tract0.on(mirror0.disk()),
                        old(self)@.arena,
                        old(self)@.root,
                        key@,
                        0,
                    )
                },
                Err(e) => {
                    &&& not_room(e@)
                    &&& !(sure_of(&mirror0, &tract0) && index_fit(&mirror0, &tract0, old(self)@))
                    &&& final(self)@.root == old(self)@.root
                    &&& final(self)@.added == old(self)@.added
                    &&& final(self)@.removed == old(self)@.removed
                    &&& index_fit(&mirror0, &tract0, old(self)@) ==> forall|k: Seq<u8>|
                        k.len() == 32 ==> #[trigger] final(self)@.path(
                            tract0.on(final(mirror).disk()),
                            k,
                        ) == old(self)@.path(tract0.on(mirror0.disk()), k)
                },
            },
    {
        let ghost t0 = tract0.on(mirror0.disk());
        let ghost t1 = tract0.on(mirror.disk());
        let ghost ix0 = self@;
        let ghost from = tract0.plow as int;
        let ghost mid = tract.plow as int;
        let ghost to = tract0.reap + tract0.len;
        let ghost more = marks_view(marks@);
        proof {
            if index_fit(&mirror0, &tract0, ix0) {
                keep::lemma_undisturbed(t0, t1, ix0, from, mid, to);
                assert(ix0.path(t1, key@) == ix0.path(t0, key@));
            }
            assert forall|q: int|
                0 <= q < t0.len() && !tract::in_strip(
                    q,
                    from,
                    tract0.reach(),
                    t0.len() as int,
                ) implies #[trigger] t1[q] == t0[q] by {}
            edit::lemma_soiled(t1, ix0.arena, ix0.arena, ix0.root, key@, 0);
            if index_fit(&mirror0, &tract0, ix0) {
                assert forall|p: u64| #[trigger]
                    trie::walk(t0, ix0.arena, ix0.root, key@, 0).reads.contains(p) && p
                        < t0.len() implies t1[p as int] == t0[p as int] by {
                    assert(ix0.path(t0, key@).reads.contains(p));
                    assert(!tract::in_strip(p as int, from, to, t0.len() as int));
                    assert(!tract::in_strip(p as int, from, tract0.reach(), t0.len() as int));
                }
                edit::lemma_soiled_same(t0, t1, ix0.arena, ix0.root, key@, 0);
            }
        }
        let root = self.root;
        let mut marks = marks;
        match self.insert_child(mirror, tract, root, 0, key, leaf) {
            Err(e) => {
                proof {
                    keep::lemma_unplanted(
                        t0,
                        ix0,
                        from,
                        t1,
                        self@,
                        mid,
                        tract0.reach(),
                        to,
                    );
                }
                Err(e)
            },
            Ok(c) => {
                self.root = Some(c);
                self.delta.added.append(&mut marks);
                proof {
                    let ix1 = self@;
                    let gone = newer(ix0.removed, ix1.removed);
                    assert(ix1.added =~= ix0.added + more);
                    assert(ix1.removed =~= ix0.removed + gone);
                    assert(arrived(ix0.added, ix1.added, from, mid, tract0.len as int)) by {
                        assert(ix1.added.take(ix0.added.len() as int) =~= ix0.added);
                        assert forall|i: int| ix0.added.len() <= i < ix1.added.len() implies (
                        #[trigger] ix1.added[i]).0 < tract0.len && tract::in_strip(
                            ix1.added[i].0 as int,
                            from,
                            mid,
                            tract0.len as int,
                        ) by {
                            assert(more[i - ix0.added.len()] == ix1.added[i]);
                        }
                    }
                    if keep::fit(t0, ix0, from, to) {
                        keep::lemma_planted(
                            t0,
                            ix0,
                            from,
                            t1,
                            ix1,
                            mid,
                            to,
                            key@,
                            leaf@,
                            more,
                            gone,
                        );
                        assert forall|k: Seq<u8>, p: u64|
                            k.len() == 32 && (#[trigger] ix1.path(t1, k).reads.contains(p))
                                && edit::places(gone).contains(p) implies tract::in_strip(
                            p as int,
                            from,
                            mid,
                            tract0.len as int,
                        ) by {
                            let i = choose|i: int|
                                0 <= i < more.len() && (#[trigger] more[i]).0 == p;
                            assert(more[i].0 == p);
                        }
                        assert forall|p: u64| #[trigger]
                            ix1.path(t1, key@).reads.contains(p) && seal::hp_of(t1[p as int]) is Some
                                && (doc::doc_of(
                                t1[p as int],
                            ) matches Ok(DocView::Furrow { .. })) implies tract::in_strip(
                            p as int,
                            from,
                            mid,
                            tract0.len as int,
                        ) by {
                            trie::lemma_sound_reads(t1, ix1.arena, ix1.root, key@, 0);
                            trie::lemma_furrow_reads(t1, ix1.arena, ix1.root, key@, 0, p);
                            edit::lemma_ending(t1, leaf@, key@, key@, 0, 0);
                            let end = edit::ending(t1, leaf@, key@, 0);
                            assert(end.reads.contains(p));
                            let i = choose|i: int|
                                0 <= i < more.len() && (#[trigger] more[i]).0 == p;
                            assert(more[i].0 == p);
                        }
                        assert forall|p: u64| #[trigger]
                            edit::places(more).contains(p) implies tight::led_to(t1, ix1, p) by {
                            assert(edit::ending(t1, leaf@, key@, 0).reads.contains(p));
                            assert(ix1.path(t1, key@).reads.contains(p));
                        }
                        assert forall|i: int| 0 <= i < gone.len() implies (#[trigger] gone[i]).0
                            < t0.len() && seal::hp_of(t0[gone[i].0 as int]) == Some(gone[i].1) by {
                            assert(edit::places(gone).contains(gone[i].0));
                        }
                        tight::lemma_tight(t0, ix0, t1, ix1, more, gone);
                    }
                }
                Ok(())
            },
        }
    }

    /// Inserts or overwrites. Leaf and furrow blocks are appended to the tract at once; the index
    /// path goes dirty in memory until `flush`. A refused append leaves no side effects: room is
    /// asked for before a block is written.
    pub fn put<A: BlockDev, B: BlockDev>(
        &mut self,
        mirror: &mut Mirror<A, B>,
        tract: &mut Tract,
        key: &[u8; 32],
        value: &[u8],
    ) -> (r: Result<()>)
        requires
            old(self)@.wf(),
            old(tract).wf(),
            old(mirror).has_device(),
        ensures
            plowed_on(old(mirror), old(tract), final(mirror), final(tract)),
            index_tended(
                old(mirror),
                old(tract),
                old(self)@,
                final(mirror),
                final(tract),
                final(self)@,
            ),
            extended(old(self)@.removed, final(self)@.removed),
            match r {
                Ok(()) => {
                    &&& value::value_refusal(old(tract), value@.len()) is None
                    &&& final(tract).plow == old(tract).plow + value::body_blocks(value@.len()) + 1
                    &&& put_done(
                        old(mirror),
                        old(tract),
                        old(self)@,
                        final(mirror),
                        final(tract),
                        final(self)@,
                        key@,
                        value@,
                    )
                    &&& arrived(
                        old(self)@.added,
                        final(self)@.added,
                        old(tract).plow as int,
                        final(tract).plow as int,
                        old(tract).len as int,
                    )
                    &&& index_fit(old(mirror), old(tract), old(self)@) ==> put_tight(
                        old(tract).on(old(mirror).disk()),
                        old(self)@,
                        old(tract).on(final(mirror).disk()),
                        final(self)@,
                        key@,
                    )
                    &&& final(self)@.dirt() <= old(self)@.dirt() + 53
                    &&& index_fit(old(mirror), old(tract), old(self)@) ==> final(self)@.dirt()
                        == old(self)@.dirt() + edit::soiled(
                        old(tract).on(old(mirror).disk()),
                        old(self)@.arena,
                        old(self)@.root,
                        key@,
                        0,
                    )
                },
                Err(e) => {
                    &&& value::value_refusal(old(tract), value@.len()) == Some(e@) || (not_room(e@)
                        && !(sure_of(old(mirror), old(tract)) && index_fit(
                        old(mirror),
                        old(tract),
                        old(self)@,
                    )))
                    &&& final(self)@.root == old(self)@.root
                    &&& final(self)@.added == old(self)@.added
                    &&& final(self)@.removed == old(self)@.removed
                    &&& index_fit(old(mirror), old(tract), old(self)@) ==> forall|k: Seq<u8>|
                        k.len() == 32 ==> #[trigger] final(self)@.path(
                            old(tract).on(final(mirror).disk()),
                            k,
                        ) == old(self)@.path(old(tract).on(old(mirror).disk()), k)
                },
            },
            value::value_refusal(old(tract), value@.len()) matches Some(x) ==> {
                &&& r matches Err(e) && e@ == x
                &&& *final(self) == *old(self)
                &&& *final(tract) == *old(tract)
                &&& *final(mirror) == *old(mirror)
            },
    {
        let ghost mirror0 = *mirror;
        let ghost tract0 = *tract;
        proof {
            lemma_newer_none(self@.removed);
        }
        match place_value(mirror, tract, key, value) {
            Err(e) => {
                proof {
                    keep::lemma_unplanted(
                        tract0.on(mirror0.disk()),
                        self@,
                        tract0.plow as int,
                        tract0.on(mirror.disk()),
                        self@,
                        tract.plow as int,
                        tract0.reach(),
                        tract0.reap + tract0.len,
                    );
                }
                Err(e)
            },
            Ok((leaf, marks)) => {
                proof {
                    edit::lemma_ending(
                        tract0.on(mirror.disk()),
                        leaf@,
                        key@,
                        key@,
                        0,
                        0,
                    );
                }
                self.plant(
                    mirror,
                    tract,
                    key,
                    leaf,
                    marks,
                    Ghost(mirror0),
                    Ghost(tract0),
                    Ghost(value@),
                )
            },
        }
    }

    /// Writes a value in the older layout, one address per furrow, as engines before extents did.
    /// Migration tests build old state with it.
    pub fn put_legacy_direct_for_tests<A: BlockDev, B: BlockDev>(
        &mut self,
        mirror: &mut Mirror<A, B>,
        tract: &mut Tract,
        key: &[u8; 32],
        value: &[u8],
    ) -> (r: Result<()>)
        requires
            old(self)@.wf(),
            old(tract).wf(),
            old(mirror).has_device(),
            value@.len() <= 250 * 3927,
        ensures
            plowed_on(old(mirror), old(tract), final(mirror), final(tract)),
            index_tended(
                old(mirror),
                old(tract),
                old(self)@,
                final(mirror),
                final(tract),
                final(self)@,
            ),
            match r {
                Ok(()) => {
                    &&& final(tract).plow == old(tract).plow + extent::furrow_count(value@.len())
                        + 1
                    &&& put_done(
                        old(mirror),
                        old(tract),
                        old(self)@,
                        final(mirror),
                        final(tract),
                        final(self)@,
                        key@,
                        value@,
                    )
                    &&& final(self)@.dirt() <= old(self)@.dirt() + 53
                },
                Err(e) => index_fit(old(mirror), old(tract), old(self)@) ==> keep::same_answers(
                    old(tract).on(old(mirror).disk()),
                    old(self)@,
                    old(tract).on(final(mirror).disk()),
                    final(self)@,
                ),
            },
            sure_of(old(mirror), old(tract)) && index_fit(old(mirror), old(tract), old(self)@)
                && old(tract).refusal(extent::furrow_count(value@.len()) + 1) is None ==> r is Ok,
    {
        let ghost mirror0 = *mirror;
        let ghost tract0 = *tract;
        match place_furrows(mirror, tract, key, value, true) {
            Err(e) => {
                proof {
                    keep::lemma_unplanted(
                        tract0.on(mirror0.disk()),
                        self@,
                        tract0.plow as int,
                        tract0.on(mirror.disk()),
                        self@,
                        tract.plow as int,
                        tract0.reach(),
                        tract0.reap + tract0.len,
                    );
                }
                Err(e)
            },
            Ok((leaf, marks)) => {
                self.plant(
                    mirror,
                    tract,
                    key,
                    leaf,
                    marks,
                    Ghost(mirror0),
                    Ghost(tract0),
                    Ghost(value@),
                )
            },
        }
    }

    /// Descends along `key` to the child that points at exactly `old`, copying the path, and swaps
    /// in `new`, or nothing. Stops at `target_depth` for internal nodes; 255 is a leaf hunt.
    #[verifier::rlimit(60)]
    fn repoint<A: BlockDev, B: BlockDev>(
        &mut self,
        mirror: &mut Mirror<A, B>,
        tract: &Tract,
        slot: Option<Child>,
        depth: u8,
        key: &[u8; 32],
        target_depth: u8,
        old_hash: &[u8; 32],
        old_lba: u64,
        new: Option<Child>,
    ) -> (r: Result<Option<Child>>)
        requires
            depth <= 52,
            tract.base + tract.len <= u64::MAX,
            trie::arena_wf(old(self)@.arena),
            trie::slot_wf(doc::slot_view(slot), old(self)@.arena),
            new matches Some(c) ==> c is Committed,
        ensures
            untouched(final(mirror), old(mirror)),
            final(self)@.root == old(self)@.root,
            final(self)@.added == old(self)@.added,
            match r {
                Ok(c) => {
                    &&& extended(old(self)@.removed, final(self)@.removed)
                    &&& swap::swaps(
                        tract.on(old(mirror).disk()),
                        old(self)@.arena,
                        doc::slot_view(slot),
                        final(self)@.arena,
                        doc::slot_view(c),
                        key@,
                        (ChildView::At { hash: old_hash@, lba: old_lba }),
                        doc::slot_view(new),
                        edit::places(newer(old(self)@.removed, final(self)@.removed)),
                        depth as int,
                        target_depth as int,
                    )
                    &&& edit::dirt(final(self)@.arena, doc::slot_view(c)) <= edit::dirt(
                        old(self)@.arena,
                        doc::slot_view(slot),
                    ) + edit::thawed(
                        tract.on(old(mirror).disk()),
                        old(self)@.arena,
                        doc::slot_view(slot),
                        key@,
                        depth as int,
                    )
                },
                Err(e) => {
                    &&& final(self)@.removed == old(self)@.removed
                    &&& trie::arena_wf(final(self)@.arena)
                    &&& edit::arena_within(
                        old(self)@.arena,
                        final(self)@.arena,
                        Set::<int>::empty(),
                    )
                    &&& not_room(e@)
                    &&& sure_of(old(mirror), tract) ==> {
                        let t = trie::walk(
                            tract.on(old(mirror).disk()),
                            old(self)@.arena,
                            doc::slot_view(slot),
                            key@,
                            depth as int,
                        );
                        &&& !t.whole
                        &&& !(t.stop is Some && (t.stop->0).0 == old_hash@ && (t.stop->0).1
                            == old_lba && t.placed)
                    }
                },
            },
        decreases 52 - depth,
    {
        let ghost t = tract.on(mirror.disk());
        let ghost was = self@.arena;
        let ghost gone0 = self@.removed;
        let ghost at = doc::slot_view(slot);
        let ghost old_at = ChildView::At { hash: old_hash@, lba: old_lba };
        let ghost new_at = doc::slot_view(new);
        proof {
            lemma_newer_none(gone0);
        }
        match slot {
            None => {
                proof {
                    swap::lemma_swap_none(
                        t,
                        was,
                        at,
                        key@,
                        old_at,
                        new_at,
                        depth as int,
                        target_depth as int,
                    );
                }
                Ok(None)
            },
            Some(Child::Committed { hash, lba }) => {
                if lba == old_lba && same32(&hash, old_hash) {
                    proof {
                        swap::lemma_swap_hit(
                            t,
                            was,
                            key@,
                            old_at,
                            new_at,
                            depth as int,
                            target_depth as int,
                        );
                    }
                    return Ok(new);
                }
                if target_depth != 255 && depth as u16 > target_depth as u16 + 1 {
                    proof {
                        swap::lemma_swap_none(
                            t,
                            was,
                            at,
                            key@,
                            old_at,
                            new_at,
                            depth as int,
                            target_depth as int,
                        );
                    }
                    return Ok(Some(Child::Committed { hash, lba }));
                }
                proof {
                    trie::lemma_read_errors(t, lba, hash@);
                }
                let doc = match read_doc(mirror, tract, lba, &hash) {
                    Err(e) => return Err(e),
                    Ok(d) => d,
                };
                let node = match doc {
                    Some(TractDoc::Node(n)) => n,
                    _ => {
                        proof {
                            swap::lemma_swap_none(
                                t,
                                was,
                                at,
                                key@,
                                old_at,
                                new_at,
                                depth as int,
                                target_depth as int,
                            );
                        }
                        return Ok(Some(Child::Committed { hash, lba }));
                    },
                };
                if depth >= 52 {
                    return Err(corrupt_err("index deeper than its keys"));
                }
                let ghost n = node@;
                proof {
                    trie::lemma_doc_shape(t[lba as int]);
                }
                let idx: usize = self.arena.len();
                let c: usize = chunk(key, depth) as usize;
                let sub = node.children[c];
                assert(doc::slot_view(sub) == n.kids[c as int]);
                self.arena.push(node);
                let ghost grown = self@.arena;
                proof {
                    assert(grown =~= was.push(n));
                    edit::lemma_node_joins(was, t[lba as int], n);
                    assert(n.kids[c as int] matches Some(x) ==> x is At && x->hash.len() == 32);
                    edit::lemma_committed_walk(t, was, grown, n.kids[c as int], key@, depth + 1);
                    edit::lemma_soiled(t, was, grown, n.kids[c as int], key@, depth + 1);
                }
                let new_sub = match self.repoint(
                    mirror,
                    tract,
                    sub,
                    depth + 1,
                    key,
                    target_depth,
                    old_hash,
                    old_lba,
                    new,
                ) {
                    Ok(x) => x,
                    Err(e) => {
                        proof {
                            let now = self@.arena;
                            assert forall|i: int| 0 <= i < was.len() implies #[trigger] now[i]
                                == was[i] by {
                                assert(grown[i] == was[i]);
                            }
                        }
                        return Err(e);
                    },
                };
                let ghost mid = self@.arena;
                let ghost gone1 = self@.removed;
                proof {
                    edit::lemma_committed_walk(t, grown, grown, n.kids[c as int], key@, depth + 1);
                    assert(mid[idx as int] == grown[idx as int]);
                    assert(self.arena@[idx as int]@ == mid[idx as int]);
                }
                set_kid(&mut self.arena, idx, c, new_sub);
                self.delta.removed.push((lba, hash));
                proof {
                    let now = self@.arena;
                    assert(now =~= mid.update(
                        idx as int,
                        NodeView {
                            kids: n.kids.update(c as int, doc::slot_view(new_sub)),
                            ..n
                        },
                    ));
                    assert(self@.removed =~= gone1.push((lba, hash@)));
                    lemma_newer_push(gone0, gone1, (lba, hash@));
                    swap::lemma_swap_committed(
                        t,
                        was,
                        n,
                        mid,
                        now,
                        hash@,
                        lba,
                        doc::slot_view(new_sub),
                        key@,
                        old_at,
                        new_at,
                        edit::places(newer(gone0, gone1)),
                        depth as int,
                        target_depth as int,
                    );
                    edit::lemma_dirt_joins(was, n);
                    edit::lemma_dirt_kid(mid, now, idx as int, c as int, doc::slot_view(new_sub));
                }
                Ok(Some(Child::Dirty(idx)))
            },
            Some(Child::Dirty(idx)) => {
                if depth >= 52 {
                    return Err(corrupt_err("index deeper than its keys"));
                }
                let c: usize = chunk(key, depth) as usize;
                assert(self.arena@[idx as int]@ == was[idx as int]);
                assert(trie::node_wf(was[idx as int], idx as int, was.len() as int));
                let sub = self.arena[idx].children[c];
                assert(doc::slot_view(sub) == was[idx as int].kids[c as int]);
                let new_sub = self.repoint(
                    mirror,
                    tract,
                    sub,
                    depth + 1,
                    key,
                    target_depth,
                    old_hash,
                    old_lba,
                    new,
                )?;
                let ghost mid = self@.arena;
                proof {
                    trie::lemma_nodes_above(t, was, doc::slot_view(sub), key@, depth + 1);
                    assert(mid[idx as int] == was[idx as int]);
                    assert(self.arena@[idx as int]@ == mid[idx as int]);
                }
                set_kid(&mut self.arena, idx, c, new_sub);
                proof {
                    let now = self@.arena;
                    assert(now =~= mid.update(
                        idx as int,
                        NodeView {
                            kids: was[idx as int].kids.update(c as int, doc::slot_view(new_sub)),
                            ..was[idx as int]
                        },
                    ));
                    swap::lemma_swap_dirty(
                        t,
                        was,
                        mid,
                        now,
                        idx as int,
                        doc::slot_view(new_sub),
                        key@,
                        old_at,
                        new_at,
                        edit::places(newer(gone0, self@.removed)),
                        depth as int,
                        target_depth as int,
                    );
                    edit::lemma_dirt_kid(mid, now, idx as int, c as int, doc::slot_view(new_sub));
                }
                Ok(Some(Child::Dirty(idx)))
            },
        }
    }

    /// Writes one arena node to the tract, its children first.
    #[verifier::rlimit(60)]
    fn flush_node<A: BlockDev, B: BlockDev>(
        &mut self,
        mirror: &mut Mirror<A, B>,
        tract: &mut Tract,
        idx: usize,
    ) -> (r: Result<([u8; 32], u64)>)
        requires
            trie::arena_wf(old(self)@.arena),
            idx < old(self)@.arena.len(),
            old(tract).wf(),
            old(mirror).has_device(),
        ensures
            plowed_on(old(mirror), old(tract), final(mirror), final(tract)),
            tract::kept_outside(
                old(tract).on(old(mirror).disk()),
                old(tract).on(final(mirror).disk()),
                old(tract).plow as int,
                old(tract).reach(),
            ),
            final(self)@.root == old(self)@.root,
            final(self)@.removed == old(self)@.removed,
            final(self)@.arena.len() == old(self)@.arena.len(),
            trie::arena_wf(final(self)@.arena),
            forall|i: int|
                0 <= i < idx ==> #[trigger] final(self)@.arena[i] == old(self)@.arena[i],
            extended(old(self)@.added, final(self)@.added),
            settle::marks_stand(
                old(tract).on(final(mirror).disk()),
                newer(old(self)@.added, final(self)@.added),
                old(tract).plow as int,
                final(tract).plow as int,
            ),
            settle::all_alike(
                old(tract).on(old(mirror).disk()),
                old(self)@.arena,
                old(tract).on(final(mirror).disk()),
                final(self)@.arena,
                edit::places(newer(old(self)@.added, final(self)@.added)),
                old(tract).plow as int,
                old(tract).reap + old(tract).len,
            ),
            match r {
                Ok((h, l)) => {
                    &&& trie::doc_at(old(tract).on(final(mirror).disk()), l, h@) == Ok::<
                        Option<DocView>,
                        ErrorView,
                    >(Some(DocView::Node(final(self)@.arena[idx as int])))
                    &&& doc::all_at(final(self)@.arena[idx as int].kids)
                    &&& edit::places(newer(old(self)@.added, final(self)@.added)).contains(l)
                    &&& forall|p: u64| #[trigger]
                        edit::places(newer(old(self)@.added, final(self)@.added)).contains(p)
                            ==> tight::hangs(
                            old(tract).on(final(mirror).disk()),
                            Some(ChildView::At { hash: h@, lba: l }),
                            p,
                            edit::places(newer(old(self)@.added, final(self)@.added)),
                            (old(self)@.arena.len() - idx) as nat,
                        )
                },
                Err(e) => final(tract).refusal(1) == Some(e@) || (block::device_error(e@)
                    && !sure_of(old(mirror), old(tract))),
            },
            final(tract).plow + edit::dirty_slots(final(self)@.arena) <= old(tract).plow
                + edit::dirty_slots(old(self)@.arena) + (if r is Ok {
                1int
            } else {
                0
            }),
        decreases old(self)@.arena.len() - idx,
    {
        let ghost mirror0 = *mirror;
        let ghost tract0 = *tract;
        let ghost t0 = tract.on(mirror.disk());
        let ghost a0 = self@.arena;
        let ghost added0 = self@.added;
        let ghost from = tract.plow as int;
        let ghost to = tract.reap + tract.len;
        let ghost reach = tract.reach();
        proof {
            lemma_newer_none(added0);
            settle::lemma_alike_self(t0, a0, Set::<u64>::empty(), from, to);
        }
        let mut c: usize = 0;
        while c < 32
            invariant
                c <= 32,
                tract.plow + edit::dirty_slots(self@.arena) <= from + edit::dirty_slots(a0),
                forall|x: int|
                    c <= x < 32 ==> #[trigger] self@.arena[idx as int].kids[x]
                        == a0[idx as int].kids[x],
                trie::arena_wf(a0),
                tract0.wf(),
                mirror0 == *old(mirror),
                tract0 == *old(tract),
                mirror0.has_device(),
                a0 == old(self)@.arena,
                added0 == old(self)@.added,
                t0 == tract0.on(mirror0.disk()),
                from == tract0.plow,
                to == tract0.reap + tract0.len,
                reach == tract0.reach(),
                idx < a0.len(),
                plowed_on(&mirror0, &tract0, mirror, tract),
                tract::kept_outside(t0, tract0.on(mirror.disk()), from, reach),
                self@.root == old(self)@.root,
                self@.removed == old(self)@.removed,
                self@.arena.len() == a0.len(),
                trie::arena_wf(self@.arena),
                forall|i: int| 0 <= i < idx ==> #[trigger] self@.arena[i] == a0[i],
                extended(added0, self@.added),
                settle::marks_stand(
                    tract0.on(mirror.disk()),
                    newer(added0, self@.added),
                    from,
                    tract.plow as int,
                ),
                settle::all_alike(
                    t0,
                    a0,
                    tract0.on(mirror.disk()),
                    self@.arena,
                    edit::places(newer(added0, self@.added)),
                    from,
                    to,
                ),
                forall|x: int|
                    0 <= x < c ==> !((#[trigger] self@.arena[idx as int].kids[x]) matches Some(
                        ChildView::Dirty(_),
                    )),
                tight::shelved(
                    tract0.on(mirror.disk()),
                    self@.arena[idx as int].kids,
                    newer(added0, self@.added),
                    c as int,
                    (a0.len() - idx - 1) as nat,
                ),
            decreases 32 - c,
        {
            let ghost ti = tract0.on(mirror.disk());
            let ghost ai = self@.arena;
            let ghost added_i = self@.added;
            let ghost mid = tract.plow as int;
            let ghost tract_i = *tract;
            assert(self.arena@[idx as int]@ == ai[idx as int]);
            assert(trie::node_wf(ai[idx as int], idx as int, ai.len() as int));
            let kid = self.arena[idx].children[c];
            assert(doc::slot_view(kid) == ai[idx as int].kids[c as int]);
            if let Some(Child::Dirty(sub)) = kid {
                let done = self.flush_node(mirror, tract, sub);
                let ghost tj = tract0.on(mirror.disk());
                let ghost aj = self@.arena;
                let ghost added_j = self@.added;
                let ghost end = tract.plow as int;
                let ghost f = newer(added0, added_i);
                let ghost g = newer(added_i, added_j);
                proof {
                    assert(tract_i.reach() == reach);
                    assert(newer(added0, added_j) =~= f + g);
                    assert(added_j.take(added0.len() as int) =~= added_i.take(added0.len() as int));
                    settle::lemma_marks_stay(ti, tj, f, g, from, mid, end, reach);
                    settle::lemma_marks_within(ti, f, from, mid);
                    settle::lemma_alike_twice(
                        t0,
                        a0,
                        ti,
                        ai,
                        tj,
                        aj,
                        edit::places(f),
                        edit::places(g),
                        edit::places(f + g),
                        from,
                        mid,
                        to,
                        None,
                        None,
                        None,
                    );
                    assert(tract::kept_outside(t0, tj, from, reach)) by {
                        assert forall|q: int|
                            0 <= q < t0.len() && !tract::in_strip(
                                q,
                                from,
                                reach,
                                t0.len() as int,
                            ) implies #[trigger] tj[q] == t0[q] by {
                            if tract::in_strip(q, mid, reach, t0.len() as int) {
                                tract::lemma_strip_tail(q, from, mid, reach, t0.len() as int);
                            }
                            assert(ti[q] == t0[q]);
                        }
                    }
                }
                let (h, l) = match done {
                    Ok(x) => x,
                    Err(e) => return Err(e),
                };
                assert(aj[idx as int] == ai[idx as int]);
                assert(self.arena@[idx as int]@ == aj[idx as int]);
                set_kid(&mut self.arena, idx, c, Some(Child::Committed { hash: h, lba: l }));
                proof {
                    let new = ChildView::At { hash: h@, lba: l };
                    let one = Set::<u64>::empty().insert(l);
                    let ak = self@.arena;
                    assert(ak =~= aj.update(
                        idx as int,
                        NodeView {
                            kids: aj[idx as int].kids.update(c as int, Some(new)),
                            ..aj[idx as int]
                        },
                    ));
                    settle::lemma_alike_written(tj, aj, sub as int, h@, l, end, to);
                    settle::lemma_alike_kid(tj, aj, idx as int, c as int, new, one, end, to);
                    edit::lemma_dirt_kid(aj, ak, idx as int, c as int, Some(new));
                    settle::lemma_marks_within(tj, f + g, from, end);
                    settle::lemma_alike_twice(
                        t0,
                        a0,
                        tj,
                        aj,
                        tj,
                        ak,
                        edit::places(f + g),
                        one,
                        edit::places(f + g),
                        from,
                        end,
                        to,
                        None,
                        None,
                        None,
                    );
                    assert(self@.added == added_j);
                    settle::lemma_marks_blocks(ti, tj, f, from, mid, reach);
                    assert(aj[idx as int].kids == ai[idx as int].kids);
                    tight::lemma_shelved_kid(
                        ti,
                        tj,
                        ai[idx as int].kids,
                        ak[idx as int].kids,
                        f,
                        g,
                        c as int,
                        (a0.len() - idx - 1) as nat,
                        (a0.len() - sub) as nat,
                    );
                }
            } else {
                proof {
                    tight::lemma_shelved_more(
                        ti,
                        ai[idx as int].kids,
                        newer(added0, added_i),
                        c as int,
                        (a0.len() - idx - 1) as nat,
                    );
                }
            }
            c = c + 1;
        }
        let ghost ti = tract0.on(mirror.disk());
        let ghost ai = self@.arena;
        let ghost added_i = self@.added;
        let ghost mid = tract.plow as int;
        let ghost tract_i = *tract;
        let ghost n = ai[idx as int];
        assert(self.arena@[idx as int]@ == n);
        proof {
            assert(trie::node_wf(n, idx as int, ai.len() as int));
            assert(doc::all_at(n.kids)) by {
                assert forall|x: int| 0 <= x < n.kids.len() implies ((#[trigger] n.kids[x]) matches Some(y)
                    ==> y is At && y->hash.len() == 32) by {
                    assert(!(n.kids[x] matches Some(ChildView::Dirty(_))));
                }
            }
            doc::law_doc_reads_back(DocView::Node(n));
        }
        let b = encode_node(&self.arena[idx]);
        let done = append_one(mirror, tract, &b);
        let ghost tj = tract0.on(mirror.disk());
        proof {
            assert(tract_i.reach() == reach);
            let none = Seq::<(u64, Seq<u8>)>::empty();
            settle::lemma_alike_tract(ti, ai, tj, mid, reach, to);
            settle::lemma_marks_within(ti, newer(added0, added_i), from, mid);
            settle::lemma_alike_twice(
                t0,
                a0,
                ti,
                ai,
                tj,
                ai,
                edit::places(newer(added0, added_i)),
                Set::<u64>::empty(),
                edit::places(newer(added0, added_i)),
                from,
                mid,
                to,
                None,
                None,
                None,
            );
            settle::lemma_marks_stay(
                ti,
                tj,
                newer(added0, added_i),
                none,
                from,
                mid,
                tract.plow as int,
                reach,
            );
            assert(newer(added0, added_i) + none =~= newer(added0, added_i));
            assert(tract::kept_outside(t0, tj, from, reach)) by {
                assert forall|q: int|
                    0 <= q < t0.len() && !tract::in_strip(
                        q,
                        from,
                        reach,
                        t0.len() as int,
                    ) implies #[trigger] tj[q] == t0[q] by {
                    if tract::in_strip(q, mid, reach, t0.len() as int) {
                        tract::lemma_strip_tail(q, from, mid, reach, t0.len() as int);
                    }
                    assert(ti[q] == t0[q]);
                }
            }
        }
        let (lba, hash) = match done {
            Ok(x) => x,
            Err(e) => return Err(e),
        };
        self.delta.added.push((lba, hash));
        proof {
            assert(self@.added =~= added_i.push((lba, hash@)));
            lemma_newer_push(added0, added_i, (lba, hash@));
            let one = seq![(lba, hash@)];
            assert(newer(added0, self@.added) =~= newer(added0, added_i) + one);
            assert(settle::marks_stand(tj, one, mid, tract.plow as int));
            settle::lemma_marks_stay(
                ti,
                tj,
                newer(added0, added_i),
                one,
                from,
                mid,
                tract.plow as int,
                reach,
            );
            assert(self@.arena =~= ai);
            settle::lemma_marks_blocks(ti, tj, newer(added0, added_i), from, mid, reach);
            assert forall|p: u64| #[trigger] edit::places(one).contains(p) == (p == lba) by {
                assert(one[0].0 == lba);
            }
            tight::lemma_shelved_node(
                ti,
                tj,
                n,
                newer(added0, added_i),
                newer(added0, self@.added),
                hash@,
                lba,
                (a0.len() - idx - 1) as nat,
            );
            let f = edit::places(newer(added0, added_i));
            let g = edit::places(newer(added0, self@.added));
            assert forall|slot: Option<ChildView>, k: Seq<u8>, d: int|
                k.len() == 32 && trie::slot_wf(slot, a0) && settle::clear(
                    trie::walk(t0, a0, slot, k, d),
                    from,
                    to,
                    t0.len() as int,
                ) implies settle::alike(
                trie::walk(t0, a0, slot, k, d),
                #[trigger] trie::walk(tj, ai, slot, k, d),
                g,
            ) by {
                assert(settle::alike(
                    trie::walk(t0, a0, slot, k, d),
                    trie::walk(tj, ai, slot, k, d),
                    f,
                ));
            }
        }
        Ok((hash, lba))
    }

    /// Writes every dirty node to the tract, bottom-up, and returns the new committed root. The
    /// all-zero hash is the empty index. A refused append leaves the nodes that were written
    /// committed in the arena, and a retry goes on where it stopped.
    pub fn flush<A: BlockDev, B: BlockDev>(
        &mut self,
        mirror: &mut Mirror<A, B>,
        tract: &mut Tract,
    ) -> (r: Result<([u8; 32], u64)>)
        requires
            old(self)@.wf(),
            old(tract).wf(),
            old(mirror).has_device(),
        ensures
            plowed_on(old(mirror), old(tract), final(mirror), final(tract)),
            index_tended(
                old(mirror),
                old(tract),
                old(self)@,
                final(mirror),
                final(tract),
                final(self)@,
            ),
            final(self)@.removed == old(self)@.removed,
            arrived(
                old(self)@.added,
                final(self)@.added,
                old(tract).plow as int,
                final(tract).plow as int,
                old(tract).len as int,
            ),
            index_fit(old(mirror), old(tract), old(self)@) ==> keep::same_answers(
                old(tract).on(old(mirror).disk()),
                old(self)@,
                old(tract).on(final(mirror).disk()),
                final(self)@,
            ) && (forall|k: Seq<u8>|
                k.len() == 32 ==> (#[trigger] final(self)@.path(
                    old(tract).on(final(mirror).disk()),
                    k,
                )).leaf == old(self)@.path(old(tract).on(old(mirror).disk()), k).leaf),
            r is Ok && index_fit(old(mirror), old(tract), old(self)@) ==> tight::still_tight(
                old(tract).on(old(mirror).disk()),
                old(self)@,
                old(tract).on(final(mirror).disk()),
                final(self)@,
            ),
            final(tract).plow <= old(tract).plow + old(self)@.dirt(),
            final(tract).plow + final(self)@.dirt() <= old(tract).plow + old(self)@.dirt(),
            r matches Err(e) ==> e@ == error::corrupt("root hash stands for the empty index")
                || final(tract).plow < old(tract).plow + old(self)@.dirt(),
            (exists|h: Seq<u8>, l: u64| #[trigger] root_slot(h, l) == old(self)@.root) ==> r is Ok
                && final(self)@.added == old(self)@.added,
            match r {
                Ok((h, l)) => final(self)@.root == root_slot(h@, l) && flush_says(
                    old(self)@.root,
                    (h@, l),
                    final(self)@.root,
                ) && final(self)@.arena.len() == 0,
                Err(e) => {
                    ||| final(tract).refusal(1) == Some(e@)
                    ||| block::device_error(e@) && !sure_of(old(mirror), old(tract))
                    ||| e@ == error::corrupt("root hash stands for the empty index")
                },
            },
    {
        let ghost tract0 = *tract;
        let ghost ix0 = self@;
        let ghost t0 = tract.on(mirror.disk());
        let ghost from = tract.plow as int;
        let ghost to = tract.reap + tract.len;
        let zero = block::zero32();
        let ghost none = Seq::<(u64, Seq<u8>)>::empty();
        proof {
            lemma_newer_none(ix0.added);
            assert(ix0.added + none =~= ix0.added);
        }
        match self.root {
            None => {
                self.arena.clear();
                proof {
                    let ix1 = self@;
                    assert(settle::slots_alike(
                        t0,
                        ix0.arena,
                        ix0.root,
                        t0,
                        ix1.arena,
                        ix1.root,
                        edit::places(none),
                        from,
                        to,
                    ));
                    settle::lemma_settled(t0, ix0, from, t0, ix1, from, tract0.reach(), to, none);
                    if keep::fit(t0, ix0, from, to) {
                        assert(ix1.removed =~= ix0.removed + none);
                        tight::lemma_tight(t0, ix0, t0, ix1, none, none);
                    }
                }
                Ok((zero, 0))
            },
            Some(Child::Committed { hash, lba }) => {
                self.arena.clear();
                proof {
                    let ix1 = self@;
                    assert forall|k: Seq<u8>, d: int|
                        k.len() == 32 && settle::clear(
                            trie::walk(t0, ix0.arena, ix0.root, k, d),
                            from,
                            to,
                            t0.len() as int,
                        ) implies settle::alike(
                        trie::walk(t0, ix0.arena, ix0.root, k, d),
                        #[trigger] trie::walk(t0, ix1.arena, ix1.root, k, d),
                        edit::places(none),
                    ) by {
                        edit::lemma_committed_walk(t0, ix0.arena, ix1.arena, ix0.root, k, d);
                    }
                    settle::lemma_settled(t0, ix0, from, t0, ix1, from, tract0.reach(), to, none);
                    if keep::fit(t0, ix0, from, to) {
                        assert(ix1.removed =~= ix0.removed + none);
                        tight::lemma_tight(t0, ix0, t0, ix1, none, none);
                    }
                }
                if same32(&hash, &zero) {
                    return Err(corrupt_err("root hash stands for the empty index"));
                }
                Ok((hash, lba))
            },
            Some(Child::Dirty(idx)) => {
                let done = self.flush_node(mirror, tract, idx);
                let ghost t1 = tract0.on(mirror.disk());
                let ghost a1 = self@.arena;
                let ghost more = newer(ix0.added, self@.added);
                proof {
                    assert(self@.added =~= ix0.added + more);
                    assert forall|i: int| ix0.added.len() <= i < self@.added.len() implies (
                    #[trigger] self@.added[i]).0 < tract0.len && tract::in_strip(
                        self@.added[i].0 as int,
                        from,
                        tract.plow as int,
                        tract0.len as int,
                    ) by {
                        assert(more[i - ix0.added.len()] == self@.added[i]);
                    }
                    assert(settle::slots_alike(
                        t0,
                        ix0.arena,
                        ix0.root,
                        t1,
                        a1,
                        ix0.root,
                        edit::places(more),
                        from,
                        to,
                    ));
                    settle::lemma_settled(
                        t0,
                        ix0,
                        from,
                        t1,
                        self@,
                        tract.plow as int,
                        tract0.reach(),
                        to,
                        more,
                    );
                }
                let (hash, lba) = match done {
                    Ok(x) => x,
                    Err(e) => return Err(e),
                };
                self.root = Some(Child::Committed { hash, lba });
                self.arena.clear();
                proof {
                    let ix1 = self@;
                    let new = ix1.root;
                    let end = tract.plow as int;
                    settle::lemma_alike_written(t1, a1, idx as int, hash@, lba, end, to);
                    settle::lemma_marks_within(t1, more, from, end);
                    settle::lemma_alike_self(t1, a1, Set::<u64>::empty(), end, to);
                    settle::lemma_alike_twice(
                        t0,
                        ix0.arena,
                        t1,
                        a1,
                        t1,
                        a1,
                        edit::places(more),
                        Set::<u64>::empty().insert(lba),
                        edit::places(more),
                        from,
                        end,
                        to,
                        ix0.root,
                        ix0.root,
                        new,
                    );
                    assert forall|k: Seq<u8>, d: int|
                        k.len() == 32 && settle::clear(
                            trie::walk(t0, ix0.arena, ix0.root, k, d),
                            from,
                            to,
                            t0.len() as int,
                        ) implies settle::alike(
                        trie::walk(t0, ix0.arena, ix0.root, k, d),
                        #[trigger] trie::walk(t1, ix1.arena, new, k, d),
                        edit::places(more),
                    ) by {
                        edit::lemma_committed_walk(t1, a1, ix1.arena, new, k, d);
                        assert(settle::alike(
                            trie::walk(t0, ix0.arena, ix0.root, k, d),
                            trie::walk(t1, a1, new, k, d),
                            edit::places(more),
                        ));
                    }
                    settle::lemma_settled(
                        t0,
                        ix0,
                        from,
                        t1,
                        ix1,
                        end,
                        tract0.reach(),
                        to,
                        more,
                    );
                    if keep::fit(t0, ix0, from, to) {
                        assert(ix1.removed =~= ix0.removed + none);
                        assert(keep::fit(t1, ix1, end, to));
                        assert forall|p: u64| #[trigger]
                            edit::places(more).contains(p) implies tight::led_to(t1, ix1, p) by {
                            let b = Seq::new(32, |i: int| 0u8);
                            assert forall|k: Seq<u8>|
                                k.len() == 32 && key::agree(k, b, 0) implies (#[trigger] trie::walk(
                                t1,
                                ix1.arena,
                                ix1.root,
                                k,
                                0,
                            )).placed by {
                                assert(ix1.path(t1, k).sound());
                            }
                            let k = tight::lemma_hangs_led(
                                t1,
                                ix1.arena,
                                ix1.root,
                                p,
                                edit::places(more),
                                (ix0.arena.len() - idx) as nat,
                                b,
                                0,
                            );
                            assert(ix1.path(t1, k).reads.contains(p));
                        }
                        tight::lemma_tight(t0, ix0, t1, ix1, more, none);
                    }
                }
                if same32(&hash, &zero) {
                    return Err(corrupt_err("root hash stands for the empty index"));
                }
                Ok((hash, lba))
            },
        }
    }

    /// Copy-on-write unlink of the child that points at exactly `(hash, lba)`, descending along
    /// `route`. Nothing happens if the pointer is not on that path.
    pub(crate) fn prune<A: BlockDev, B: BlockDev>(
        &mut self,
        mirror: &mut Mirror<A, B>,
        tract: &Tract,
        route: &[u8; 32],
        hash: &[u8; 32],
        lba: u64,
    ) -> (r: Result<()>)
        requires
            old(self)@.wf(),
            tract.base + tract.len <= u64::MAX,
        ensures
            untouched(final(mirror), old(mirror)),
            final(self)@.added == old(self)@.added,
            final(self)@.wf(),
            match r {
                Ok(()) => {
                    &&& extended(old(self)@.removed, final(self)@.removed)
                    &&& cut::prunes(
                        tract.on(old(mirror).disk()),
                        old(self)@,
                        final(self)@,
                        route@,
                        hash@,
                        lba,
                        edit::places(newer(old(self)@.removed, final(self)@.removed)),
                    )
                    &&& final(self)@.dirt() <= old(self)@.dirt() + 52
                    &&& final(self)@.dirt() <= old(self)@.dirt() + edit::thawed(
                        tract.on(old(mirror).disk()),
                        old(self)@.arena,
                        old(self)@.root,
                        route@,
                        0,
                    )
                },
                Err(e) => {
                    let t = old(self)@.path(tract.on(old(mirror).disk()), route@);
                    &&& not_room(e@)
                    &&& final(self)@.root == old(self)@.root
                    &&& final(self)@.removed == old(self)@.removed
                    &&& edit::arena_within(
                        old(self)@.arena,
                        final(self)@.arena,
                        Set::<int>::empty(),
                    )
                    &&& sure_of(old(mirror), tract) ==> !t.whole && !(cut::ended_at(
                        t,
                        hash@,
                        lba,
                    ) && t.placed)
                },
            },
    {
        let root = self.root;
        let ghost ix0 = self@;
        proof {
            edit::lemma_soiled(
                tract.on(mirror.disk()),
                ix0.arena,
                ix0.arena,
                ix0.root,
                route@,
                0,
            );
        }
        let new_root = self.repoint(mirror, tract, root, 0, route, 255, hash, lba, None)?;
        self.root = new_root;
        proof {
            cut::lemma_prunes(
                tract.on(old(mirror).disk()),
                ix0,
                self@,
                route@,
                hash@,
                lba,
                edit::places(newer(ix0.removed, self@.removed)),
            );
        }
        Ok(())
    }

    /// Deletes a key: zeroes the leaf and then its furrows on both mirrors, and unlinks the pointer
    /// from the index. Returns whether the key was there.
    ///
    /// The leaf is zeroed first, so that a value is never half there; the pointer is unlinked so
    /// that none leads to a block that is reused a lap later.
    #[verifier::rlimit(60)]
    pub fn delete<A: BlockDev, B: BlockDev>(
        &mut self,
        mirror: &mut Mirror<A, B>,
        tract: &mut Tract,
        key: &[u8; 32],
    ) -> (r: Result<bool>)
        requires
            old(self)@.wf(),
            old(tract).wf(),
        ensures
            *final(tract) == *old(tract),
            final(self)@.wf(),
            final(mirror).carries_on(old(mirror)),
            tract::kept_around(
                old(mirror).disk(),
                final(mirror).disk(),
                old(tract).base as int,
                old(tract).len as int,
            ),
            extended(old(self)@.removed, final(self)@.removed) || r is Err,
            r matches Ok(found) ==> (old(self)@.path(
                old(tract).on(old(mirror).disk()),
                key@,
            ).leaf matches Ok(x) && x is Some == found),
            r matches Ok(found) ==> !found ==> *final(self) == *old(self) && untouched(
                final(mirror),
                old(mirror),
            ),
            r matches Ok(found) ==> found && index_fit(old(mirror), old(tract), old(self)@) ==> {
                let t0 = old(tract).on(old(mirror).disk());
                let t1 = old(tract).on(final(mirror).disk());
                &&& cut::deleted(
                    t0,
                    old(self)@,
                    t1,
                    final(self)@,
                    key@,
                    old(tract).plow as int,
                    old(tract).reap + old(tract).len,
                )
                &&& zeroes_leaf(t0, old(self)@, t1, key@)
            },
            r matches Ok(found) ==> found && final(mirror).second() is Some ==> zeroes_twin(
                old(tract).on(old(mirror).disk()),
                old(self)@,
                old(tract).on(old(mirror).second()->0),
                old(tract).on(final(mirror).second()->0),
                key@,
            ),
            sure_of(old(mirror), old(tract)) && index_fit(old(mirror), old(tract), old(self)@)
                ==> r is Ok,
            r matches Err(e) ==> not_room(e@),
            r is Ok ==> final(self)@.dirt() <= old(self)@.dirt() + 52,
            r is Ok && index_fit(old(mirror), old(tract), old(self)@) ==> final(self)@.dirt()
                <= old(self)@.dirt() + edit::thawed(
                old(tract).on(old(mirror).disk()),
                old(self)@.arena,
                old(self)@.root,
                key@,
                0,
            ),
    {
        let ghost t0 = tract.on(mirror.disk());
        let ghost ix0 = self@;
        let ghost d0 = mirror.disk();
        proof {
            lemma_leaf_errors(t0, ix0.arena, ix0.root, key@, 0);
            lemma_newer_none(ix0.removed);
        }
        let (lba, hash) = match self.find_leaf(mirror, tract, key) {
            Err(e) => return Err(e),
            Ok(None) => return Ok(false),
            Ok(Some(x)) => x,
        };
        let ghost leaf = trie::doc_at(t0, lba, hash@)->Ok_0->0;
        proof {
            lemma_leaf_found(t0, ix0.arena, ix0.root, key@, 0);
            trie::lemma_read_errors(t0, lba, hash@);
            if trie::leaf_value(t0, leaf) is Ok {
                trie::lemma_leaf_marks(t0, leaf);
            }
        }
        let furrows: Vec<u64> = match read_doc(mirror, tract, lba, &hash) {
            Err(e) => return Err(e),
            Ok(Some(TractDoc::Direct { furrows, .. })) => furrows,
            Ok(Some(TractDoc::Extent { size, runs, .. })) => expand_runs(&runs, size)?,
            Ok(_) => Vec::new(),
        };
        self.remove_leaf_blocks(mirror, tract, lba, &hash)?;
        let ghost marks = trie::leaf_marks(t0, lba, hash@)->Ok_0;
        let ghost ix_m = self@;
        proof {
            if index_fit(old(mirror), old(tract), ix0) {
                assert(ix0.path(t0, key@).sound());
                trie::lemma_marked(t0, furrows@, furrows@.len());
            }
        }
        zero_blocks(mirror, tract, lba, &furrows)?;
        let ghost ps = furrows@.to_set().insert(lba);
        let ghost t1 = tract.on(mirror.disk());
        proof {
            assert forall|p: u64|
                ps.contains(p) == #[trigger] cut::leaf_blocks(lba, leaf).contains(p) by {}
            if index_fit(old(mirror), old(tract), ix0) {
                cut::lemma_zero_walk(
                    t0,
                    t1,
                    ix0.arena,
                    ix0.root,
                    lba,
                    hash@,
                    key@,
                    leaf,
                    ps,
                    key@,
                    0,
                );
                assert forall|p: u64| #[trigger] ps.contains(p) implies p < t0.len() && !(
                doc::doc_of(t0[p as int]) matches Ok(DocView::Node(_))) by {
                    assert(cut::leaf_blocks(lba, leaf).contains(p));
                    if p != lba {
                        trie::lemma_leaf_owns(t0, leaf, p);
                    }
                }
                cut::lemma_zeroed_thawed(t0, t1, ix0.arena, ix0.root, key@, 0, ps);
            }
        }
        self.prune(mirror, tract, key, &hash, lba)?;
        proof {
            let gone = newer(ix_m.removed, self@.removed);
            assert(self@.removed =~= ix0.removed + marks + gone);
            assert(self@.removed.take(ix0.removed.len() as int) =~= ix0.removed);
            if index_fit(old(mirror), old(tract), ix0) {
                let fps = trie::leaf_positions(leaf)->Ok_0;
                trie::lemma_marked(t0, fps, fps.len());
                let fm = trie::furrow_marks(t0, leaf)->Ok_0;
                assert forall|x: int| 0 <= x < marks.len() implies ps.contains(
                    (#[trigger] marks[x]).0,
                ) by {
                    if x > 0 {
                        assert(marks[x] == fm[x - 1]);
                        assert(cut::leaf_blocks(lba, leaf).contains(marks[x].0));
                    }
                }
                assert forall|k: Seq<u8>| #[trigger] ix0.path(t1, k) == ix_m.path(t1, k) by {}
                assert(keep::placed(t1, ix0) ==> keep::placed(t1, ix_m)) by {
                    if keep::placed(t1, ix0) {
                        assert forall|k: Seq<u8>| k.len() == 32 implies (#[trigger] ix_m.path(
                            t1,
                            k,
                        )).placed by {
                            assert(ix0.path(t1, k).placed);
                        }
                    }
                }
                assert(cut::prunes(t1, ix0, self@, key@, hash@, lba, edit::places(gone))) by {
                    if keep::placed(t1, ix0) && !(trie::doc_at(t1, lba, hash@) matches Ok(
                        Some(DocView::Node(_)),
                    )) {
                        assert forall|k: Seq<u8>| k.len() == 32 implies cut::pruned(
                            ix0.path(t1, k),
                            #[trigger] self@.path(t1, k),
                            k,
                            key@,
                            hash@,
                            lba,
                            edit::places(gone),
                        ) by {
                            assert(ix0.path(t1, k) == ix_m.path(t1, k));
                        }
                    }
                }
                cut::lemma_deleted(
                    t0,
                    ix0,
                    t1,
                    self@,
                    key@,
                    lba,
                    hash@,
                    leaf,
                    ps,
                    marks,
                    gone,
                    tract.plow as int,
                    tract.reap + tract.len,
                );
            }
        }
        Ok(true)
    }
}

/// Zeroing one block more.
proof fn lemma_zero_step(
    tract: &Tract,
    t0: Seq<Seq<u8>>,
    before: Seq<Seq<u8>>,
    after: Seq<Seq<u8>>,
    lba: u64,
    ps: Set<u64>,
)
    requires
        t0.len() == tract.len,
        lba < tract.len,
        after == before.update(tract.base + lba, block::zeros()),
        tract.base + lba < before.len(),
        cut::zeroed(t0, tract.on(before), ps),
    ensures
        cut::zeroed(t0, tract.on(after), ps.insert(lba)),
{
    let now = tract.on(after);
    let was = tract.on(before);
    assert forall|p: u64| p < t0.len() implies #[trigger] now[p as int] == (if ps.insert(
        lba,
    ).contains(p) {
        block::zeros()
    } else {
        t0[p as int]
    }) by {
        assert(was[p as int] == (if ps.contains(p) {
            block::zeros()
        } else {
            t0[p as int]
        }));
        if p != lba {
            assert(now[p as int] == was[p as int]);
        }
    }
}

/// Zeroes a leaf and then its furrows.
fn zero_blocks<A: BlockDev, B: BlockDev>(
    mirror: &mut Mirror<A, B>,
    tract: &mut Tract,
    lba: u64,
    furrows: &Vec<u64>,
) -> (r: Result<()>)
    requires
        old(tract).wf(),
    ensures
        *final(tract) == *old(tract),
        final(mirror).carries_on(old(mirror)),
        tract::kept_around(
            old(mirror).disk(),
            final(mirror).disk(),
            old(tract).base as int,
            old(tract).len as int,
        ),
        r is Ok ==> cut::zeroed(
            old(tract).on(old(mirror).disk()),
            old(tract).on(final(mirror).disk()),
            furrows@.to_set().insert(lba),
        ),
        r is Ok && final(mirror).second() is Some ==> cut::zeroed(
            old(tract).on(old(mirror).second()->0),
            old(tract).on(final(mirror).second()->0),
            furrows@.to_set().insert(lba),
        ),
        sure_of(old(mirror), old(tract)) && lba < old(tract).len && (forall|j: int|
            0 <= j < furrows@.len() ==> (#[trigger] furrows@[j]) < old(tract).len) ==> r is Ok,
        r matches Err(e) ==> block::device_error(e@),
{
    let ghost d0 = mirror.disk();
    let ghost t0 = tract.on(d0);
    let ghost second0 = mirror.second();
    tract.zero_delete(mirror, lba)?;
    let ghost mut ps = Set::<u64>::empty().insert(lba);
    let mut i: usize = 0;
    proof {
        let none = Set::<u64>::empty();
        lemma_zero_step(tract, t0, d0, mirror.disk(), lba, none);
        if mirror.second() is Some {
            let e0 = second0->0;
            lemma_zero_step(tract, tract.on(e0), e0, mirror.second()->0, lba, none);
        }
    }
    while i < furrows.len()
        invariant
            i <= furrows@.len(),
            *tract == *old(tract),
            tract.wf(),
            mirror.carries_on(old(mirror)),
            d0 == old(mirror).disk(),
            t0 == tract.on(d0),
            tract::kept_around(d0, mirror.disk(), tract.base as int, tract.len as int),
            cut::zeroed(t0, tract.on(mirror.disk()), ps),
            second0 == old(mirror).second(),
            mirror.second() is Some ==> cut::zeroed(
                tract.on(second0->0),
                tract.on(mirror.second()->0),
                ps,
            ),
            forall|p: u64| #[trigger]
                ps.contains(p) == (p == lba || furrows@.take(i as int).contains(p)),
        decreases furrows@.len() - i,
    {
        let f: u64 = furrows[i];
        let ghost before = mirror.disk();
        let ghost second1 = mirror.second();
        tract.zero_delete(mirror, f)?;
        proof {
            lemma_zero_step(tract, t0, before, mirror.disk(), f, ps);
            if mirror.second() is Some {
                lemma_zero_step(
                    tract,
                    tract.on(second0->0),
                    second1->0,
                    mirror.second()->0,
                    f,
                    ps,
                );
            }
            ps = ps.insert(f);
            let next = furrows@.take(i + 1);
            let sofar = furrows@.take(i as int);
            assert(next =~= sofar.push(f));
            assert forall|p: u64| #[trigger] ps.contains(p) == (p == lba || next.contains(p)) by {
                if sofar.contains(p) {
                    let x = choose|x: int| 0 <= x < sofar.len() && sofar[x] == p;
                    assert(next[x] == p);
                }
                if next.contains(p) && p != f {
                    let x = choose|x: int| 0 <= x < next.len() && next[x] == p;
                    assert(sofar[x] == p);
                }
                if p == f {
                    assert(next[i as int] == f);
                }
            }
        }
        i = i + 1;
    }
    proof {
        assert(furrows@.take(i as int) =~= furrows@);
        assert(ps =~= furrows@.to_set().insert(lba));
    }
    Ok(())
}

/// Whether, on a second device, the only blocks that changed are those that the first had for the leaf
/// of a key and its furrows, which are zeroed.
pub open spec fn zeroes_twin(
    t: Seq<Seq<u8>>,
    ix: Index,
    s0: Seq<Seq<u8>>,
    s1: Seq<Seq<u8>>,
    key: Seq<u8>,
) -> bool {
    ix.path(t, key).leaf matches Ok(Some((lba, hash))) && (trie::doc_at(
        t,
        lba,
        hash,
    ) matches Ok(Some(leaf)) && cut::zeroed(s0, s1, cut::leaf_blocks(lba, leaf)))
}

/// Whether the only blocks that changed are the leaf of a key and its furrows, which are zeroed.
pub open spec fn zeroes_leaf(t0: Seq<Seq<u8>>, ix: Index, t1: Seq<Seq<u8>>, key: Seq<u8>) -> bool {
    ix.path(t0, key).leaf matches Ok(Some((lba, hash))) && (trie::doc_at(
        t0,
        lba,
        hash,
    ) matches Ok(Some(leaf)) && trie::leaf_key(leaf) == Some(key) && cut::zeroed(
        t0,
        t1,
        cut::leaf_blocks(lba, leaf),
    ))
}

/// A leaf that is found is a leaf of the key.
pub(crate) proof fn lemma_leaf_found(
    tract: Seq<Seq<u8>>,
    arena: Seq<NodeView>,
    slot: Option<ChildView>,
    k: Seq<u8>,
    d: int,
)
    ensures
        ({
            let t = trie::walk(tract, arena, slot, k, d);
            t.leaf matches Ok(Some((lba, hash))) ==> (trie::doc_at(
                tract,
                lba,
                hash,
            ) matches Ok(Some(leaf)) && trie::leaf_key(leaf) == Some(k) && t.whole
                == trie::leaf_value(tract, leaf) is Ok && cut::ended_at(t, hash, lba)
                && t.reads.contains(lba) && t.found == (match trie::leaf_value(tract, leaf) {
                Ok(v) => Ok::<Option<Seq<u8>>, ErrorView>(Some(v)),
                Err(e) => Err(e),
            }))
        }),
    decreases 52 - d,
{
    match slot {
        Some(ChildView::Dirty(j)) => {
            if 0 <= d < 52 && 0 <= j < arena.len() {
                lemma_leaf_found(
                    tract,
                    arena,
                    arena[j].kids[key::chunk_of(k, d) as int],
                    k,
                    d + 1,
                );
            }
        },
        Some(ChildView::At { hash, lba }) => {
            if let Ok(Some(DocView::Node(n))) = trie::doc_at(tract, lba, hash) {
                if 0 <= d < 52 {
                    lemma_leaf_found(tract, arena, n.kids[key::chunk_of(k, d) as int], k, d + 1);
                }
            }
        },
        None => {},
    }
}

/// Looking for a leaf never says that there is no room, and fails on no whole path.
pub(crate) proof fn lemma_leaf_errors(
    tract: Seq<Seq<u8>>,
    arena: Seq<NodeView>,
    slot: Option<ChildView>,
    k: Seq<u8>,
    d: int,
)
    ensures
        trie::walk(tract, arena, slot, k, d).leaf matches Err(e) ==> not_room(e),
        trie::walk(tract, arena, slot, k, d).found matches Err(e) ==> not_room(e) || e is Corrupt,
        trie::walk(tract, arena, slot, k, d).whole ==> trie::walk(
            tract,
            arena,
            slot,
            k,
            d,
        ).leaf is Ok && trie::walk(tract, arena, slot, k, d).found is Ok,
    decreases 52 - d,
{
    match slot {
        Some(ChildView::Dirty(j)) => {
            if 0 <= d < 52 && 0 <= j < arena.len() {
                lemma_leaf_errors(
                    tract,
                    arena,
                    arena[j].kids[key::chunk_of(k, d) as int],
                    k,
                    d + 1,
                );
            }
        },
        Some(ChildView::At { hash, lba }) => {
            trie::lemma_read_errors(tract, lba, hash);
            match trie::doc_at(tract, lba, hash) {
                Ok(Some(DocView::Node(n))) => {
                    if 0 <= d < 52 {
                        lemma_leaf_errors(
                            tract,
                            arena,
                            n.kids[key::chunk_of(k, d) as int],
                            k,
                            d + 1,
                        );
                    }
                },
                Ok(Some(leaf)) => {
                    trie::lemma_value_errors(tract, leaf);
                },
                _ => {},
            }
        },
        None => {},
    }
}

/// On a whole path a value is found exactly where a leaf is.
pub(crate) proof fn lemma_found_leaf(
    tract: Seq<Seq<u8>>,
    arena: Seq<NodeView>,
    slot: Option<ChildView>,
    k: Seq<u8>,
    d: int,
)
    ensures
        ({
            let t = trie::walk(tract, arena, slot, k, d);
            t.whole ==> ((t.found matches Ok(Some(_))) <==> (t.leaf matches Ok(Some(_))))
        }),
    decreases 52 - d,
{
    match slot {
        Some(ChildView::Dirty(j)) => {
            if 0 <= d < 52 && 0 <= j < arena.len() {
                lemma_found_leaf(
                    tract,
                    arena,
                    arena[j].kids[key::chunk_of(k, d) as int],
                    k,
                    d + 1,
                );
            }
        },
        Some(ChildView::At { hash, lba }) => {
            if let Ok(Some(DocView::Node(n))) = trie::doc_at(tract, lba, hash) {
                if 0 <= d < 52 {
                    lemma_found_leaf(tract, arena, n.kids[key::chunk_of(k, d) as int], k, d + 1);
                }
            }
        },
        None => {},
    }
}

impl Hamt {
    /// Collects position and hash of every live block reachable from the committed root: nodes,
    /// leaves and furrows. Dirty state is not walked: call after `from_root` or `flush`.
    pub fn walk_live<A: BlockDev, B: BlockDev>(
        &mut self,
        mirror: &mut Mirror<A, B>,
        tract: &Tract,
        out: &mut Vec<(u64, [u8; 32])>,
    ) -> (r: Result<()>)
        requires
            tract.base + tract.len <= u64::MAX,
        ensures
            *final(self) == *old(self),
            untouched(final(mirror), old(mirror)),
            match r {
                Ok(()) => survey::survey_root(
                    tract.on(old(mirror).disk()),
                    old(self)@.root,
                    false,
                ) matches Ok(s) && marks_view(final(out)@) == marks_view(old(out)@) + s.live,
                Err(e) => {
                    &&& survey::survey_root(
                        tract.on(old(mirror).disk()),
                        old(self)@.root,
                        false,
                    ) == Err::<Survey, ErrorView>(e@) || (block::device_error(e@) && !sure_of(
                        old(mirror),
                        tract,
                    ))
                    &&& *final(out) == *old(out)
                },
            },
    {
        let mut stale: Vec<StalePointer> = Vec::new();
        self.walk_live_collect(mirror, tract, out, &mut stale)
    }

    /// `walk_live` that also reports stale pointers: committed pointers whose target reads as all
    /// zero. Their routes descend back to them.
    pub fn walk_live_collect<A: BlockDev, B: BlockDev>(
        &mut self,
        mirror: &mut Mirror<A, B>,
        tract: &Tract,
        out: &mut Vec<(u64, [u8; 32])>,
        stale: &mut Vec<StalePointer>,
    ) -> (r: Result<()>)
        requires
            tract.base + tract.len <= u64::MAX,
        ensures
            *final(self) == *old(self),
            untouched(final(mirror), old(mirror)),
            match r {
                Ok(()) => survey::survey_root(
                    tract.on(old(mirror).disk()),
                    old(self)@.root,
                    false,
                ) matches Ok(s) && marks_view(final(out)@) == marks_view(old(out)@) + s.live
                    && survey::stale_view(final(stale)@) == survey::stale_view(old(stale)@)
                    + s.stale,
                Err(e) => {
                    &&& survey::survey_root(
                        tract.on(old(mirror).disk()),
                        old(self)@.root,
                        false,
                    ) == Err::<Survey, ErrorView>(e@) || (block::device_error(e@) && !sure_of(
                        old(mirror),
                        tract,
                    ))
                    &&& *final(out) == *old(out)
                    &&& *final(stale) == *old(stale)
                },
            },
    {
        let ghost out0 = marks_view(out@);
        let ghost stale0 = survey::stale_view(stale@);
        let mut lists = Lists::new();
        if let Some(Child::Committed { hash, lba }) = self.root {
            walk_child(mirror, tract, lba, &hash, block::zero32(), 0, false, &mut lists)?;
        }
        let ghost s = survey::survey_root(tract.on(old(mirror).disk()), self@.root, false)->Ok_0;
        assert(lists@ =~= s);
        out.append(&mut lists.live);
        stale.append(&mut lists.stale);
        assert(marks_view(out@) =~= out0 + s.live);
        assert(survey::stale_view(stale@) =~= stale0 + s.stale);
        Ok(())
    }

    /// `walk_live_collect` that survives dangling pointers: a pointer whose target fails its seal,
    /// fails to decode, or names furrows that no longer verify is listed and contributes nothing
    /// else; everything sound is collected as `walk_live` would.
    pub fn walk_live_repair<A: BlockDev, B: BlockDev>(
        &mut self,
        mirror: &mut Mirror<A, B>,
        tract: &Tract,
        out: &mut Vec<(u64, [u8; 32])>,
        stale: &mut Vec<StalePointer>,
        dangling: &mut Vec<DanglingPointer>,
    ) -> (r: Result<()>)
        requires
            tract.base + tract.len <= u64::MAX,
        ensures
            *final(self) == *old(self),
            untouched(final(mirror), old(mirror)),
            match r {
                Ok(()) => survey::survey_root(
                    tract.on(old(mirror).disk()),
                    old(self)@.root,
                    true,
                ) matches Ok(s) && marks_view(final(out)@) == marks_view(old(out)@) + s.live
                    && survey::stale_view(final(stale)@) == survey::stale_view(old(stale)@)
                    + s.stale && survey::dangling_view(final(dangling)@)
                    == survey::dangling_view(old(dangling)@) + s.dangling,
                Err(e) => {
                    &&& survey::survey_root(
                        tract.on(old(mirror).disk()),
                        old(self)@.root,
                        true,
                    ) == Err::<Survey, ErrorView>(e@) || (block::device_error(e@) && !sure_of(
                        old(mirror),
                        tract,
                    ))
                    &&& *final(out) == *old(out)
                    &&& *final(stale) == *old(stale)
                    &&& *final(dangling) == *old(dangling)
                },
            },
    {
        let ghost out0 = marks_view(out@);
        let ghost stale0 = survey::stale_view(stale@);
        let ghost dangling0 = survey::dangling_view(dangling@);
        let mut lists = Lists::new();
        if let Some(Child::Committed { hash, lba }) = self.root {
            walk_child(mirror, tract, lba, &hash, block::zero32(), 0, true, &mut lists)?;
        }
        let ghost s = survey::survey_root(tract.on(old(mirror).disk()), self@.root, true)->Ok_0;
        assert(lists@ =~= s);
        out.append(&mut lists.live);
        stale.append(&mut lists.stale);
        dangling.append(&mut lists.dangling);
        assert(marks_view(out@) =~= out0 + s.live);
        assert(survey::stale_view(stale@) =~= stale0 + s.stale);
        assert(survey::dangling_view(dangling@) =~= dangling0 + s.dangling);
        Ok(())
    }

    /// Collects the key of every leaf that its own key leads to, from the committed root.
    pub fn walk_keys<A: BlockDev, B: BlockDev>(
        &mut self,
        mirror: &mut Mirror<A, B>,
        tract: &Tract,
        out: &mut Vec<[u8; 32]>,
    ) -> (r: Result<()>)
        requires
            tract.base + tract.len <= u64::MAX,
        ensures
            *final(self) == *old(self),
            untouched(final(mirror), old(mirror)),
            match r {
                Ok(()) => roster::keys_of(
                    tract.on(old(mirror).disk()),
                    old(self)@.root,
                ) matches Ok(ks) && roster::keys_view(final(out)@) == roster::keys_view(old(out)@)
                    + ks,
                Err(e) => roster::keys_of(tract.on(old(mirror).disk()), old(self)@.root) == Err::<
                    Seq<Seq<u8>>,
                    ErrorView,
                >(e@) || (block::device_error(e@) && !sure_of(old(mirror), tract)),
            },
    {
        if let Some(Child::Committed { hash, lba }) = self.root {
            let mut slots: Vec<u8> = Vec::new();
            assert(slots@ =~= Seq::<u8>::empty());
            return walk_keys_at(mirror, tract, lba, &hash, &mut slots, out);
        }
        assert(roster::keys_view(out@) + Seq::<Seq<u8>>::empty() =~= roster::keys_view(out@));
        Ok(())
    }
}

// ---------------------------------------------------------------- moving blocks

/// Whether no path reads a position.
pub open spec fn unread(t: Seq<Seq<u8>>, ix: Index, p: u64) -> bool {
    forall|k: Seq<u8>| k.len() == 32 ==> !(#[trigger] ix.path(t, k)).reads.contains(p)
}

/// Whether no path reads what was given up, but where it was appended to again.
pub open spec fn retires(
    t1: Seq<Seq<u8>>,
    ix0: Index,
    ix1: Index,
    from: int,
    mid: int,
) -> bool {
    forall|k: Seq<u8>, p: u64|
        k.len() == 32 && (#[trigger] ix1.path(t1, k).reads.contains(p)) ==> edit::places(
            newer(ix0.removed, ix1.removed),
        ).contains(p) ==> tract::in_strip(p as int, from, mid, t1.len() as int)
}

/// What an operation that changes no answer leaves.
pub open spec fn stepped<A: BlockDev, B: BlockDev>(
    mirror0: &Mirror<A, B>,
    tract0: &Tract,
    ix0: Index,
    mirror1: &Mirror<A, B>,
    tract1: &Tract,
    ix1: Index,
) -> bool {
    &&& plowed_on(mirror0, tract0, mirror1, tract1)
    &&& index_tended(mirror0, tract0, ix0, mirror1, tract1, ix1)
    &&& extended(ix0.removed, ix1.removed)
    &&& index_fit(mirror0, tract0, ix0) ==> {
        &&& keep::same_answers(
            tract0.on(mirror0.disk()),
            ix0,
            tract0.on(mirror1.disk()),
            ix1,
        )
        &&& retires(
            tract0.on(mirror1.disk()),
            ix0,
            ix1,
            tract0.plow as int,
            tract1.plow as int,
        )
    }
}

/// Two steps make one.
proof fn lemma_stepped_twice<A: BlockDev, B: BlockDev>(
    m0: &Mirror<A, B>,
    tr0: &Tract,
    ix0: Index,
    m1: &Mirror<A, B>,
    tr1: &Tract,
    ix1: Index,
    m2: &Mirror<A, B>,
    tr2: &Tract,
    ix2: Index,
)
    requires
        tr0.wf(),
        stepped(m0, tr0, ix0, m1, tr1, ix1),
        stepped(m1, tr1, ix1, m2, tr2, ix2),
    ensures
        stepped(m0, tr0, ix0, m2, tr2, ix2),
{
    let t0 = tr0.on(m0.disk());
    let t1 = tr0.on(m1.disk());
    let t2 = tr0.on(m2.disk());
    let len = tr0.len as int;
    assert(tr1.on(m1.disk()) == t1);
    assert(tr1.on(m2.disk()) == t2);
    assert(tr1.reach() == tr0.reach());
    keep::lemma_tended_twice(
        t0,
        ix0,
        tr0.plow as int,
        t1,
        ix1,
        tr1.plow as int,
        t2,
        ix2,
        tr2.plow as int,
        tr0.reach(),
        tr0.reap + tr0.len,
    );
    assert(ix2.removed.take(ix0.removed.len() as int) =~= ix1.removed.take(
        ix0.removed.len() as int,
    ));
    if index_fit(m0, tr0, ix0) {
        assert(keep::same_answers(t0, ix0, t2, ix2)) by {
            assert forall|k: Seq<u8>| k.len() == 32 implies (#[trigger] ix2.path(t2, k)).found
                == ix0.path(t0, k).found by {
                assert(ix1.path(t1, k).found == ix0.path(t0, k).found);
            }
        }
        let a = newer(ix0.removed, ix1.removed);
        let b = newer(ix1.removed, ix2.removed);
        assert(newer(ix0.removed, ix2.removed) =~= a + b);
        assert forall|k: Seq<u8>, p: u64|
            k.len() == 32 && (#[trigger] ix2.path(t2, k).reads.contains(p)) && edit::places(
                newer(ix0.removed, ix2.removed),
            ).contains(p) implies tract::in_strip(
            p as int,
            tr0.plow as int,
            tr2.plow as int,
            len,
        ) by {
            crate::haul::lemma_places_add(a, b, p);
            assert(p < t2.len());
            if tract::in_strip(p as int, tr1.plow as int, tr2.plow as int, len) {
                tract::lemma_strip_tail(
                    p as int,
                    tr0.plow as int,
                    tr1.plow as int,
                    tr2.plow as int,
                    len,
                );
            } else {
                assert(ix1.path(t1, k).reads.contains(p));
            }
        }
    }
}

/// Doing nothing is a step.
proof fn lemma_stepped_none<A: BlockDev, B: BlockDev>(
    m0: &Mirror<A, B>,
    tr0: &Tract,
    ix0: Index,
    m1: &Mirror<A, B>,
)
    requires
        tr0.wf(),
        ix0.wf(),
        untouched(m1, m0),
    ensures
        stepped(m0, tr0, ix0, m1, tr0, ix0),
{
    let t0 = tr0.on(m0.disk());
    lemma_newer_none(ix0.removed);
    keep::lemma_unplanted(
        t0,
        ix0,
        tr0.plow as int,
        t0,
        ix0,
        tr0.plow as int,
        tr0.reach(),
        tr0.reap + tr0.len,
    );
}

/// A step that changed nothing in the index.
proof fn lemma_stepped_idle<A: BlockDev, B: BlockDev>(
    m0: &Mirror<A, B>,
    tr0: &Tract,
    ix0: Index,
    m1: &Mirror<A, B>,
    tr1: &Tract,
    ix1: Index,
)
    requires
        tr0.wf(),
        ix0.wf(),
        plowed_on(m0, tr0, m1, tr1),
        tract::kept_outside(
            tr0.on(m0.disk()),
            tr0.on(m1.disk()),
            tr0.plow as int,
            tr0.reach(),
        ),
        trie::arena_wf(ix1.arena),
        edit::arena_within(ix0.arena, ix1.arena, Set::<int>::empty()),
        ix1.root == ix0.root,
        ix1.added == ix0.added,
        ix1.removed == ix0.removed,
    ensures
        stepped(m0, tr0, ix0, m1, tr1, ix1),
{
    lemma_newer_none(ix0.removed);
    keep::lemma_unplanted(
        tr0.on(m0.disk()),
        ix0,
        tr0.plow as int,
        tr0.on(m1.disk()),
        ix1,
        tr1.plow as int,
        tr0.reach(),
        tr0.reap + tr0.len,
    );
}

/// What was unread stays unread, outside of what was appended.
proof fn lemma_unread_stays<A: BlockDev, B: BlockDev>(
    m0: &Mirror<A, B>,
    tr0: &Tract,
    ix0: Index,
    m1: &Mirror<A, B>,
    tr1: &Tract,
    ix1: Index,
    p: u64,
)
    requires
        stepped(m0, tr0, ix0, m1, tr1, ix1),
        index_fit(m0, tr0, ix0),
        unread(tr0.on(m0.disk()), ix0, p),
        !tract::in_strip(p as int, tr0.plow as int, tr0.reap + tr0.len, tr0.len as int),
    ensures
        unread(tr0.on(m1.disk()), ix1, p),
{
    let t0 = tr0.on(m0.disk());
    let t1 = tr0.on(m1.disk());
    assert forall|k: Seq<u8>| k.len() == 32 implies !(#[trigger] ix1.path(t1, k)).reads.contains(
        p,
    ) by {
        if ix1.path(t1, k).reads.contains(p) {
            assert(!ix0.path(t0, k).reads.contains(p));
        }
    }
}

/// How a block addresses itself: by a key, and a depth; 255 is a leaf.
pub open spec fn address(b: Seq<u8>) -> Option<(Seq<u8>, int)> {
    match doc::doc_of(b) {
        Ok(DocView::Node(n)) => Some((n.route, n.depth as int)),
        Ok(DocView::Furrow { .. }) => None,
        Ok(leaf) => Some((trie::leaf_key(leaf)->0, 255)),
        Err(_) => None,
    }
}

impl Hamt {
    /// Applies one block move to the index: the block addresses itself, so the repair is a directed
    /// descent.
    fn repair_reloc<A: BlockDev, B: BlockDev>(
        &mut self,
        mirror: &mut Mirror<A, B>,
        tract: &Tract,
        r: &Reloc,
    ) -> (out: Result<()>)
        requires
            old(self)@.wf(),
            tract.base + tract.len <= u64::MAX,
        ensures
            untouched(final(mirror), old(mirror)),
            final(self)@.added == old(self)@.added,
            final(self)@.wf(),
            match out {
                Ok(()) => {
                    let t = tract.on(old(mirror).disk());
                    &&& r.to < t.len()
                    &&& reloc_refusal(t[r.to as int]) is None
                    &&& extended(old(self)@.removed, final(self)@.removed)
                    &&& address(t[r.to as int]) matches Some((key, depth)) && key.len() == 32
                        && swap::swaps(
                        t,
                        old(self)@.arena,
                        old(self)@.root,
                        final(self)@.arena,
                        final(self)@.root,
                        key,
                        (ChildView::At { hash: r.hp@, lba: r.from }),
                        Some(ChildView::At { hash: r.hp@, lba: r.to }),
                        edit::places(newer(old(self)@.removed, final(self)@.removed)),
                        0,
                        depth,
                    )
                    &&& final(self)@.dirt() <= old(self)@.dirt() + 52
                },
                Err(e) => {
                    &&& not_room(e@)
                    &&& sure_of(old(mirror), tract) && r.to < tract.len ==> (reloc_refusal(
                        tract.on(old(mirror).disk())[r.to as int],
                    ) matches Some(x) ==> e@ == x && final(self)@ == old(self)@)
                    &&& final(self)@.root == old(self)@.root
                    &&& final(self)@.removed == old(self)@.removed
                    &&& edit::arena_within(
                        old(self)@.arena,
                        final(self)@.arena,
                        Set::<int>::empty(),
                    )
                    &&& !(sure_of(old(mirror), tract) && keep::sound(
                        tract.on(old(mirror).disk()),
                        old(self)@,
                    ) && r.to < tract.len && seal::hp_of(
                        tract.on(old(mirror).disk())[r.to as int],
                    ) is Some && address(tract.on(old(mirror).disk())[r.to as int]) is Some)
                },
            },
    {
        let ghost t = tract.on(mirror.disk());
        let mut buf = zero_block();
        tract.read(mirror, r.to, &mut buf)?;
        if sealed_hp(&buf).is_none() {
            return Err(corrupt_err("relocated block unreadable at destination"));
        }
        proof {
            trie::lemma_doc_errors(buf@);
            trie::lemma_doc_shape(buf@);
        }
        let (key, depth) = match decode_doc(&buf) {
            Err(e) => return Err(e),
            Ok(TractDoc::Node(n)) => (n.route, n.depth),
            Ok(TractDoc::Furrow { .. }) => {
                return Err(corrupt_err("furrow move must be handled by the reap"));
            },
            Ok(TractDoc::Lone { key, .. })
            | Ok(TractDoc::Direct { key, .. })
            | Ok(TractDoc::Extent { key, .. }) => (key, 255u8),
        };
        proof {
            if keep::sound(t, self@) {
                assert(self@.path(t, key@).sound());
            }
            edit::lemma_soiled(t, self@.arena, self@.arena, self@.root, key@, 0);
        }
        let root = self.root;
        let new = Some(Child::Committed { hash: r.hp, lba: r.to });
        let new_root = self.repoint(mirror, tract, root, 0, &key, depth, &r.hp, r.from, new)?;
        self.root = new_root;
        Ok(())
    }

    /// Applies block moves to the index. Furrow moves never arrive here: the reap rebuilds the leaf
    /// of their owner instead.
    pub fn repair_relocs<A: BlockDev, B: BlockDev>(
        &mut self,
        mirror: &mut Mirror<A, B>,
        tract: &Tract,
        relocs: &[Reloc],
    ) -> (out: Result<()>)
        requires
            old(self)@.wf(),
            tract.base + tract.len <= u64::MAX,
        ensures
            untouched(final(mirror), old(mirror)),
            final(self)@.wf(),
            final(self)@.added == old(self)@.added,
            ({
                let t = tract.on(old(mirror).disk());
                (forall|i: int| 0 <= i < relocs@.len() ==> is_copy(t, #[trigger] relocs@[i]))
                    && keep::sound(t, old(self)@) ==> {
                    &&& keep::sound(t, final(self)@)
                    &&& keep::same_answers(t, old(self)@, t, final(self)@)
                    &&& sure_of(old(mirror), tract) ==> out is Ok
                    &&& out is Ok && apart(relocs@) ==> forall|i: int|
                        0 <= i < relocs@.len() ==> unread(
                            t,
                            final(self)@,
                            (#[trigger] relocs@[i]).from,
                        )
                }
            }),
            out is Ok ==> forall|i: int|
                0 <= i < relocs@.len() ==> (#[trigger] relocs@[i]).to < tract.len && reloc_refusal(
                    tract.on(old(mirror).disk())[relocs@[i].to as int],
                ) is None,
            sure_of(old(mirror), tract) && relocs@.len() > 0 && relocs@[0].to < tract.len ==> (
            reloc_refusal(tract.on(old(mirror).disk())[relocs@[0].to as int]) matches Some(e)
                ==> (out matches Err(x) && x@ == e) && final(self)@ == old(self)@),
    {
        let ghost t = tract.on(mirror.disk());
        let ghost ix0 = self@;
        let ghost good = (forall|i: int|
            0 <= i < relocs@.len() ==> is_copy(t, #[trigger] relocs@[i])) && keep::sound(t, ix0);
        let mut i: usize = 0;
        while i < relocs.len()
            invariant
                i <= relocs@.len(),
                tract.base + tract.len <= u64::MAX,
                untouched(mirror, old(mirror)),
                t == tract.on(old(mirror).disk()),
                ix0 == old(self)@,
                self@.wf(),
                self@.added == ix0.added,
                good == ((forall|j: int|
                    0 <= j < relocs@.len() ==> is_copy(t, #[trigger] relocs@[j])) && keep::sound(
                    t,
                    ix0,
                )),
                good ==> keep::sound(t, self@) && keep::same_answers(t, ix0, t, self@),
                good && apart(relocs@) ==> forall|j: int|
                    0 <= j < i ==> unread(t, self@, (#[trigger] relocs@[j]).from),
                forall|j: int|
                    0 <= j < i ==> (#[trigger] relocs@[j]).to < tract.len && reloc_refusal(
                        t[relocs@[j].to as int],
                    ) is None,
                i == 0 ==> self@ == ix0,
            decreases relocs@.len() - i,
        {
            let r: Reloc = relocs[i];
            let ghost before = self@;
            assert(good ==> is_copy(t, relocs@[i as int]));
            match self.repair_reloc(mirror, tract, &r) {
                Err(e) => {
                    proof {
                        if good {
                            lemma_grown_same(t, before, self@);
                        }
                    }
                    return Err(e);
                },
                Ok(()) => {
                    proof {
                        if good {
                            lemma_copy_answers(t, before, self@, r);
                            assert forall|k: Seq<u8>| k.len() == 32 implies (
                            #[trigger] self@.path(t, k)).found == ix0.path(t, k).found by {
                                assert(before.path(t, k).found == ix0.path(t, k).found);
                            }
                            assert forall|j: int| apart(relocs@) && 0 <= j < i + 1 implies unread(
                                t,
                                self@,
                                (#[trigger] relocs@[j]).from,
                            ) by {
                                let p = relocs@[j].from;
                                assert(p != relocs@[i as int].to);
                                assert forall|k: Seq<u8>| k.len() == 32 implies !(
                                #[trigger] self@.path(t, k)).reads.contains(p) by {
                                    if self@.path(t, k).reads.contains(p) {
                                        assert(before.path(t, k).reads.contains(p));
                                        assert(unread(t, before, relocs@[j].from));
                                    }
                                }
                            }
                        }
                    }
                },
            }
            i = i + 1;
        }
        Ok(())
    }
}

/// What is wrong with the block that a move left at its destination: it is not sealed, does not decode,
/// or is a furrow, which does not say who points at it.
pub open spec fn reloc_refusal(b: Seq<u8>) -> Option<ErrorView> {
    match seal::hp_of(b) {
        None => Some(error::corrupt("relocated block unreadable at destination")),
        Some(_) => match doc::doc_of(b) {
            Err(e) => Some(e),
            Ok(DocView::Furrow { .. }) => Some(
                error::corrupt("furrow move must be handled by the reap"),
            ),
            Ok(_) => None,
        },
    }
}

/// Whether a move left the same sealed block, which can be found by its own address.
pub open spec fn is_copy(t: Seq<Seq<u8>>, r: Reloc) -> bool {
    &&& r.from != r.to
    &&& r.from < t.len()
    &&& r.to < t.len()
    &&& t[r.from as int] == t[r.to as int]
    &&& seal::hp_of(t[r.from as int]) == Some(r.hp@)
    &&& address(t[r.from as int]) is Some
}

/// Whether no block moved to where another moved from.
pub open spec fn apart(relocs: Seq<Reloc>) -> bool {
    forall|i: int, j: int|
        0 <= i < relocs.len() && 0 <= j < relocs.len() ==> (#[trigger] relocs[i]).from != (
        #[trigger] relocs[j]).to
}

/// An arena that only grew leaves every path as it is.
proof fn lemma_grown_same(t: Seq<Seq<u8>>, ix0: Index, ix1: Index)
    requires
        ix0.wf(),
        edit::arena_within(ix0.arena, ix1.arena, Set::<int>::empty()),
        ix1.root == ix0.root,
    ensures
        keep::sound(t, ix0) ==> keep::sound(t, ix1),
        keep::same_answers(t, ix0, t, ix1),
{
    assert forall|k: Seq<u8>| k.len() == 32 implies #[trigger] ix1.path(t, k) == ix0.path(t, k) by {
        trie::law_path_depends_on_its_reads(t, t, ix0.arena, ix1.arena, ix0.root, k, 0);
    }
    if keep::sound(t, ix0) {
        assert forall|k: Seq<u8>| k.len() == 32 implies (#[trigger] ix1.path(t, k)).sound() by {
            assert(ix0.path(t, k).sound());
        }
    }
}

/// Pointing at a copy changes no answer.
proof fn lemma_copy_answers(t: Seq<Seq<u8>>, ix0: Index, ix1: Index, r: Reloc)
    requires
        keep::sound(t, ix0),
        is_copy(t, r),
        address(t[r.to as int]) matches Some((key, depth)) && key.len() == 32 && swap::swaps(
            t,
            ix0.arena,
            ix0.root,
            ix1.arena,
            ix1.root,
            key,
            (ChildView::At { hash: r.hp@, lba: r.from }),
            Some(ChildView::At { hash: r.hp@, lba: r.to }),
            edit::places(newer(ix0.removed, ix1.removed)),
            0,
            depth,
        ),
    ensures
        keep::sound(t, ix1),
        keep::same_answers(t, ix0, t, ix1),
        forall|k: Seq<u8>, p: u64|
            k.len() == 32 && (#[trigger] ix1.path(t, k).reads.contains(p)) ==> p != r.from && (p
                == r.to || ix0.path(t, k).reads.contains(p)),
{
    let (key, depth) = address(t[r.to as int])->0;
    let old = ChildView::At { hash: r.hp@, lba: r.from };
    let new = ChildView::At { hash: r.hp@, lba: r.to };
    let gone = edit::places(newer(ix0.removed, ix1.removed));
    haul::lemma_copy_stands(t, r.hp@, r.from, r.to);
    let fresh = Set::<u64>::empty().insert(r.to);
    assert(edit::branch_placed(t, ix0.arena, ix0.root, key, 0)) by {
        assert forall|k: Seq<u8>| k.len() == 32 && key::agree(k, key, 0) implies (
        #[trigger] trie::walk(t, ix0.arena, ix0.root, k, 0)).placed by {
            assert(ix0.path(t, k).sound());
        }
    }
    assert(swap::aimed(t, old, key, depth));
    assert forall|k: Seq<u8>| k.len() == 32 implies (#[trigger] ix1.path(t, k)).sound()
        && ix1.path(t, k).found == ix0.path(t, k).found && (forall|p: u64| #[trigger]
        ix1.path(t, k).reads.contains(p) ==> p != r.from && (p == r.to || ix0.path(
            t,
            k,
        ).reads.contains(p))) by {
        let a = ix0.path(t, k);
        let u = ix1.path(t, k);
        assert(a.sound());
        assert(key::agree(k, key, 0));
        assert(swap::swapped(
            t,
            trie::walk(t, ix0.arena, ix0.root, k, 0),
            trie::walk(t, ix1.arena, ix1.root, k, 0),
            k,
            key,
            old,
            Some(new),
            gone,
            0,
            depth,
        ));
        if !swap::passed_by(a, u, gone) || u.reads.contains(r.from) {
            let e = choose|e: int|
                0 <= e <= 52 && #[trigger] swap::passed_thru(
                    t,
                    a,
                    u,
                    k,
                    key,
                    old,
                    Some(new),
                    gone,
                    e,
                );
            assert(swap::tail(t, Some(old), k, e).sound());
            assert(haul::alike_from(t, old, new, fresh, k, e));
        }
    }
}

/// The errors of a reap of a sound index on a sure device: no room, or a value in too many runs.
pub open spec fn wants_room(e: ErrorView) -> bool {
    ||| e is Fenced
    ||| e is TractFull
    ||| exists|n: nat| e == #[trigger] doc::runs_overflow(n)
}

/// Whether every block is sealed.
fn all_sealed(blocks: &Vec<Block>) -> (r: bool)
    ensures
        r == (forall|i: int| 0 <= i < blocks@.len() ==> seal::hp_of((#[trigger] blocks@[i])@) is Some),
{
    let mut i: usize = 0;
    while i < blocks.len()
        invariant
            i <= blocks@.len(),
            forall|j: int| 0 <= j < i ==> seal::hp_of((#[trigger] blocks@[j])@) is Some,
        decreases blocks@.len() - i,
    {
        if sealed_hp(&blocks[i]).is_none() {
            assert(seal::hp_of(blocks@[i as int]@) is None);
            return false;
        }
        i = i + 1;
    }
    true
}

/// Whether a mark is among others.
fn has_mark(v: &Vec<(u64, [u8; 32])>, lba: u64, hp: &[u8; 32]) -> (r: bool)
    ensures
        r == marks_view(v@).contains((lba, hp@)),
{
    let mut i: usize = 0;
    while i < v.len()
        invariant
            i <= v@.len(),
            forall|j: int| 0 <= j < i ==> #[trigger] marks_view(v@)[j] != (lba, hp@),
        decreases v@.len() - i,
    {
        if v[i].0 == lba && same32(&v[i].1, hp) {
            assert(marks_view(v@)[i as int] == (lba, hp@));
            return true;
        }
        i = i + 1;
    }
    false
}

impl Hamt {
    /// Moves one block to the plow and points the index at the copy.
    #[verifier::rlimit(40)]
    fn move_block<A: BlockDev, B: BlockDev>(
        &mut self,
        mirror: &mut Mirror<A, B>,
        tract: &mut Tract,
        pos: u64,
        hp: &[u8; 32],
    ) -> (r: Result<()>)
        requires
            old(self)@.wf(),
            old(tract).wf(),
            old(mirror).has_device(),
            pos < old(tract).len,
            !tract::in_strip(
                pos as int,
                old(tract).plow as int,
                old(tract).reap + old(tract).len,
                old(tract).len as int,
            ),
        ensures
            stepped(old(mirror), old(tract), old(self)@, final(mirror), final(tract), final(self)@),
            ({
                let b = old(tract).on(old(mirror).disk())[pos as int];
                index_fit(old(mirror), old(tract), old(self)@) && seal::hp_of(b) == Some(hp@)
                    && address(b) is Some ==> {
                    &&& r is Ok ==> unread(
                        old(tract).on(final(mirror).disk()),
                        final(self)@,
                        pos,
                    )
                    &&& sure_of(old(mirror), old(tract)) ==> (r matches Err(e) ==> wants_room(e@)
                        && final(tract).refusal(1) is Some && final(tract).plow == old(tract).plow)
                }
            }),
            r is Ok ==> final(tract).plow <= old(tract).plow + 1 && final(self)@.dirt() <= old(
                self,
            )@.dirt() + 52,
            arrived(
                old(self)@.added,
                final(self)@.added,
                old(tract).plow as int,
                final(tract).plow as int,
                old(tract).len as int,
            ),
    {
        let ghost m0 = *mirror;
        let ghost tr0 = *tract;
        let ghost ix0 = self@;
        let ghost t0 = tract.on(mirror.disk());
        let ghost from = tract.plow as int;
        let ghost to = tract.reap + tract.len;
        proof {
            lemma_stepped_none(&m0, &tr0, ix0, mirror);
            lemma_newer_none(ix0.added);
        }
        let mut b = zero_block();
        tract.read(mirror, pos, &mut b)?;
        proof {
            lemma_stepped_none(&m0, &tr0, ix0, mirror);
        }
        let same = match sealed_hp(&b) {
            Some(h) => same32(&h, hp),
            None => false,
        };
        if !same {
            return Ok(());
        }
        let (at, h) = match append_one(mirror, tract, &b) {
            Ok(x) => x,
            Err(e) => {
                proof {
                    lemma_stepped_idle(&m0, &tr0, ix0, mirror, tract, self@);
                }
                return Err(e);
            },
        };
        let ghost t1 = tr0.on(mirror.disk());
        let ghost mid = tract.plow as int;
        proof {
            if index_fit(&m0, &tr0, ix0) {
                keep::lemma_undisturbed(t0, t1, ix0, from, mid, to);
                assert(keep::fit(t1, ix0, from, to)) by {
                    assert forall|k: Seq<u8>| k.len() == 32 implies (#[trigger] ix0.path(
                        t1,
                        k,
                    )).sound() by {
                        assert(ix0.path(t0, k).sound());
                    }
                    assert forall|k: Seq<u8>, p: u64|
                        k.len() == 32 && (#[trigger] ix0.path(t1, k).reads.contains(p)) implies p
                        < t1.len() && !tract::in_strip(p as int, from, to, t1.len() as int) by {
                        assert(ix0.path(t0, k).reads.contains(p));
                    }
                }
            }
            assert(t1[pos as int] == t0[pos as int]);
        }
        let reloc = Reloc { hp: *hp, from: pos, to: at };
        let ghost m1 = *mirror;
        match self.repair_reloc(mirror, tract, &reloc) {
            Err(e) => {
                proof {
                    lemma_stepped_idle(&m0, &tr0, ix0, mirror, tract, self@);
                }
                return Err(e);
            },
            Ok(()) => {},
        }
        let ghost ix_m = self@;
        self.delta.added.push((at, *hp));
        self.delta.removed.push((pos, *hp));
        proof {
            let ix1 = self@;
            let gone = newer(ix0.removed, ix_m.removed);
            let more = seq![(at, hp@)];
            let olds = seq![(pos, hp@)];
            let (key, depth) = address(t1[at as int])->0;
            let old = ChildView::At { hash: hp@, lba: pos };
            let new = ChildView::At { hash: hp@, lba: at };
            assert(ix1.added =~= ix0.added + more);
            assert(ix1.added.take(ix0.added.len() as int) =~= ix0.added);
            tract::lemma_strip_offset(from, 0, tr0.len as int);
            assert(ix1.removed =~= ix0.removed + gone + olds);
            assert(newer(ix0.removed, ix1.removed) =~= gone + olds);
            assert(ix1.removed.take(ix0.removed.len() as int) =~= ix0.removed);
            assert forall|q: int|
                0 <= q < t0.len() && !tract::in_strip(
                    q,
                    from,
                    tr0.reach(),
                    t0.len() as int,
                ) implies #[trigger] t1[q] == t0[q] by {}
            if index_fit(&m0, &tr0, ix0) {
                haul::lemma_copy_stands(t1, hp@, pos, at);
                assert(edit::places(more) =~= Set::<u64>::empty().insert(at)) by {
                    assert forall|p: u64| edit::places(more).contains(p) == (p == at) by {
                        if p == at {
                            assert(more[0].0 == p);
                        }
                    }
                }
                haul::lemma_hauled(
                    t1,
                    ix0,
                    ix1,
                    old,
                    new,
                    key,
                    depth,
                    more,
                    gone,
                    olds,
                    from,
                    mid,
                    to,
                );
                lemma_hauled_step(&m0, &tr0, ix0, mirror, tract, ix1);
            }
        }
        Ok(())
    }
}

/// What moved on a tract that was appended to is a step from before the append.
proof fn lemma_hauled_step<A: BlockDev, B: BlockDev>(
    m0: &Mirror<A, B>,
    tr0: &Tract,
    ix0: Index,
    m1: &Mirror<A, B>,
    tr1: &Tract,
    ix1: Index,
)
    requires
        tr0.wf(),
        plowed_on(m0, tr0, m1, tr1),
        index_fit(m0, tr0, ix0),
        ({
            let t0 = tr0.on(m0.disk());
            let t1 = tr0.on(m1.disk());
            let from = tr0.plow as int;
            let mid = tr1.plow as int;
            let to = tr0.reap + tr0.len;
            &&& tract::kept_outside(t0, t1, from, tr0.reach())
            &&& forall|k: Seq<u8>| k.len() == 32 ==> #[trigger] ix0.path(t1, k) == ix0.path(t0, k)
            &&& keep::fit(t1, ix1, mid, to)
            &&& keep::freshly(t1, ix0, t1, ix1, from, mid)
            &&& keep::same_answers(t1, ix0, t1, ix1)
            &&& keep::still_covered(t1, ix0, t1, ix1)
            &&& retires(t1, ix0, ix1, from, mid)
        }),
        extended(ix0.removed, ix1.removed),
    ensures
        stepped(m0, tr0, ix0, m1, tr1, ix1),
{
    let t0 = tr0.on(m0.disk());
    let t1 = tr0.on(m1.disk());
    let from = tr0.plow as int;
    let mid = tr1.plow as int;
    assert forall|k: Seq<u8>, p: u64|
        k.len() == 32 && (#[trigger] ix1.path(t1, k).reads.contains(p)) implies ix0.path(
        t0,
        k,
    ).reads.contains(p) || tract::in_strip(p as int, from, mid, t0.len() as int) by {
        assert(ix0.path(t1, k) == ix0.path(t0, k));
    }
    assert forall|k: Seq<u8>| k.len() == 32 implies (#[trigger] ix1.path(t1, k)).found
        == ix0.path(t0, k).found by {
        assert(ix0.path(t1, k) == ix0.path(t0, k));
    }
    assert forall|m: Map<u64, Seq<u8>>| keep::covered(t0, ix0, m) implies #[trigger] keep::covered(
        t1,
        ix1,
        m,
    ) by {
        let a = keep::applied(m, ix0.added, ix0.removed);
        assert(keep::covered(t1, ix0, m)) by {
            assert forall|k: Seq<u8>, p: u64|
                k.len() == 32 && (#[trigger] ix0.path(t1, k).reads.contains(p)) implies p
                < t1.len() && seal::hp_of(t1[p as int]) is Some && a.contains_key(p) && Some(a[p])
                == seal::hp_of(t1[p as int]) by {
                assert(ix0.path(t0, k).reads.contains(p));
                assert(keep::knows(t0, ix0, a));
                assert(t1[p as int] == t0[p as int]);
            }
        }
    }
}

/// Whether every item of a group is outside of the clean space.
pub open spec fn group_away(group: Seq<(u64, u64)>, tract: &Tract) -> bool {
    forall|i: int|
        0 <= i < group.len() ==> (#[trigger] group[i]).0 < tract.len && !tract::in_strip(
            group[i].0 as int,
            tract.plow as int,
            tract.reap + tract.len,
            tract.len as int,
        )
}

/// Whether every item of a group is the furrow of `key` that it says.
pub open spec fn group_true(t: Seq<Seq<u8>>, key: Seq<u8>, group: Seq<(u64, u64)>) -> bool {
    forall|i: int|
        0 <= i < group.len() ==> (#[trigger] group[i]).0 < t.len() && survey::is_furrow(
            t,
            key,
            group[i].0,
            group[i].1 as int,
        )
}

/// Whether no item of a group is read.
pub open spec fn group_unread(t: Seq<Seq<u8>>, ix: Index, group: Seq<(u64, u64)>) -> bool {
    forall|i: int| 0 <= i < group.len() ==> unread(t, ix, (#[trigger] group[i]).0)
}

/// A furrow of `key` is read by `key` alone, and only as one of the furrows of its leaf.
proof fn lemma_furrow_reader(t: Seq<Seq<u8>>, ix: Index, key: Seq<u8>, p: u64, index: int)
    requires
        keep::sound(t, ix),
        key.len() == 32,
        p < t.len(),
        survey::is_furrow(t, key, p, index),
        !unread(t, ix, p),
    ensures
        ix.path(t, key).reads.contains(p),
        ix.path(t, key).leaf matches Ok(Some((l, h))) && (trie::doc_at(t, l, h) matches Ok(
            Some(leaf),
        ) && trie::leaf_key(leaf) == Some(key) && trie::furrow_set(leaf).contains(p)
            && trie::leaf_value(t, leaf) is Ok),
{
    seal::lemma_zero_unsealed();
    let k = choose|k: Seq<u8>|
        k.len() == 32 && (#[trigger] ix.path(t, k)).reads.contains(p);
    assert(ix.path(t, k).sound());
    trie::lemma_sound_reads(t, ix.arena, ix.root, k, 0);
    assert(k == key);
    trie::lemma_furrow_reads(t, ix.arena, ix.root, key, 0, p);
    lemma_leaf_found(t, ix.arena, ix.root, key, 0);
}

/// The furrows of a readable leaf stand under their own index.
proof fn lemma_listed_index(
    t: Seq<Seq<u8>>,
    leaf: DocView,
    key: Seq<u8>,
    ps: Seq<u64>,
    p: u64,
    index: int,
)
    requires
        trie::leaf_value(t, leaf) is Ok,
        trie::leaf_key(leaf) == Some(key),
        trie::leaf_positions(leaf) == Ok::<Seq<u64>, ErrorView>(ps),
        p < t.len(),
        survey::is_furrow(t, key, p, index),
    ensures
        forall|j: int| 0 <= j < ps.len() && #[trigger] ps[j] == p ==> j == index,
{
    assert forall|j: int| 0 <= j < ps.len() && #[trigger] ps[j] == p implies j == index by {
        trie::lemma_furrow_in_place(t, leaf, ps, j);
    }
}

/// Whether the leaf of a key can list `n` furrows elsewhere: none of the older layout, and where it
/// lists runs, so few that they fit when every move splits one in three.
pub open spec fn is_light(t: Seq<Seq<u8>>, ix: Index, k: Seq<u8>, n: nat) -> bool {
    match ix.path(t, k).leaf {
        Ok(Some((lba, hash))) => match trie::doc_at(t, lba, hash) {
            Ok(Some(DocView::Direct { .. })) => false,
            Ok(Some(DocView::Extent { size, runs, .. })) => match extent::expanded(runs, size) {
                Ok(ps) => extent::packed(ps).len() + 2 * n <= 123,
                Err(_) => true,
            },
            _ => true,
        },
        _ => true,
    }
}

/// What moving `n` furrows of a key costs at most, and what it leaves alone.
spec fn hauled<A: BlockDev, B: BlockDev>(
    m0: &Mirror<A, B>,
    tr0: &Tract,
    ix0: Index,
    m1: &Mirror<A, B>,
    tr1: &Tract,
    ix1: Index,
    key: Seq<u8>,
    n: nat,
) -> bool {
    &&& other_leaves(tr0.on(m0.disk()), ix0, tr0.on(m1.disk()), ix1, key)
    &&& tr1.plow <= tr0.plow + 2 * n
    &&& ix1.dirt() <= ix0.dirt() + 52 * n
    &&& arrived(ix0.added, ix1.added, tr0.plow as int, tr1.plow as int, tr0.len as int)
}

/// Leaves that a path still leads to, and that were not written over, stand as they did.
proof fn lemma_leaves_kept(
    t0: Seq<Seq<u8>>,
    ix0: Index,
    t1: Seq<Seq<u8>>,
    ix1: Index,
    key: Seq<u8>,
    from: int,
    mid: int,
    to: int,
)
    requires
        from <= mid <= to,
        to - from <= t0.len(),
        keep::fit(t0, ix0, from, to),
        tract::kept_outside(t0, t1, from, mid),
        forall|k: Seq<u8>|
            k.len() == 32 && k != key ==> (#[trigger] ix1.path(t1, k)).leaf == ix0.path(t0, k).leaf,
    ensures
        other_leaves(t0, ix0, t1, ix1, key),
{
    assert forall|k: Seq<u8>, n: nat| k.len() == 32 && k != key implies #[trigger] is_light(
        t1,
        ix1,
        k,
        n,
    ) == is_light(t0, ix0, k, n) by {
        assert(ix1.path(t1, k).leaf == ix0.path(t0, k).leaf);
        lemma_leaf_found(t0, ix0.arena, ix0.root, k, 0);
        if let Ok(Some((lba, hash))) = ix0.path(t0, k).leaf {
            assert(ix0.path(t0, k).reads.contains(lba));
            assert(!tract::in_strip(lba as int, from, to, t0.len() as int));
            assert(t1[lba as int] == t0[lba as int]);
        }
    }
}

/// Whether the leaves of all keys but one stand as they did.
spec fn other_leaves(
    t0: Seq<Seq<u8>>,
    ix0: Index,
    t1: Seq<Seq<u8>>,
    ix1: Index,
    key: Seq<u8>,
) -> bool {
    forall|k: Seq<u8>, n: nat|
        k.len() == 32 && k != key ==> #[trigger] is_light(t1, ix1, k, n) == is_light(t0, ix0, k, n)
}

impl Hamt {
    /// Moves furrows of an extent to the plow and rebuilds the leaf that lists them.
    #[verifier::rlimit(80)]
    fn haul_extent<A: BlockDev, B: BlockDev>(
        &mut self,
        mirror: &mut Mirror<A, B>,
        tract: &mut Tract,
        key: &[u8; 32],
        leaf_lba: u64,
        leaf_hash: &[u8; 32],
        size: u64,
        runs: &Vec<(u64, u64)>,
        group: &Vec<(u64, u64)>,
    ) -> (r: Result<()>)
        requires
            old(self)@.wf(),
            old(tract).wf(),
            old(mirror).has_device(),
            group_away(group@, old(tract)),
            ({
                let t = old(tract).on(old(mirror).disk());
                &&& trie::doc_at(t, leaf_lba, leaf_hash@) == Ok::<Option<DocView>, ErrorView>(
                    Some(DocView::Extent { key: key@, size, runs: runs@ }),
                )
                &&& old(self)@.path(t, key@).leaf == Ok::<Option<(u64, Seq<u8>)>, ErrorView>(
                    Some((leaf_lba, leaf_hash@)),
                )
            }),
        ensures
            stepped(old(mirror), old(tract), old(self)@, final(mirror), final(tract), final(self)@),
            index_fit(old(mirror), old(tract), old(self)@) && group_true(
                old(tract).on(old(mirror).disk()),
                key@,
                group@,
            ) ==> {
                &&& r is Ok ==> group_unread(
                    old(tract).on(final(mirror).disk()),
                    final(self)@,
                    group@,
                )
                &&& sure_of(old(mirror), old(tract)) ==> (r matches Err(e) ==> wants_room(e@))
                &&& sure_of(old(mirror), old(tract)) && is_light(
                    old(tract).on(old(mirror).disk()),
                    old(self)@,
                    key@,
                    group@.len(),
                ) && old(tract).refusal(2 * group@.len()) is None ==> r is Ok
            },
            index_fit(old(mirror), old(tract), old(self)@) && r is Ok ==> hauled(
                old(mirror),
                old(tract),
                old(self)@,
                final(mirror),
                final(tract),
                final(self)@,
                key@,
                group@.len(),
            ),
    {
        let ghost m0 = *mirror;
        let ghost tr0 = *tract;
        let ghost ix0 = self@;
        let ghost t0 = tract.on(mirror.disk());
        let ghost from = tract.plow as int;
        let ghost to = tract.reap + tract.len;
        let ghost len = tract.len as int;
        let ghost leaf = DocView::Extent { key: key@, size, runs: runs@ };
        let ghost good = index_fit(&m0, &tr0, ix0) && group_true(t0, key@, group@);
        proof {
            lemma_stepped_none(&m0, &tr0, ix0, mirror);
            lemma_newer_none(ix0.added);
            lemma_leaf_found(t0, ix0.arena, ix0.root, key@, 0);
            if good {
                assert(ix0.path(t0, key@).sound());
            }
        }
        let mut positions = expand_runs(runs, size)?;
        let ghost ps = positions@;
        let sorted = by_index(group);
        let moves = still_listed(&sorted, &positions);
        proof {
            if good {
                assert forall|i: int| 0 <= i < group@.len() implies moves@.contains(
                    #[trigger] group@[i],
                ) || unread(t0, ix0, group@[i].0) by {
                    let x = group@[i];
                    assert(group@.contains(x));
                    assert(sorted@.contains(x));
                    if !unread(t0, ix0, x.0) {
                        lemma_furrow_reader(t0, ix0, key@, x.0, x.1 as int);
                        let j = choose|j: int| 0 <= j < ps.len() && ps[j] == x.0;
                        lemma_listed_index(t0, leaf, key@, ps, x.0, x.1 as int);
                        assert(ps[j] == x.0);
                        assert(regroup::is_listed(x, ps));
                    }
                }
            }
        }
        if moves.len() == 0 {
            proof {
                if good {
                    assert forall|i: int| 0 <= i < group@.len() implies unread(
                        t0,
                        ix0,
                        (#[trigger] group@[i]).0,
                    ) by {
                        assert(!moves@.contains(group@[i]));
                    }
                }
            }
            return Ok(());
        }
        proof {
            assert forall|x: int| 0 <= x < moves@.len() implies regroup::is_listed(
                #[trigger] moves@[x],
                ps,
            ) && (exists|i: int| 0 <= i < group@.len() && #[trigger] group@[i] == moves@[x]) by {
                assert(moves@.contains(moves@[x]));
                assert(sorted@.contains(moves@[x]));
                assert(group@.contains(moves@[x]));
            }
            assert forall|x: int| 0 <= x < moves@.len() implies (#[trigger] moves@[x]).0 < len
                && !tract::in_strip(moves@[x].0 as int, from, to, len) by {
                let i = choose|i: int| 0 <= i < group@.len() && #[trigger] group@[i] == moves@[x];
                assert(group@[i].0 < len);
            }
        }
        let payload = match read_blocks(mirror, tract, &moves) {
            Ok(p) => p,
            Err(e) => {
                proof {
                    lemma_stepped_none(&m0, &tr0, ix0, mirror);
                }
                return Err(e);
            },
        };
        proof {
            lemma_stepped_none(&m0, &tr0, ix0, mirror);
            if good {
                assert forall|x: int| 0 <= x < payload@.len() implies seal::hp_of(
                    (#[trigger] payload@[x])@,
                ) is Some by {
                    let i = choose|i: int|
                        0 <= i < group@.len() && #[trigger] group@[i] == moves@[x];
                    assert(survey::is_furrow(t0, key@, group@[i].0, group@[i].1 as int));
                    assert(payload@[x]@ == t0[moves@[x].0 as int]);
                }
            }
        }
        if !all_sealed(&payload) {
            return Err(corrupt_err("furrow changed underneath the reap"));
        }
        let ghost m_a = *mirror;
        let placed = match tract.append(mirror, payload.as_slice()) {
            Ok(p) => p,
            Err(e) => {
                proof {
                    lemma_stepped_idle(&m0, &tr0, ix0, mirror, tract, self@);
                }
                return Err(e);
            },
        };
        let ghost t1 = tr0.on(mirror.disk());
        let ghost tr1 = *tract;
        let ghost nm = moves@.len() as int;
        proof {
            assert(tract::kept_outside(t0, t1, from, tr0.reach()));
            lemma_stepped_idle(&m0, &tr0, ix0, mirror, tract, self@);
            assert forall|x: int| 0 <= x < nm implies (#[trigger] placed@[x]) < len
                && t1[placed@[x] as int] == payload@[x]@ && tract::in_strip(
                placed@[x] as int,
                from,
                from + nm,
                len,
            ) by {
                tract::lemma_strip_offset(from, x, len);
                assert(placed@[x] == (from + x) % len);
                assert(t1[placed@[x] as int] == tract::blocks_view(payload@)[x]);
            }
        }
        patch(&mut positions, &moves, &placed);
        let ghost qs = positions@;
        let new_runs = compress_runs(&positions);
        let new_leaf = match encode_extent(key, size, &new_runs) {
            Ok(b) => b,
            Err(e) => {
                assert(wants_room(e@));
                return Err(e);
            },
        };
        let ghost leaf1 = DocView::Extent { key: key@, size, runs: new_runs@ };
        proof {
            doc::law_doc_reads_back(leaf1);
        }
        let (nl, nh) = match append_one(mirror, tract, &new_leaf) {
            Ok(x) => x,
            Err(e) => {
                proof {
                    let t2 = tr0.on(mirror.disk());
                    assert(tr1.reach() == tr0.reach());
                    assert forall|q: int|
                        0 <= q < len && !tract::in_strip(q, from, tr0.reach(), len) implies #[trigger] t2[q]
                        == t0[q] by {
                        if tract::in_strip(q, tr1.plow as int, tr1.reach(), len) {
                            tract::lemma_strip_tail(q, from, tr1.plow as int, tr1.reach(), len);
                        }
                        assert(t1[q] == t0[q]);
                    }
                    lemma_stepped_idle(&m0, &tr0, ix0, mirror, tract, self@);
                }
                return Err(e);
            },
        };
        let ghost t2 = tr0.on(mirror.disk());
        let ghost mid = tract.plow as int;
        let ghost old_at = ChildView::At { hash: leaf_hash@, lba: leaf_lba };
        let ghost new_at = ChildView::At { hash: nh@, lba: nl };
        let mut added = mark_blocks(&placed, &payload);
        proof {
            assert(tr1.reach() == tr0.reach());
            assert forall|q: int|
                0 <= q < len && !tract::in_strip(q, from, mid, len) implies #[trigger] t2[q]
                == t0[q] by {
                if tract::in_strip(q, tr1.plow as int, mid, len) {
                    tract::lemma_strip_tail(q, from, tr1.plow as int, mid, len);
                }
                if tract::in_strip(q, from, from + nm, len) {
                }
                assert(t1[q] == t0[q]);
            }
            assert(tract::kept_outside(t0, t2, from, mid));
            assert(tract::kept_outside(t0, t2, from, tr0.reach()));
            lemma_stepped_idle(&m0, &tr0, ix0, mirror, tract, self@);
            if index_fit(&m0, &tr0, ix0) {
                keep::lemma_undisturbed(t0, t2, ix0, from, mid, to);
                assert(ix0.path(t2, key@) == ix0.path(t0, key@));
                assert(ix0.path(t0, key@).sound());
            }
            edit::lemma_soiled(t2, self@.arena, self@.arena, self@.root, key@, 0);
        }
        let root = self.root;
        let ghost m2 = *mirror;
        let new = Some(Child::Committed { hash: nh, lba: nl });
        let new_root = match self.repoint(
            mirror,
            tract,
            root,
            0,
            key,
            255,
            leaf_hash,
            leaf_lba,
            new,
        ) {
            Ok(x) => x,
            Err(e) => {
                proof {
                    lemma_stepped_idle(&m0, &tr0, ix0, mirror, tract, self@);
                }
                return Err(e);
            },
        };
        self.root = new_root;
        let ghost ix_m = self@;
        let mut removed: Vec<(u64, [u8; 32])> = Vec::new();
        let mut i: usize = 0;
        while i < moves.len()
            invariant
                i <= moves@.len(),
                moves@.len() == payload@.len(),
                removed@.len() == i,
                added@.len() == moves@.len(),
                forall|j: int|
                    0 <= j < i ==> (#[trigger] removed@[j]).0 == moves@[j].0 && removed@[j].1
                        == added@[j].1,
            decreases moves@.len() - i,
        {
            removed.push((moves[i].0, added[i].1));
            i = i + 1;
        }
        added.push((nl, nh));
        removed.push((leaf_lba, *leaf_hash));
        let ghost more = marks_view(added@);
        let ghost olds = marks_view(removed@);
        self.delta.added.append(&mut added);
        self.delta.removed.append(&mut removed);
        proof {
            let ix1 = self@;
            let gone = newer(ix0.removed, ix_m.removed);
            assert(ix1.added =~= ix0.added + more);
            assert(ix1.removed =~= ix0.removed + gone + olds);
            assert(newer(ix0.removed, ix1.removed) =~= gone + olds);
            assert(ix1.removed.take(ix0.removed.len() as int) =~= ix0.removed);
            assert forall|x: int| 0 <= x < nm implies (#[trigger] placed@[x]) < t2.len()
                && t2[placed@[x] as int] == tract::blocks_view(payload@)[x] && tract::in_strip(
                placed@[x] as int,
                from,
                from + nm,
                t2.len() as int,
            ) by {
                tract::lemma_strip_apart(placed@[x] as int, from, from + nm, mid, len);
                assert(t1[placed@[x] as int] == payload@[x]@);
                assert(t2[placed@[x] as int] == t1[placed@[x] as int]);
            }
            if index_fit(&m0, &tr0, ix0) {
                lemma_rebuilt(
                    t0,
                    t2,
                    ix0,
                    ix1,
                    old_at,
                    new_at,
                    key@,
                    size,
                    leaf,
                    leaf1,
                    ps,
                    qs,
                    moves@,
                    placed@,
                    tract::blocks_view(payload@),
                    more,
                    gone,
                    olds,
                    from,
                    nm,
                    mid,
                    to,
                );
                lemma_hauled_step(&m0, &tr0, ix0, mirror, tract, ix1);
                lemma_leaves_kept(t0, ix0, t2, ix1, key@, from, mid, to);
                assert(ix1.added.take(ix0.added.len() as int) =~= ix0.added);
                assert forall|x: int| ix0.added.len() <= x < ix1.added.len() implies (
                #[trigger] ix1.added[x]).0 < len && tract::in_strip(
                    ix1.added[x].0 as int,
                    from,
                    mid,
                    len,
                ) by {
                    assert(ix1.added[x] == more[x - ix0.added.len()]);
                }
                if good {
                    assert forall|g: int| 0 <= g < group@.len() implies unread(
                        t2,
                        ix1,
                        (#[trigger] group@[g]).0,
                    ) by {
                        let x = group@[g];
                        if moves@.contains(x) {
                            let y = choose|y: int| 0 <= y < moves@.len() && moves@[y] == x;
                            assert(olds[y].0 == x.0);
                            haul::lemma_places_add(gone, olds, x.0);
                            assert forall|k: Seq<u8>| k.len() == 32 implies !(
                            #[trigger] ix1.path(t2, k)).reads.contains(x.0) by {
                                if ix1.path(t2, k).reads.contains(x.0) {
                                    assert(tract::in_strip(x.0 as int, from, mid, len));
                                }
                            }
                        } else {
                            lemma_unread_stays(&m0, &tr0, ix0, mirror, tract, ix1, x.0);
                        }
                    }
                }
            }
        }
        Ok(())
    }
}

/// What rebuilding the leaf of moved furrows keeps.
#[verifier::rlimit(60)]
proof fn lemma_rebuilt(
    t0: Seq<Seq<u8>>,
    t: Seq<Seq<u8>>,
    ix0: Index,
    ix1: Index,
    old: ChildView,
    new: ChildView,
    key: Seq<u8>,
    size: u64,
    a: DocView,
    b: DocView,
    ps: Seq<u64>,
    qs: Seq<u64>,
    moves: Seq<(u64, u64)>,
    placed: Seq<u64>,
    payload: Seq<Seq<u8>>,
    more: Seq<(u64, Seq<u8>)>,
    gone: Seq<(u64, Seq<u8>)>,
    olds: Seq<(u64, Seq<u8>)>,
    from: int,
    nm: int,
    mid: int,
    to: int,
)
    requires
        key.len() == 32,
        old is At,
        new is At,
        from <= from + nm < mid <= to,
        to - from <= t0.len(),
        keep::fit(t0, ix0, from, to),
        tract::kept_outside(t0, t, from, mid),
        ix0.path(t0, key).leaf == Ok::<Option<(u64, Seq<u8>)>, ErrorView>(
            Some((old->lba, old->hash)),
        ),
        trie::doc_at(t0, old->lba, old->hash) == Ok::<Option<DocView>, ErrorView>(Some(a)),
        a == (DocView::Extent { key, size, runs: a->Extent_runs }),
        trie::leaf_positions(a) == Ok::<Seq<u64>, ErrorView>(ps),
        b == (DocView::Extent { key, size, runs: extent::packed(qs) }),
        doc::doc_fits(b),
        new->lba < t.len(),
        t[new->lba as int] == doc::doc_block(b),
        new->hash == doc::doc_hash(b),
        tract::in_strip(new->lba as int, from + nm, mid, t.len() as int),
        swap::swaps(
            t,
            ix0.arena,
            ix0.root,
            ix1.arena,
            ix1.root,
            key,
            old,
            Some(new),
            edit::places(gone),
            0,
            255,
        ),
        moves.len() == nm == placed.len() == payload.len(),
        qs.len() == ps.len(),
        forall|i: int|
            0 <= i < ps.len() ==> #[trigger] regroup::patched_at(ps, qs, moves, placed, nm, i),
        forall|x: int|
            0 <= x < nm ==> regroup::is_listed(#[trigger] moves[x], ps) && moves[x].0 < t0.len()
                && payload[x] == t0[moves[x].0 as int] && seal::hp_of(payload[x]) is Some
                && !tract::in_strip(moves[x].0 as int, from, to, t0.len() as int),
        forall|x: int|
            0 <= x < nm ==> (#[trigger] placed[x]) < t.len() && t[placed[x] as int] == payload[x]
                && tract::in_strip(placed[x] as int, from, from + nm, t.len() as int),
        more.len() == nm + 1,
        forall|x: int|
            0 <= x < nm ==> (#[trigger] more[x]).0 == placed[x] && Some(more[x].1) == seal::hp_of(
                payload[x],
            ),
        more[nm] == (new->lba, new->hash),
        olds.len() == nm + 1,
        forall|x: int| 0 <= x < nm ==> (#[trigger] olds[x]).0 == moves[x].0,
        olds[nm] == (old->lba, old->hash),
        ix1.added == ix0.added + more,
        ix1.removed == ix0.removed + gone + olds,
    ensures
        forall|k: Seq<u8>| k.len() == 32 ==> #[trigger] ix0.path(t, k) == ix0.path(t0, k),
        keep::fit(t, ix1, mid, to),
        keep::freshly(t, ix0, t, ix1, from, mid),
        keep::same_answers(t, ix0, t, ix1),
        keep::still_covered(t, ix0, t, ix1),
        forall|k: Seq<u8>, p: u64|
            k.len() == 32 && (#[trigger] ix1.path(t, k).reads.contains(p)) ==> edit::places(
                gone + olds,
            ).contains(p) ==> tract::in_strip(p as int, from, mid, t.len() as int),
        forall|k: Seq<u8>|
            k.len() == 32 && k != key ==> (#[trigger] ix1.path(t, k)).leaf == ix0.path(t0, k).leaf,
        settle::marks_stand(t, more, from, mid),
{
    let len = t0.len() as int;
    keep::lemma_undisturbed(t0, t, ix0, from, mid, to);
    assert(keep::fit(t, ix0, from, to)) by {
        assert forall|k: Seq<u8>| k.len() == 32 implies (#[trigger] ix0.path(t, k)).sound() by {
            assert(ix0.path(t0, k).sound());
        }
        assert forall|k: Seq<u8>, p: u64|
            k.len() == 32 && (#[trigger] ix0.path(t, k).reads.contains(p)) implies p < t.len()
            && !tract::in_strip(p as int, from, to, t.len() as int) by {
            assert(ix0.path(t0, k).reads.contains(p));
        }
    }
    lemma_leaf_found(t0, ix0.arena, ix0.root, key, 0);
    lemma_leaf_found(t, ix0.arena, ix0.root, key, 0);
    assert(ix0.path(t0, key).sound());
    assert(ix0.path(t, key) == ix0.path(t0, key));
    assert(ix0.path(t0, key).reads.contains(old->lba));
    assert(t[old->lba as int] == t0[old->lba as int]);
    doc::law_doc_reads_back(b);
    assert(trie::doc_at(t, new->lba, new->hash) == Ok::<Option<DocView>, ErrorView>(Some(b)));
    extent::lemma_expanded_len(a->Extent_runs, size);
    extent::law_packed_positions_expand_back(qs, size);
    assert forall|x: int| 0 <= x < nm implies #[trigger] t[moves[x].0 as int]
        == t0[moves[x].0 as int] by {
        assert(regroup::is_listed(moves[x], ps));
        if tract::in_strip(moves[x].0 as int, from, mid, len) {
        }
    }
    assert forall|i: int| 0 <= i < ps.len() && (#[trigger] ps[i]) < t.len() implies qs[i] < t.len()
        && t[qs[i] as int] == t[ps[i] as int] by {
        assert(regroup::patched_at(ps, qs, moves, placed, nm, i));
        if qs[i] != ps[i] {
            let x = choose|x: int| 0 <= x < nm && (#[trigger] moves[x]).1 == i && qs[i] == placed[x];
            assert(regroup::is_listed(moves[x], ps));
            assert(placed[x] < t.len());
            assert(t[moves[x].0 as int] == t0[moves[x].0 as int]);
        }
    }
    let fresh = edit::places(more);
    assert forall|i: int| 0 <= i < qs.len() implies (#[trigger] qs[i]) == ps[i] || fresh.contains(
        qs[i],
    ) by {
        assert(regroup::patched_at(ps, qs, moves, placed, nm, i));
        if qs[i] != ps[i] {
            let x = choose|x: int| 0 <= x < nm && (#[trigger] moves[x]).1 == i && qs[i] == placed[x];
            assert(more[x].0 == placed[x]);
        }
    }
    assert(fresh.contains(new->lba)) by {
        assert(more[nm].0 == new->lba);
    }
    tract::lemma_strip_tail(new->lba as int, from, from + nm, mid, len);
    assert(old->lba != new->lba) by {
        if old->lba == new->lba {
            assert(ix0.path(t, key).reads.contains(old->lba));
        }
    }
    haul::lemma_leaf_stands(t, old, new, key, size, a, b, ps, qs, fresh);
    assert(settle::marks_stand(t, more, from, mid)) by {
        assert forall|i: int| 0 <= i < more.len() implies ({
            let e = #[trigger] more[i];
            &&& e.0 < t.len()
            &&& tract::in_strip(e.0 as int, from, mid, len)
            &&& seal::hp_of(t[e.0 as int]) == Some(e.1)
        }) by {
            if i < nm {
                assert(placed[i] < t.len());
            }
        }
    }
    assert forall|i: int| 0 <= i < olds.len() implies (#[trigger] olds[i]).0 == old->lba || (
    doc::doc_of(t[olds[i].0 as int]) matches Ok(DocView::Furrow { key: k, .. }) && k == key
        && olds[i].0 < t.len() && seal::hp_of(t[olds[i].0 as int]) is Some && ix0.path(
        t,
        key,
    ).leaf == Ok::<Option<(u64, Seq<u8>)>, ErrorView>(Some((old->lba, old->hash))) && !(exists|
        e: int,
    |
        swap::tail(t, Some(new), key, e).reads.contains(olds[i].0))) by {
        if i < nm {
            let p = moves[i].0;
            assert(regroup::is_listed(moves[i], ps));
            assert(t[p as int] == t0[p as int]);
            let ii = moves[i].1 as int;
            assert(ps[ii] == p);
            trie::lemma_furrow_in_place(t, a, ps, ii);
            assert forall|e: int| !(#[trigger] swap::tail(t, Some(new), key, e)).reads.contains(
                p,
            ) by {
                if swap::tail(t, Some(new), key, e).reads.contains(p) {
                    if p == new->lba {
                        assert(tract::in_strip(p as int, from, mid, len));
                    } else {
                        let j = choose|j: int| 0 <= j < qs.len() && qs[j] == p;
                        assert(regroup::patched_at(ps, qs, moves, placed, nm, j));
                        if qs[j] == ps[j] && (forall|x: int|
                            0 <= x < nm ==> (#[trigger] moves[x]).1 != j) {
                            trie::lemma_furrow_in_place(t, a, ps, j);
                            assert(j == ii);
                            assert(moves[i].1 == j);
                        } else {
                            let x = choose|x: int|
                                0 <= x < nm && (#[trigger] moves[x]).1 == j && qs[j] == placed[x];
                            assert(placed[x] == p);
                            assert(tract::in_strip(p as int, from, from + nm, len));
                        }
                    }
                }
            }
        }
    }
    assert(swap::aimed(t, old, key, 255));
    haul::lemma_hauled(t, ix0, ix1, old, new, key, 255, more, gone, olds, from, mid, to);
    assert forall|k: Seq<u8>| k.len() == 32 && k != key implies (#[trigger] ix1.path(t, k)).leaf
        == ix0.path(t0, k).leaf by {
        lemma_leaf_found(t0, ix0.arena, ix0.root, k, 0);
        assert(ix0.path(t, k) == ix0.path(t0, k));
    }
}

impl Hamt {
    /// Moves the furrows of one owner that a window holds: an extent gets its leaf rebuilt, a value
    /// of the older layout is written anew as a whole. Where the owner is gone they are garbage.
    #[verifier::rlimit(60)]
    fn haul_furrows<A: BlockDev, B: BlockDev>(
        &mut self,
        mirror: &mut Mirror<A, B>,
        tract: &mut Tract,
        key: &[u8; 32],
        group: &Vec<(u64, u64)>,
    ) -> (r: Result<()>)
        requires
            old(self)@.wf(),
            old(tract).wf(),
            old(mirror).has_device(),
            group_away(group@, old(tract)),
        ensures
            stepped(old(mirror), old(tract), old(self)@, final(mirror), final(tract), final(self)@),
            index_fit(old(mirror), old(tract), old(self)@) && group_true(
                old(tract).on(old(mirror).disk()),
                key@,
                group@,
            ) ==> {
                &&& r is Ok ==> group_unread(
                    old(tract).on(final(mirror).disk()),
                    final(self)@,
                    group@,
                )
                &&& sure_of(old(mirror), old(tract)) ==> (r matches Err(e) ==> wants_room(e@))
                &&& sure_of(old(mirror), old(tract)) && is_light(
                    old(tract).on(old(mirror).disk()),
                    old(self)@,
                    key@,
                    group@.len(),
                ) && old(tract).refusal(2 * group@.len()) is None ==> r is Ok
            },
            index_fit(old(mirror), old(tract), old(self)@) && r is Ok && is_light(
                old(tract).on(old(mirror).disk()),
                old(self)@,
                key@,
                group@.len(),
            ) ==> hauled(
                old(mirror),
                old(tract),
                old(self)@,
                final(mirror),
                final(tract),
                final(self)@,
                key@,
                group@.len(),
            ),
    {
        let ghost m0 = *mirror;
        let ghost tr0 = *tract;
        let ghost ix0 = self@;
        let ghost t0 = tract.on(mirror.disk());
        let ghost good = index_fit(&m0, &tr0, ix0) && group_true(t0, key@, group@);
        proof {
            lemma_newer_none(ix0.added);
            lemma_leaf_errors(t0, ix0.arena, ix0.root, key@, 0);
            lemma_leaf_found(t0, ix0.arena, ix0.root, key@, 0);
            if good {
                assert(ix0.path(t0, key@).sound());
            }
        }
        let found = self.find_leaf(mirror, tract, key);
        proof {
            lemma_stepped_none(&m0, &tr0, ix0, mirror);
            if good && (ix0.path(t0, key@).leaf matches Ok(None)) {
                assert forall|i: int| 0 <= i < group@.len() implies unread(
                    t0,
                    ix0,
                    (#[trigger] group@[i]).0,
                ) by {
                    if !unread(t0, ix0, group@[i].0) {
                        lemma_furrow_reader(t0, ix0, key@, group@[i].0, group@[i].1 as int);
                    }
                }
            }
        }
        let (leaf_lba, leaf_hash) = match found {
            Err(e) => return Err(e),
            Ok(None) => return Ok(()),
            Ok(Some(x)) => x,
        };
        let ghost m_a = *mirror;
        let doc = read_doc(mirror, tract, leaf_lba, &leaf_hash);
        proof {
            lemma_stepped_none(&m0, &tr0, ix0, mirror);
        }
        let doc = match doc {
            Err(e) => return Err(e),
            Ok(d) => d,
        };
        match doc {
            Some(TractDoc::Extent { key: k, size, runs }) => {
                assert(k@ == key@);
                let ghost m1 = *mirror;
                let done = self.haul_extent(
                    mirror,
                    tract,
                    key,
                    leaf_lba,
                    &leaf_hash,
                    size,
                    &runs,
                    group,
                );
                proof {
                    assert(m1.disk() == m0.disk());
                    assert(tr0.on(m1.disk()) == t0);
                    lemma_stepped_twice(
                        &m0,
                        &tr0,
                        ix0,
                        &m1,
                        &tr0,
                        ix0,
                        mirror,
                        tract,
                        self@,
                    );
                }
                done
            },
            Some(TractDoc::Direct { key: k, size, furrows }) => {
                let value = match read_furrows(mirror, tract, key, size, &furrows) {
                    Ok(v) => v,
                    Err(e) => {
                        proof {
                            lemma_stepped_none(&m0, &tr0, ix0, mirror);
                        }
                        return Err(e);
                    },
                };
                let ghost m1 = *mirror;
                assert(m1.disk() == m0.disk());
                assert(tr0.on(m1.disk()) == t0);
                proof {
                    lemma_stepped_none(&m0, &tr0, ix0, mirror);
                    assert(ix0.path(t0, key@).found == Ok::<Option<Seq<u8>>, ErrorView>(
                        Some(value@),
                    ));
                }
                let done = self.put(mirror, tract, key, value.as_slice());
                proof {
                    let t1 = tr0.on(mirror.disk());
                    let ix1 = self@;
                    if index_fit(&m1, &tr0, ix0) {
                        assert(keep::same_answers(t0, ix0, t1, ix1)) by {
                            assert forall|x: Seq<u8>| x.len() == 32 implies (#[trigger] ix1.path(
                                t1,
                                x,
                            )).found == ix0.path(t0, x).found by {
                                if x == key@ {
                                }
                            }
                        }
                        assert(retires(
                            t1,
                            ix0,
                            ix1,
                            tr0.plow as int,
                            tract.plow as int,
                        )) by {
                            if done is Err {
                                lemma_newer_none(ix0.removed);
                            }
                        }
                    }
                    assert(stepped(&m1, &tr0, ix0, mirror, tract, ix1));
                    lemma_stepped_twice(&m0, &tr0, ix0, &m1, &tr0, ix0, mirror, tract, ix1);
                    if good && done is Ok {
                        assert forall|i: int| 0 <= i < group@.len() implies unread(
                            t1,
                            ix1,
                            (#[trigger] group@[i]).0,
                        ) by {
                            let p = group@[i].0;
                            assert(survey::is_furrow(t0, key@, p, group@[i].1 as int));
                            assert(!tract::in_strip(
                                p as int,
                                tr0.plow as int,
                                tr0.reap + tr0.len,
                                tr0.len as int,
                            ));
                            assert(t1[p as int] == t0[p as int]);
                            if !unread(t1, ix1, p) {
                                lemma_furrow_reader(t1, ix1, key@, p, group@[i].1 as int);
                                assert(ix1.path(t1, key@).reads.contains(p));
                            }
                        }
                    }
                }
                done
            },
            _ => {
                proof {
                    if good {
                        assert forall|i: int| 0 <= i < group@.len() implies unread(
                            t0,
                            ix0,
                            (#[trigger] group@[i]).0,
                        ) by {
                            if !unread(t0, ix0, group@[i].0) {
                                lemma_furrow_reader(
                                    t0,
                                    ix0,
                                    key@,
                                    group@[i].0,
                                    group@[i].1 as int,
                                );
                                assert(Seq::<u64>::empty().to_set() =~= Set::<u64>::empty());
                            }
                        }
                    }
                }
                Ok(())
            },
        }
    }
}

/// What a reap window holds that is live: leaves and nodes to move one by one, and furrows by owner.
struct Window {
    singles: Vec<(u64, [u8; 32])>,
    groups: Vec<([u8; 32], Vec<(u64, u64)>)>,
    by_owner: Ghost<Map<Seq<u8>, Seq<(u64, u64)>>>,
    parts: Ghost<nat>,
}

/// Whether a live block of the window is listed.
spec fn is_caught(
    t: Seq<Seq<u8>>,
    p: u64,
    h: Seq<u8>,
    singles: Seq<(u64, Seq<u8>)>,
    groups: Map<Seq<u8>, Seq<(u64, u64)>>,
) -> bool {
    match doc::doc_of(t[p as int]) {
        Ok(DocView::Furrow { key, index, .. }) => live::group_of(groups, key).contains((p, index)),
        Ok(_) => singles.contains((p, h)),
        Err(_) => false,
    }
}

/// Whether what is listed is what it says, and in the window.
spec fn is_true(
    t: Seq<Seq<u8>>,
    start: int,
    end: int,
    singles: Seq<(u64, Seq<u8>)>,
    groups: Map<Seq<u8>, Seq<(u64, u64)>>,
) -> bool {
    &&& forall|i: int|
        0 <= i < singles.len() ==> {
            let e = #[trigger] singles[i];
            &&& e.0 < t.len()
            &&& tract::in_strip(e.0 as int, start, end, t.len() as int)
            &&& seal::hp_of(t[e.0 as int]) == Some(e.1)
            &&& address(t[e.0 as int]) is Some
        }
    &&& forall|k: Seq<u8>, x: (u64, u64)| #[trigger]
        live::group_of(groups, k).contains(x) ==> k.len() == 32 && x.0 < t.len()
            && tract::in_strip(x.0 as int, start, end, t.len() as int) && survey::is_furrow(
            t,
            k,
            x.0,
            x.1 as int,
        )
}

/// How many of the `n` blocks from the total `start` on are live.
pub open spec fn held<L: Liveness>(t: Seq<Seq<u8>>, oracle: &L, start: int, n: nat) -> nat
    decreases n,
{
    if n == 0 {
        0
    } else {
        let p = (start + n - 1) % (t.len() as int);
        held(t, oracle, start, (n - 1) as nat) + (if seal::hp_of(t[p]) matches Some(h)
            && oracle.holds(p as u64, h) {
            1nat
        } else {
            0nat
        })
    }
}

/// How many blocks it takes at most to move what is live among the `n` blocks from the total `start`
/// on: a furrow may take its leaf along.
pub open spec fn load<L: Liveness>(t: Seq<Seq<u8>>, oracle: &L, start: int, n: nat) -> nat
    decreases n,
{
    if n == 0 {
        0
    } else {
        let p = (start + n - 1) % (t.len() as int);
        load(t, oracle, start, (n - 1) as nat) + (if seal::hp_of(t[p]) matches Some(h)
            && oracle.holds(p as u64, h) {
            if doc::doc_of(t[p]) matches Ok(DocView::Furrow { .. }) {
                2nat
            } else {
                1nat
            }
        } else {
            0nat
        })
    }
}

/// Whether a key has a furrow in a window that the oracle holds live.
pub open spec fn owns_live<L: Liveness>(
    t: Seq<Seq<u8>>,
    oracle: &L,
    start: int,
    end: int,
    k: Seq<u8>,
) -> bool {
    exists|p: u64, h: Seq<u8>|
        p < t.len() && tract::in_strip(p as int, start, end, t.len() as int) && seal::hp_of(
            t[p as int],
        ) == Some(h) && #[trigger] oracle.holds(p, h) && (doc::doc_of(t[p as int]) matches Ok(
            DocView::Furrow { key, .. },
        ) && key == k)
}

/// Whether the leaves of those who have live furrows in a window can list `n` of them elsewhere.
pub open spec fn haulable<L: Liveness>(
    t: Seq<Seq<u8>>,
    ix: Index,
    oracle: &L,
    start: int,
    end: int,
    n: nat,
) -> bool {
    forall|k: Seq<u8>|
        k.len() == 32 && owns_live(t, oracle, start, end, k) ==> #[trigger] is_light(t, ix, k, n)
}

/// Classifies a window. Garbage is not collected; survivors are grouped by what they say they are.
#[verifier::rlimit(60)]
fn classify_window<A: BlockDev, B: BlockDev, L: Liveness>(
    mirror: &mut Mirror<A, B>,
    tract: &Tract,
    oracle: &L,
    start: u64,
    w: u64,
) -> (r: Result<Window>)
    requires
        tract.wf(),
        w <= tract.len,
        start + w <= u64::MAX,
    ensures
        untouched(final(mirror), old(mirror)),
        match r {
            Ok(win) => {
                let t = tract.on(old(mirror).disk());
                let groups = win.by_owner@;
                &&& is_true(t, start as int, start + w, marks_view(win.singles@), groups)
                &&& forall|p: u64, h: Seq<u8>|
                    p < t.len() && tract::in_strip(
                        p as int,
                        start as int,
                        start + w,
                        t.len() as int,
                    ) && seal::hp_of(t[p as int]) == Some(h) && #[trigger] oracle.holds(p, h)
                        ==> is_caught(t, p, h, marks_view(win.singles@), groups)
                &&& forall|i: int|
                    0 <= i < win.groups@.len() ==> groups.contains_pair(
                        (#[trigger] win.groups@[i]).0@,
                        win.groups@[i].1@,
                    )
                &&& forall|k: Seq<u8>|
                    groups.contains_key(k) ==> #[trigger] live::is_named(win.groups@, k)
                &&& window_dead(t, oracle, start as int, start + w) ==> win.singles@.len() == 0
                    && win.groups@.len() == 0
                &&& forall|i: int, j: int|
                    0 <= i < j < win.groups@.len() ==> (#[trigger] win.groups@[i]).0@ != (
                    #[trigger] win.groups@[j]).0@
                &&& forall|k: Seq<u8>| #[trigger]
                    groups.contains_key(k) ==> owns_live(t, oracle, start as int, start + w, k)
                &&& live::no_heavier(groups, win.parts@)
                &&& win.singles@.len() + win.parts@ <= held(t, oracle, start as int, w as nat)
                &&& win.singles@.len() + 2 * win.parts@ <= load(t, oracle, start as int, w as nat)
            },
            Err(e) => {
                let t = tract.on(old(mirror).disk());
                ||| block::device_error(e@) && !sure_of(old(mirror), tract)
                ||| exists|p: u64, h: Seq<u8>|
                    p < t.len() && tract::in_strip(
                        p as int,
                        start as int,
                        start + w,
                        t.len() as int,
                    ) && seal::hp_of(t[p as int]) == Some(h) && #[trigger] oracle.holds(p, h)
                        && doc::doc_of(t[p as int]) == Err::<DocView, ErrorView>(e@)
            },
        },
{
    let ghost t = tract.on(mirror.disk());
    let ghost len = tract.len as int;
    let ghost s0 = start as int;
    let mut lones: Vec<(u64, [u8; 32])> = Vec::new();
    let mut leaves: Vec<(u64, [u8; 32])> = Vec::new();
    let mut nodes: Vec<(u64, [u8; 32])> = Vec::new();
    let mut owners = Owners::new();
    let ghost mut parts: nat = 0;
    proof {
        live::lemma_weightless(live::owner_groups(owners));
        assert forall|k: Seq<u8>| #[trigger]
            live::owner_groups(owners).contains_key(k) implies owns_live(
            t,
            oracle,
            s0,
            s0 + w,
            k,
        ) by {
            assert(!live::owner_groups(owners).dom().contains(k));
        }
    }
    let mut buf = zero_block();
    let mut i: u64 = 0;
    while i < w
        invariant
            i <= w,
            w <= tract.len,
            start + w <= u64::MAX,
            tract.wf(),
            s0 == start,
            len == tract.len,
            untouched(mirror, old(mirror)),
            t == tract.on(old(mirror).disk()),
            is_true(t, s0, s0 + w, marks_view(lones@), live::owner_groups(owners)),
            is_true(t, s0, s0 + w, marks_view(leaves@), live::owner_groups(owners)),
            is_true(t, s0, s0 + w, marks_view(nodes@), live::owner_groups(owners)),
            window_dead(t, oracle, s0, s0 + w) ==> lones@.len() == 0 && leaves@.len() == 0
                && nodes@.len() == 0 && live::owner_groups(owners).dom()
                == Set::<Seq<u8>>::empty(),
            lones@.len() + leaves@.len() + nodes@.len() + parts <= held(t, oracle, s0, i as nat),
            lones@.len() + leaves@.len() + nodes@.len() + 2 * parts <= load(
                t,
                oracle,
                s0,
                i as nat,
            ),
            live::no_heavier(live::owner_groups(owners), parts),
            forall|k: Seq<u8>| #[trigger]
                live::owner_groups(owners).contains_key(k) ==> owns_live(t, oracle, s0, s0 + w, k),
            forall|p: u64, h: Seq<u8>|
                p < t.len() && tract::in_strip(p as int, s0, s0 + i, len) && seal::hp_of(
                    t[p as int],
                ) == Some(h) && #[trigger] oracle.holds(p, h) ==> is_caught(
                    t,
                    p,
                    h,
                    marks_view(lones@) + marks_view(leaves@) + marks_view(nodes@),
                    live::owner_groups(owners),
                ),
        decreases w - i,
    {
        let pos: u64 = (start + i) % tract.len;
        let ghost l0 = marks_view(lones@);
        let ghost l1 = marks_view(leaves@);
        let ghost l2 = marks_view(nodes@);
        let ghost g = live::owner_groups(owners);
        proof {
            tract::lemma_strip_offset(s0, i as int, len);
            assert(tract::in_strip(pos as int, s0, s0 + w, len));
        }
        tract.read(mirror, pos, &mut buf)?;
        let mut caught: Option<[u8; 32]> = None;
        if let Some(hp) = sealed_hp(&buf) {
            if oracle.is_live(pos, &hp) {
                caught = Some(hp);
            }
        }
        if let Some(hp) = caught {
            match decode_doc(&buf) {
                Err(e) => return Err(e),
                Ok(TractDoc::Lone { .. }) => {
                    lones.push((pos, hp));
                    assert(marks_view(lones@) =~= l0.push((pos, hp@)));
                },
                Ok(TractDoc::Direct { .. }) | Ok(TractDoc::Extent { .. }) => {
                    leaves.push((pos, hp));
                    assert(marks_view(leaves@) =~= l1.push((pos, hp@)));
                },
                Ok(TractDoc::Node(_)) => {
                    nodes.push((pos, hp));
                    assert(marks_view(nodes@) =~= l2.push((pos, hp@)));
                },
                Ok(TractDoc::Furrow { key, index, .. }) => {
                    owners.push(key, (pos, index));
                    proof {
                        assert(survey::is_furrow(t, key@, pos, index as int));
                        live::lemma_weight_push(g, key@, (pos, index), parts);
                        parts = parts + 1;
                        assert(oracle.holds(pos, hp@));
                        assert(owns_live(t, oracle, s0, s0 + w, key@));
                    }
                },
            }
        }
        proof {
            let n0 = marks_view(lones@);
            let n1 = marks_view(leaves@);
            let n2 = marks_view(nodes@);
            let h = live::owner_groups(owners);
            lemma_listing(t, s0, s0 + w, pos, l0, l1, l2, g, n0, n1, n2, h);
            assert forall|p: u64, hh: Seq<u8>|
                p < t.len() && tract::in_strip(p as int, s0, s0 + i + 1, len) && seal::hp_of(
                    t[p as int],
                ) == Some(hh) && #[trigger] oracle.holds(p, hh) implies is_caught(
                t,
                p,
                hh,
                n0 + n1 + n2,
                h,
            ) by {
                tract::lemma_strip_split(p as int, s0, s0 + i, s0 + i + 1, len);
                if tract::in_strip(p as int, s0, s0 + i, len) {
                    lemma_still_caught(t, p, hh, l0, l1, l2, g, n0, n1, n2, h);
                } else {
                    tract::lemma_strip_position(p as int, s0 + i, len);
                    assert((p - (s0 + i)) % len == 0);
                    assert(p == pos);
                    assert(caught is Some);
                    if n0.len() > l0.len() {
                        assert((n0 + n1 + n2)[l0.len() as int] == (pos, hh));
                    } else if n1.len() > l1.len() {
                        assert((n0 + n1 + n2)[(l0.len() + l1.len()) as int] == (pos, hh));
                    } else if n2.len() > l2.len() {
                        assert((n0 + n1 + n2)[(l0.len() + l1.len() + l2.len()) as int] == (pos, hh));
                    } else {
                        let key = doc::doc_of(t[p as int])->Ok_0->Furrow_key;
                        let index = doc::doc_of(t[p as int])->Ok_0->index;
                        let was = live::group_of(g, key);
                        assert(live::group_of(h, key)[was.len() as int] == (p, index));
                    }
                }
            }
        }
        i = i + 1;
    }
    let ghost l0 = marks_view(lones@);
    let ghost l1 = marks_view(leaves@);
    let ghost l2 = marks_view(nodes@);
    let ghost g = live::owner_groups(owners);
    let mut singles = lones;
    singles.append(&mut leaves);
    singles.append(&mut nodes);
    let groups = owners.into_groups();
    proof {
        if window_dead(t, oracle, s0, s0 + w) && groups@.len() > 0 {
            assert(g.contains_pair(groups@[0].0@, groups@[0].1@));
        }
        let all = marks_view(singles@);
        assert(all =~= l0 + l1 + l2);
        assert(is_true(t, s0, s0 + w, all, g)) by {
            assert forall|x: int| 0 <= x < all.len() implies ({
                let e = #[trigger] all[x];
                &&& e.0 < t.len()
                &&& tract::in_strip(e.0 as int, s0, s0 + w, t.len() as int)
                &&& seal::hp_of(t[e.0 as int]) == Some(e.1)
                &&& address(t[e.0 as int]) is Some
            }) by {
                if x < l0.len() {
                    assert(all[x] == l0[x]);
                } else if x < l0.len() + l1.len() {
                    assert(all[x] == l1[x - l0.len()]);
                } else {
                    assert(all[x] == l2[x - l0.len() - l1.len()]);
                }
            }
        }
    }
    Ok(Window { singles, groups, by_owner: Ghost(g), parts: Ghost(parts) })
}

/// One more block listed keeps the lists true.
proof fn lemma_listing(
    t: Seq<Seq<u8>>,
    start: int,
    end: int,
    pos: u64,
    l0: Seq<(u64, Seq<u8>)>,
    l1: Seq<(u64, Seq<u8>)>,
    l2: Seq<(u64, Seq<u8>)>,
    g: Map<Seq<u8>, Seq<(u64, u64)>>,
    n0: Seq<(u64, Seq<u8>)>,
    n1: Seq<(u64, Seq<u8>)>,
    n2: Seq<(u64, Seq<u8>)>,
    h: Map<Seq<u8>, Seq<(u64, u64)>>,
)
    requires
        pos < t.len(),
        tract::in_strip(pos as int, start, end, t.len() as int),
        is_true(t, start, end, l0, g),
        is_true(t, start, end, l1, g),
        is_true(t, start, end, l2, g),
        n0 == l0 || (seal::hp_of(t[pos as int]) is Some && address(t[pos as int]) is Some && n0
            == l0.push((pos, seal::hp_of(t[pos as int])->0))),
        n1 == l1 || (seal::hp_of(t[pos as int]) is Some && address(t[pos as int]) is Some && n1
            == l1.push((pos, seal::hp_of(t[pos as int])->0))),
        n2 == l2 || (seal::hp_of(t[pos as int]) is Some && address(t[pos as int]) is Some && n2
            == l2.push((pos, seal::hp_of(t[pos as int])->0))),
        h == g || (exists|key: Seq<u8>, index: u64|
            key.len() == 32 && #[trigger] survey::is_furrow(t, key, pos, index as int) && h
                == g.insert(key, live::group_of(g, key).push((pos, index)))),
    ensures
        is_true(t, start, end, n0, h),
        is_true(t, start, end, n1, h),
        is_true(t, start, end, n2, h),
{
    assert forall|k: Seq<u8>, x: (u64, u64)| #[trigger] live::group_of(h, k).contains(x) implies k.len()
        == 32 && x.0 < t.len() && tract::in_strip(x.0 as int, start, end, t.len() as int)
        && survey::is_furrow(t, k, x.0, x.1 as int) by {
        if h != g {
            let (key, index) = choose|key: Seq<u8>, index: u64|
                key.len() == 32 && #[trigger] survey::is_furrow(t, key, pos, index as int) && h
                    == g.insert(key, live::group_of(g, key).push((pos, index)));
            if k == key {
                let was = live::group_of(g, key);
                let now = live::group_of(h, key);
                let i = choose|i: int| 0 <= i < now.len() && now[i] == x;
                if i < was.len() {
                    assert(was[i] == x);
                    assert(live::group_of(g, k).contains(x));
                }
            } else {
                assert(live::group_of(g, k) == live::group_of(h, k));
                assert(live::group_of(g, k).contains(x));
            }
        }
    }
    assert forall|n: Seq<(u64, Seq<u8>)>, l: Seq<(u64, Seq<u8>)>|
        #![trigger is_true(t, start, end, l, g), is_true(t, start, end, n, h)]
        is_true(t, start, end, l, g) && (n == l || (seal::hp_of(t[pos as int]) is Some && address(
            t[pos as int],
        ) is Some && n == l.push((pos, seal::hp_of(t[pos as int])->0)))) implies is_true(
        t,
        start,
        end,
        n,
        h,
    ) by {
        assert forall|i: int| 0 <= i < n.len() implies ({
            let e = #[trigger] n[i];
            &&& e.0 < t.len()
            &&& tract::in_strip(e.0 as int, start, end, t.len() as int)
            &&& seal::hp_of(t[e.0 as int]) == Some(e.1)
            &&& address(t[e.0 as int]) is Some
        }) by {
            if i < l.len() {
                assert(n[i] == l[i]);
            }
        }
    }
}

/// What was listed stays listed.
proof fn lemma_still_caught(
    t: Seq<Seq<u8>>,
    p: u64,
    hh: Seq<u8>,
    l0: Seq<(u64, Seq<u8>)>,
    l1: Seq<(u64, Seq<u8>)>,
    l2: Seq<(u64, Seq<u8>)>,
    g: Map<Seq<u8>, Seq<(u64, u64)>>,
    n0: Seq<(u64, Seq<u8>)>,
    n1: Seq<(u64, Seq<u8>)>,
    n2: Seq<(u64, Seq<u8>)>,
    h: Map<Seq<u8>, Seq<(u64, u64)>>,
)
    requires
        is_caught(t, p, hh, l0 + l1 + l2, g),
        n0 == l0 || exists|e: (u64, Seq<u8>)| n0 == #[trigger] l0.push(e),
        n1 == l1 || exists|e: (u64, Seq<u8>)| n1 == #[trigger] l1.push(e),
        n2 == l2 || exists|e: (u64, Seq<u8>)| n2 == #[trigger] l2.push(e),
        h == g || exists|key: Seq<u8>, x: (u64, u64)|
            h == #[trigger] g.insert(key, live::group_of(g, key).push(x)),
    ensures
        is_caught(t, p, hh, n0 + n1 + n2, h),
{
    match doc::doc_of(t[p as int]) {
        Ok(DocView::Furrow { key, index, .. }) => {
            let was = live::group_of(g, key);
            let now = live::group_of(h, key);
            let i = choose|i: int| 0 <= i < was.len() && was[i] == (p, index);
            assert(now[i] == (p, index));
        },
        Ok(_) => {
            let all = l0 + l1 + l2;
            let next = n0 + n1 + n2;
            let i = choose|i: int| 0 <= i < all.len() && all[i] == (p, hh);
            if i < l0.len() {
                assert(next[i] == (p, hh));
            } else if i < l0.len() + l1.len() {
                assert(next[i - l0.len() + n0.len()] == (p, hh));
            } else {
                assert(next[i - l0.len() - l1.len() + n0.len() + n1.len()] == (p, hh));
            }
        },
        Err(_) => {},
    }
}

/// Whether a reap of the totals from `start` up to `end` can tell what is live: the oracle holds
/// every block that is read, and nothing of the window that was given up is read.
pub open spec fn reapable<L: Liveness>(
    t: Seq<Seq<u8>>,
    ix: Index,
    oracle: &L,
    start: int,
    end: int,
) -> bool {
    forall|k: Seq<u8>, p: u64|
        k.len() == 32 && (#[trigger] ix.path(t, k).reads.contains(p)) ==> p < t.len() && (
        seal::hp_of(t[p as int]) matches Some(h) && oracle.holds(p, h)) && (tract::in_strip(
            p as int,
            start,
            end,
            t.len() as int,
        ) ==> !edit::places(ix.removed).contains(p))
}

/// Whether every block of a window that the oracle holds live decodes.
pub open spec fn window_decodes<L: Liveness>(
    t: Seq<Seq<u8>>,
    oracle: &L,
    start: int,
    end: int,
) -> bool {
    forall|p: u64, h: Seq<u8>|
        p < t.len() && tract::in_strip(p as int, start, end, t.len() as int) && seal::hp_of(
            t[p as int],
        ) == Some(h) && #[trigger] oracle.holds(p, h) ==> doc::doc_of(t[p as int]) is Ok
}

/// Whether no block of a window is one that the oracle holds live.
pub open spec fn window_dead<L: Liveness>(
    t: Seq<Seq<u8>>,
    oracle: &L,
    start: int,
    end: int,
) -> bool {
    forall|p: u64, h: Seq<u8>|
        p < t.len() && tract::in_strip(p as int, start, end, t.len() as int) && seal::hp_of(
            t[p as int],
        ) == Some(h) ==> !(#[trigger] oracle.holds(p, h))
}

/// A tract with another cleaning head.
pub open spec fn with_reap(tract: &Tract, reap: u64) -> Tract {
    Tract { reap, ..*tract }
}

/// A position of the window stays clear of where appends go.
proof fn lemma_window_away(p: int, start: int, end: int, plow: int, to: int, len: int)
    requires
        0 <= p < len,
        start <= end <= plow <= to,
        to == start + len,
        tract::in_strip(p, start, end, len),
    ensures
        !tract::in_strip(p, plow, to, len),
        forall|x: int| plow <= x <= to ==> !#[trigger] tract::in_strip(p, plow, x, len),
{
    tract::lemma_strip_apart(p, start, plow, to, len);
}

/// After the moves, no path reads the window.
proof fn lemma_window_clear<A: BlockDev, B: BlockDev, L: Liveness>(
    m0: &Mirror<A, B>,
    tr0: &Tract,
    ix0: Index,
    m1: &Mirror<A, B>,
    tr1: &Tract,
    ix1: Index,
    oracle: &L,
    w: int,
    singles: Seq<(u64, Seq<u8>)>,
    groups: Map<Seq<u8>, Seq<(u64, u64)>>,
)
    requires
        tr0.wf(),
        0 <= w <= tr0.plow - tr0.reap,
        stepped(m0, tr0, ix0, m1, tr1, ix1),
        index_fit(m0, tr0, ix0),
        reapable(
            tr0.on(m0.disk()),
            ix0,
            oracle,
            tr0.reap as int,
            tr0.reap + w,
        ),
        forall|p: u64, h: Seq<u8>|
            p < tr0.len && tract::in_strip(
                p as int,
                tr0.reap as int,
                tr0.reap + w,
                tr0.len as int,
            ) && seal::hp_of(tr0.on(m0.disk())[p as int]) == Some(h) && #[trigger] oracle.holds(
                p,
                h,
            ) ==> is_caught(tr0.on(m0.disk()), p, h, singles, groups),
        forall|i: int|
            0 <= i < singles.len() ==> unread(tr0.on(m1.disk()), ix1, (#[trigger] singles[i]).0),
        forall|k: Seq<u8>|
            groups.contains_key(k) ==> group_unread(
                tr0.on(m1.disk()),
                ix1,
                #[trigger] groups[k],
            ),
    ensures
        keep::fit(
            tr0.on(m1.disk()),
            ix1,
            tr1.plow as int,
            tr0.reap + w + tr0.len,
        ),
{
    let t0 = tr0.on(m0.disk());
    let t1 = tr0.on(m1.disk());
    let len = tr0.len as int;
    let start = tr0.reap as int;
    let end = start + w;
    let to = start + len;
    assert forall|k: Seq<u8>, p: u64|
        k.len() == 32 && (#[trigger] ix1.path(t1, k).reads.contains(p)) implies p < t1.len()
        && !tract::in_strip(p as int, tr1.plow as int, end + len, len) by {
        assert(!tract::in_strip(p as int, tr1.plow as int, to, len));
        if tract::in_strip(p as int, start, end, len) {
            lemma_window_away(p as int, start, end, tr0.plow as int, to, len);
            assert(ix0.path(t0, k).reads.contains(p));
            let h = seal::hp_of(t0[p as int])->0;
            assert(oracle.holds(p, h));
            assert(is_caught(t0, p, h, singles, groups));
            match doc::doc_of(t0[p as int]) {
                Ok(DocView::Furrow { key, index, .. }) => {
                    let g = groups[key];
                    assert(live::group_of(groups, key).contains((p, index)));
                    let i = choose|i: int| 0 <= i < g.len() && g[i] == (p, index);
                    assert(group_unread(t1, ix1, g));
                    assert(unread(t1, ix1, g[i].0));
                },
                Ok(_) => {
                    let i = choose|i: int| 0 <= i < singles.len() && singles[i] == (p, h);
                    assert(unread(t1, ix1, singles[i].0));
                },
                Err(_) => {},
            }
        }
        if tract::in_strip(p as int, tr1.plow as int, end + len, len) {
            tract::lemma_strip_split(p as int, tr1.plow as int, to, end + len, len);
            tract::lemma_strip_lap(p as int, start, end, len);
        }
    }
}

impl Hamt {
    /// Cleans one window at the reap: classifies the blocks at the totals from the reap up to
    /// `window` further, appends every survivor again at the plow, repairs the index, and advances
    /// the reap. The caller commits the retiring generation; until then the committed head still
    /// points at the intact originals, and the window simply replays.
    #[verifier::rlimit(80)]
    pub fn reap_window<A: BlockDev, B: BlockDev, L: Liveness>(
        &mut self,
        mirror: &mut Mirror<A, B>,
        tract: &mut Tract,
        oracle: &L,
        window: u64,
    ) -> (r: Result<()>)
        requires
            old(self)@.wf(),
            old(tract).wf(),
            old(mirror).has_device(),
        ensures
            stepped(
                old(mirror),
                old(tract),
                old(self)@,
                final(mirror),
                &with_reap(final(tract), old(tract).reap),
                final(self)@,
            ),
            final(tract).wf(),
            ({
                let w = if window < old(tract).plow - old(tract).reap {
                    window as int
                } else {
                    old(tract).plow - old(tract).reap
                };
                let t = old(tract).on(old(mirror).disk());
                let start = old(tract).reap as int;
                &&& r is Ok ==> final(tract).reap == old(tract).reap + w
                &&& r is Err ==> final(tract).reap == old(tract).reap
                &&& index_fit(old(mirror), old(tract), old(self)@) && reapable(
                    t,
                    old(self)@,
                    oracle,
                    start,
                    start + w,
                ) ==> {
                    &&& r is Ok ==> index_fit(final(mirror), final(tract), final(self)@)
                    &&& sure_of(old(mirror), old(tract)) && window_decodes(
                        t,
                        oracle,
                        start,
                        start + w,
                    ) ==> (r matches Err(e) ==> wants_room(e@))
                    &&& sure_of(old(mirror), old(tract)) && window_decodes(
                        t,
                        oracle,
                        start,
                        start + w,
                    ) && haulable(
                        t,
                        old(self)@,
                        oracle,
                        start,
                        start + w,
                        held(t, oracle, start, w as nat),
                    ) && old(tract).refusal(load(t, oracle, start, w as nat)) is None ==> {
                        &&& r is Ok
                        &&& final(tract).plow <= old(tract).plow + load(t, oracle, start, w as nat)
                        &&& final(self)@.dirt() <= old(self)@.dirt() + 52 * held(
                            t,
                            oracle,
                            start,
                            w as nat,
                        )
                        &&& arrived(
                            old(self)@.added,
                            final(self)@.added,
                            old(tract).plow as int,
                            final(tract).plow as int,
                            old(tract).len as int,
                        )
                    }
                }
                &&& window_dead(t, oracle, start, start + w) ==> {
                    &&& untouched(final(mirror), old(mirror))
                    &&& final(self)@ == old(self)@
                    &&& with_reap(final(tract), old(tract).reap) == *old(tract)
                    &&& sure_of(old(mirror), old(tract)) ==> r is Ok
                }
            }),
    {
        let ghost m0 = *mirror;
        let ghost tr0 = *tract;
        let ghost ix0 = self@;
        let ghost t0 = tract.on(mirror.disk());
        let ghost len = tract.len as int;
        let start: u64 = tract.reap;
        let w: u64 = if window < tract.plow - start {
            window
        } else {
            tract.plow - start
        };
        let ghost to = start + len;
        let ghost end = start + w;
        let ghost good = index_fit(&m0, &tr0, ix0) && reapable(
            t0,
            ix0,
            oracle,
            start as int,
            end,
        );
        proof {
            lemma_stepped_none(&m0, &tr0, ix0, mirror);
            lemma_newer_none(ix0.added);
        }
        if w == 0 {
            return Ok(());
        }
        let found = classify_window(mirror, tract, oracle, start, w);
        proof {
            lemma_stepped_none(&m0, &tr0, ix0, mirror);
        }
        let win = match found {
            Ok(x) => x,
            Err(e) => return Err(e),
        };
        let ghost singles = marks_view(win.singles@);
        let ghost groups = win.by_owner@;
        let ghost dead = window_dead(t0, oracle, start as int, end);
        let ghost all = held(t0, oracle, start as int, w as nat);
        let ghost cost = load(t0, oracle, start as int, w as nat);
        let ghost owners = Seq::new(win.groups@.len(), |j: int| win.groups@[j].0@);
        let ghost parts = win.parts@;
        let ghost easy = good && sure_of(&m0, &tr0) && haulable(
            t0,
            ix0,
            oracle,
            start as int,
            end,
            all,
        ) && tr0.refusal(cost) is None;
        proof {
            assert(owners.take(0) =~= Seq::<Seq<u8>>::empty());
            assert forall|j: int| 0 <= j < owners.len() implies is_light(
                t0,
                ix0,
                #[trigger] owners[j],
                all,
            ) || !easy by {
                let k = owners[j];
                assert(groups.contains_pair(win.groups@[j].0@, win.groups@[j].1@));
                assert(groups.contains_key(k));
                assert(owns_live(t0, oracle, start as int, end, k));
            }
        }
        let mut i: usize = 0;
        while i < win.groups.len()
            invariant
                i <= win.groups@.len(),
                tr0.wf(),
                m0 == *old(mirror),
                tr0 == *old(tract),
                ix0 == old(self)@,
                m0.has_device(),
                t0 == tr0.on(m0.disk()),
                len == tr0.len,
                start == tr0.reap,
                end == start + w,
                to == start + len,
                0 < w <= tr0.plow - tr0.reap,
                stepped(&m0, &tr0, ix0, mirror, tract, self@),
                dead == window_dead(t0, oracle, start as int, end),
                dead ==> win.groups@.len() == 0 && win.singles@.len() == 0 && untouched(mirror, &m0)
                    && self@ == ix0 && *tract == tr0,
                all == held(t0, oracle, start as int, w as nat),
                cost == load(t0, oracle, start as int, w as nat),
                easy == (good && sure_of(&m0, &tr0) && haulable(
                    t0,
                    ix0,
                    oracle,
                    start as int,
                    end,
                    all,
                ) && tr0.refusal(cost) is None),
                win.singles@.len() + parts <= all,
                win.singles@.len() + 2 * parts <= cost,
                live::no_heavier(groups, parts),
                owners == Seq::new(win.groups@.len(), |j: int| win.groups@[j].0@),
                forall|a: int, b: int|
                    0 <= a < b < win.groups@.len() ==> (#[trigger] win.groups@[a]).0@ != (
                    #[trigger] win.groups@[b]).0@,
                easy ==> tract.plow <= tr0.plow + 2 * live::weight(groups, owners.take(i as int))
                    && self@.dirt() <= ix0.dirt() + 52 * live::weight(
                    groups,
                    owners.take(i as int),
                ) && arrived(ix0.added, self@.added, tr0.plow as int, tract.plow as int, len),
                easy ==> forall|j: int|
                    i <= j < owners.len() ==> is_light(
                        tr0.on(mirror.disk()),
                        self@,
                        #[trigger] owners[j],
                        all,
                    ),
                good == (index_fit(&m0, &tr0, ix0) && reapable(t0, ix0, oracle, start as int, end)),
                is_true(t0, start as int, end, singles, groups),
                forall|j: int|
                    0 <= j < win.groups@.len() ==> groups.contains_pair(
                        (#[trigger] win.groups@[j]).0@,
                        win.groups@[j].1@,
                    ),
                good ==> forall|j: int|
                    0 <= j < i ==> group_unread(
                        tr0.on(mirror.disk()),
                        self@,
                        (#[trigger] win.groups@[j]).1@,
                    ),
                w == (if window < old(tract).plow - old(tract).reap {
                    window as int
                } else {
                    old(tract).plow - old(tract).reap
                }),
            decreases win.groups@.len() - i,
        {
            let ghost m1 = *mirror;
            let ghost tr1 = *tract;
            let ghost ix1 = self@;
            let ghost t1 = tr0.on(mirror.disk());
            let ghost g = win.groups@[i as int].1@;
            let ghost k = win.groups@[i as int].0@;
            proof {
                assert(groups.contains_pair(k, g));
                assert forall|j: int| 0 <= j < g.len() implies (#[trigger] g[j]).0 < tr1.len
                    && !tract::in_strip(
                    g[j].0 as int,
                    tr1.plow as int,
                    tr1.reap + tr1.len,
                    tr1.len as int,
                ) && t1[g[j].0 as int] == t0[g[j].0 as int] && survey::is_furrow(
                    t0,
                    k,
                    g[j].0,
                    g[j].1 as int,
                ) by {
                    assert(live::group_of(groups, k).contains(g[j]));
                    lemma_window_away(
                        g[j].0 as int,
                        start as int,
                        end,
                        tr1.plow as int,
                        to,
                        len,
                    );
                    lemma_window_away(
                        g[j].0 as int,
                        start as int,
                        end,
                        tr0.plow as int,
                        to,
                        len,
                    );
                    assert(!tract::in_strip(g[j].0 as int, tr0.plow as int, tr0.reach(), len));
                }
                assert(group_true(t1, k, g));
                let ks = owners.take(i + 1);
                assert(ks.drop_last() =~= owners.take(i as int));
                assert(ks.last() == k);
                assert(ks.no_duplicates());
                assert(live::weight(groups, ks) <= parts);
                assert(g.len() <= parts);
                if easy {
                    assert(owners[i as int] == k);
                    assert(is_light(t1, ix1, k, all));
                    assert(is_light(t1, ix1, k, g.len()));
                }
            }
            let done = self.haul_furrows(
                mirror,
                tract,
                &win.groups[i].0,
                &win.groups[i].1,
            );
            proof {
                lemma_stepped_twice(&m0, &tr0, ix0, &m1, &tr1, ix1, mirror, tract, self@);
                if easy {
                    assert(done is Ok);
                    lemma_arrived_twice(
                        ix0.added,
                        ix1.added,
                        self@.added,
                        tr0.plow as int,
                        tr1.plow as int,
                        tract.plow as int,
                        len,
                    );
                    assert forall|j: int| i + 1 <= j < owners.len() implies is_light(
                        tr0.on(mirror.disk()),
                        self@,
                        #[trigger] owners[j],
                        all,
                    ) by {
                        assert(win.groups@[i as int].0@ != win.groups@[j].0@);
                    }
                }
                if good {
                    assert forall|j: int| 0 <= j < i implies group_unread(
                        tr0.on(mirror.disk()),
                        self@,
                        (#[trigger] win.groups@[j]).1@,
                    ) by {
                        let h = win.groups@[j].1@;
                        assert(group_unread(t1, ix1, h));
                        assert(groups.contains_pair(win.groups@[j].0@, h));
                        assert forall|x: int| 0 <= x < h.len() implies unread(
                            tr0.on(mirror.disk()),
                            self@,
                            (#[trigger] h[x]).0,
                        ) by {
                            assert(live::group_of(groups, win.groups@[j].0@).contains(h[x]));
                            lemma_window_away(
                                h[x].0 as int,
                                start as int,
                                end,
                                tr1.plow as int,
                                to,
                                len,
                            );
                            assert(unread(t1, ix1, h[x].0));
                            lemma_unread_stays(&m1, &tr1, ix1, mirror, tract, self@, h[x].0);
                        }
                    }
                }
            }
            match done {
                Ok(()) => {},
                Err(e) => return Err(e),
            }
            i = i + 1;
        }
        let ghost named = win.groups@;
        proof {
            assert(owners.take(i as int) =~= owners);
            assert(owners.no_duplicates());
            assert(live::weight(groups, owners) <= parts);
        }
        let mut n: usize = 0;
        while n < win.singles.len()
            invariant
                n <= win.singles@.len(),
                tr0.wf(),
                m0 == *old(mirror),
                tr0 == *old(tract),
                ix0 == old(self)@,
                m0.has_device(),
                t0 == tr0.on(m0.disk()),
                len == tr0.len,
                start == tr0.reap,
                end == start + w,
                to == start + len,
                0 < w <= tr0.plow - tr0.reap,
                singles == marks_view(win.singles@),
                named == win.groups@,
                stepped(&m0, &tr0, ix0, mirror, tract, self@),
                dead == window_dead(t0, oracle, start as int, end),
                dead ==> win.groups@.len() == 0 && win.singles@.len() == 0 && untouched(mirror, &m0)
                    && self@ == ix0 && *tract == tr0,
                all == held(t0, oracle, start as int, w as nat),
                cost == load(t0, oracle, start as int, w as nat),
                easy == (good && sure_of(&m0, &tr0) && haulable(
                    t0,
                    ix0,
                    oracle,
                    start as int,
                    end,
                    all,
                ) && tr0.refusal(cost) is None),
                win.singles@.len() + parts <= all,
                win.singles@.len() + 2 * parts <= cost,
                easy ==> tract.plow <= tr0.plow + 2 * parts + n && self@.dirt() <= ix0.dirt() + 52
                    * (parts + n) && arrived(
                    ix0.added,
                    self@.added,
                    tr0.plow as int,
                    tract.plow as int,
                    len,
                ),
                good == (index_fit(&m0, &tr0, ix0) && reapable(t0, ix0, oracle, start as int, end)),
                is_true(t0, start as int, end, singles, groups),
                forall|j: int|
                    0 <= j < named.len() ==> groups.contains_pair(
                        (#[trigger] named[j]).0@,
                        named[j].1@,
                    ),
                good ==> forall|j: int|
                    0 <= j < named.len() ==> group_unread(
                        tr0.on(mirror.disk()),
                        self@,
                        (#[trigger] named[j]).1@,
                    ),
                good ==> forall|j: int|
                    0 <= j < n ==> unread(
                        tr0.on(mirror.disk()),
                        self@,
                        (#[trigger] singles[j]).0,
                    ),
                w == (if window < old(tract).plow - old(tract).reap {
                    window as int
                } else {
                    old(tract).plow - old(tract).reap
                }),
            decreases win.singles@.len() - n,
        {
            let ghost m1 = *mirror;
            let ghost tr1 = *tract;
            let ghost ix1 = self@;
            let ghost t1 = tr0.on(mirror.disk());
            let pos: u64 = win.singles[n].0;
            let hp: [u8; 32] = win.singles[n].1;
            proof {
                assert(singles[n as int] == (pos, hp@));
                lemma_window_away(pos as int, start as int, end, tr1.plow as int, to, len);
                lemma_window_away(pos as int, start as int, end, tr0.plow as int, to, len);
                assert(!tract::in_strip(pos as int, tr0.plow as int, tr0.reach(), len));
                assert(t1[pos as int] == t0[pos as int]);
            }
            if has_mark(&self.delta.removed, pos, &hp) {
                proof {
                    if good {
                        assert(self@.removed.contains((pos, hp@)));
                        lemma_given_up(
                            &m0,
                            &tr0,
                            ix0,
                            mirror,
                            tract,
                            self@,
                            oracle,
                            w as int,
                            (pos, hp@),
                        );
                    }
                }
            } else {
                let done = self.move_block(mirror, tract, pos, &hp);
                proof {
                    lemma_stepped_twice(&m0, &tr0, ix0, &m1, &tr1, ix1, mirror, tract, self@);
                    if easy {
                        assert(done is Ok);
                        lemma_arrived_twice(
                            ix0.added,
                            ix1.added,
                            self@.added,
                            tr0.plow as int,
                            tr1.plow as int,
                            tract.plow as int,
                            len,
                        );
                    }
                    if good {
                        assert forall|j: int| 0 <= j < named.len() implies group_unread(
                            tr0.on(mirror.disk()),
                            self@,
                            (#[trigger] named[j]).1@,
                        ) by {
                            let h = named[j].1@;
                            assert(group_unread(t1, ix1, h));
                            assert(groups.contains_pair(named[j].0@, h));
                            assert forall|x: int| 0 <= x < h.len() implies unread(
                                tr0.on(mirror.disk()),
                                self@,
                                (#[trigger] h[x]).0,
                            ) by {
                                assert(live::group_of(groups, named[j].0@).contains(h[x]));
                                lemma_window_away(
                                    h[x].0 as int,
                                    start as int,
                                    end,
                                    tr1.plow as int,
                                    to,
                                    len,
                                );
                                assert(unread(t1, ix1, h[x].0));
                                lemma_unread_stays(
                                    &m1,
                                    &tr1,
                                    ix1,
                                    mirror,
                                    tract,
                                    self@,
                                    h[x].0,
                                );
                            }
                        }
                        assert forall|j: int| 0 <= j < n implies unread(
                            tr0.on(mirror.disk()),
                            self@,
                            (#[trigger] singles[j]).0,
                        ) by {
                            lemma_window_away(
                                singles[j].0 as int,
                                start as int,
                                end,
                                tr1.plow as int,
                                to,
                                len,
                            );
                            lemma_unread_stays(
                                &m1,
                                &tr1,
                                ix1,
                                mirror,
                                tract,
                                self@,
                                singles[j].0,
                            );
                        }
                    }
                }
                match done {
                    Ok(()) => {},
                    Err(e) => return Err(e),
                }
            }
            n = n + 1;
        }
        let ghost tr1 = *tract;
        tract.reap = start + w;
        proof {
            assert(with_reap(tract, tr0.reap) == tr1);
            if good {
                assert forall|k: Seq<u8>| groups.contains_key(k) implies group_unread(
                    tr0.on(mirror.disk()),
                    self@,
                    #[trigger] groups[k],
                ) by {
                    assert(live::is_named(named, k));
                    let j = choose|j: int| 0 <= j < named.len() && (#[trigger] named[j]).0@ == k;
                    assert(groups.contains_pair(named[j].0@, named[j].1@));
                    assert(group_unread(tr0.on(mirror.disk()), self@, named[j].1@));
                }
                lemma_window_clear(
                    &m0,
                    &tr0,
                    ix0,
                    mirror,
                    &tr1,
                    self@,
                    oracle,
                    w as int,
                    singles,
                    groups,
                );
            }
        }
        Ok(())
    }
}

/// A block of the window that was given up is not read.
proof fn lemma_given_up<A: BlockDev, B: BlockDev, L: Liveness>(
    m0: &Mirror<A, B>,
    tr0: &Tract,
    ix0: Index,
    m1: &Mirror<A, B>,
    tr1: &Tract,
    ix1: Index,
    oracle: &L,
    w: int,
    e: (u64, Seq<u8>),
)
    requires
        tr0.wf(),
        0 <= w <= tr0.plow - tr0.reap,
        stepped(m0, tr0, ix0, m1, tr1, ix1),
        index_fit(m0, tr0, ix0),
        reapable(
            tr0.on(m0.disk()),
            ix0,
            oracle,
            tr0.reap as int,
            tr0.reap + w,
        ),
        ix1.removed.contains(e),
        e.0 < tr0.len,
        tract::in_strip(e.0 as int, tr0.reap as int, tr0.reap + w, tr0.len as int),
    ensures
        unread(tr0.on(m1.disk()), ix1, e.0),
{
    let t0 = tr0.on(m0.disk());
    let t1 = tr0.on(m1.disk());
    let len = tr0.len as int;
    let p = e.0;
    let to = tr0.reap + len;
    lemma_window_away(p as int, tr0.reap as int, tr0.reap + w, tr0.plow as int, to, len);
    let i = choose|i: int| 0 <= i < ix1.removed.len() && ix1.removed[i] == e;
    let more = newer(ix0.removed, ix1.removed);
    assert forall|k: Seq<u8>| k.len() == 32 implies !(#[trigger] ix1.path(t1, k)).reads.contains(
        p,
    ) by {
        if ix1.path(t1, k).reads.contains(p) {
            if i < ix0.removed.len() {
                assert(ix0.removed[i] == ix1.removed.take(ix0.removed.len() as int)[i]);
                assert(ix0.removed[i].0 == p);
                assert(edit::places(ix0.removed).contains(p));
                assert(ix0.path(t0, k).reads.contains(p));
            } else {
                assert(more[i - ix0.removed.len()] == e);
                assert(edit::places(more).contains(p));
            }
        }
    }
}

/// Law: a moved block is taken up exactly where it is sealed at its destination, decodes, and is no furrow.
pub proof fn law_moved_block_must_address_itself(b: Seq<u8>)
    ensures
        reloc_refusal(b) is None <==> seal::hp_of(b) is Some && (doc::doc_of(b) matches Ok(d)
            && !(d is Furrow)),
        address(b) is Some <==> (doc::doc_of(b) matches Ok(d) && !(d is Furrow)),
        doc::doc_of(b) matches Ok(DocView::Node(n)) ==> address(b) == Some((n.route, n.depth as int)),
        doc::doc_of(b) matches Ok(DocView::Lone { key, .. }) ==> address(b) == Some((key, 255int)),
        doc::doc_of(b) matches Ok(DocView::Direct { key, .. }) ==> address(b) == Some(
            (key, 255int),
        ),
        doc::doc_of(b) matches Ok(DocView::Extent { key, .. }) ==> address(b) == Some(
            (key, 255int),
        ),
{
}

/// Law: a committed root is a pointer to its block, and the hash of zeros is the index without entries.
pub proof fn law_zero_hash_is_the_empty_index(hash: Seq<u8>, lba: u64)
    ensures
        hash == block::zeros32() ==> committed_index(hash, lba).root is None,
        hash != block::zeros32() ==> committed_index(hash, lba).root == Some(
            ChildView::At { hash, lba },
        ),
        committed_index(hash, lba).arena.len() == 0,
        committed_index(hash, lba).added.len() == 0,
        committed_index(hash, lba).removed.len() == 0,
{
}

/// Law: a lookup is healed by either copy. What the first device finds stands; where that fails, what is found
/// with the second's copies stands; where those give a block other than the one asked for, what is found the
/// other way round; and where nothing helps, the first failure is told.
pub proof fn law_lookup_is_healed_by_either_copy(
    t: Seq<Seq<u8>>,
    m: Seq<Seq<u8>>,
    w: Seq<Seq<u8>>,
    ix: Index,
    k: Seq<u8>,
)
    ensures
        ix.path(t, k).found is Ok ==> healed(t, m, w, ix, k) == ix.path(t, k).found,
        ix.path(t, k).found is Err && ix.path(m, k).found is Ok ==> healed(t, m, w, ix, k) == ix.path(
            m,
            k,
        ).found,
        ix.path(t, k).found is Err && ix.path(m, k).found == Err::<Option<Seq<u8>>, ErrorView>(
            ErrorView::Seal,
        ) && ix.path(w, k).found is Ok ==> healed(t, m, w, ix, k) == ix.path(w, k).found,
        healed(t, m, w, ix, k) is Err ==> healed(t, m, w, ix, k) == ix.path(t, k).found && ix.path(
            m,
            k,
        ).found is Err,
{
}

}
