//! What the index means: the path a key takes through it, and what depends on what.
//!
//! The index is a 32-way trie of nodes and leaves, partly on the tract and partly in the dirty
//! arena. A key takes one path through it. Everything the engine promises of a key — what is found
//! under it, which blocks that depends on — is said of that path, so an edit is right for all keys
//! when it is right for each path.
use vstd::prelude::*;
use crate::block;
use crate::doc;
use crate::doc::{ChildView, DocView, NodeView};
use crate::error;
use crate::error::ErrorView;
use crate::extent;
use crate::key;
use crate::seal;
use crate::text;

verus! {

/// The document a pointer leads to. Ok(None) is a zeroed block: deleted.
pub open spec fn doc_at(tract: Seq<Seq<u8>>, lba: u64, hash: Seq<u8>) -> core::result::Result<
    Option<DocView>,
    ErrorView,
> {
    if lba >= tract.len() {
        Err(ErrorView::Bounds(lba))
    } else if tract[lba as int] == block::zeros() {
        Ok(None)
    } else {
        match seal::hp_of(tract[lba as int]) {
            None => Err(
                ErrorView::Corrupt("unsealed block at tract lba "@ + text::dec(lba as nat) + ""@),
            ),
            Some(h) => if h != hash {
                Err(ErrorView::Seal)
            } else {
                match doc::doc_of(tract[lba as int]) {
                    Ok(d) => Ok(Some(d)),
                    Err(e) => Err(e),
                }
            },
        }
    }
}

/// The payload of the furrow at `lba`, if it is the `i`-th of `key`.
pub open spec fn furrow_at(
    tract: Seq<Seq<u8>>,
    key: Seq<u8>,
    lba: u64,
    i: int,
) -> core::result::Result<Seq<u8>, ErrorView> {
    if lba >= tract.len() {
        Err(ErrorView::Bounds(lba))
    } else if seal::hp_of(tract[lba as int]) is None {
        Err(ErrorView::Corrupt("furrow "@ + text::dec(i as nat) + " unsealed"@))
    } else {
        match doc::doc_of(tract[lba as int]) {
            Err(e) => Err(e),
            Ok(DocView::Furrow { key: k, index, payload }) => if k != key || index != i {
                Err(
                    ErrorView::Corrupt("furrow "@ + text::dec(i as nat) + " mismatched owner/index"@),
                )
            } else {
                Ok(payload)
            },
            Ok(_) => Err(ErrorView::Corrupt("furrow "@ + text::dec(i as nat) + " wrong schema"@)),
        }
    }
}

/// The payloads of the first `n` furrows at `ps`, joined.
pub open spec fn gathered(
    tract: Seq<Seq<u8>>,
    key: Seq<u8>,
    ps: Seq<u64>,
    n: nat,
) -> core::result::Result<Seq<u8>, ErrorView>
    decreases n,
{
    if n == 0 {
        Ok(Seq::<u8>::empty())
    } else {
        match gathered(tract, key, ps, (n - 1) as nat) {
            Err(e) => Err(e),
            Ok(sofar) => match furrow_at(tract, key, ps[n - 1], n - 1) {
                Err(e) => Err(e),
                Ok(p) => Ok(sofar + p),
            },
        }
    }
}

/// The value whose furrows stand at `ps`.
pub open spec fn assembled(
    tract: Seq<Seq<u8>>,
    key: Seq<u8>,
    size: u64,
    ps: Seq<u64>,
) -> core::result::Result<Seq<u8>, ErrorView> {
    match gathered(tract, key, ps, ps.len()) {
        Err(e) => Err(e),
        Ok(v) => if v.len() != size {
            Err(error::corrupt("assembled size mismatch"))
        } else {
            Ok(v)
        },
    }
}

/// The key of a leaf.
pub open spec fn leaf_key(d: DocView) -> Option<Seq<u8>> {
    match d {
        DocView::Lone { key, .. } => Some(key),
        DocView::Extent { key, .. } => Some(key),
        DocView::Direct { key, .. } => Some(key),
        _ => None,
    }
}

/// The furrow positions of a leaf.
pub open spec fn leaf_positions(d: DocView) -> core::result::Result<Seq<u64>, ErrorView> {
    match d {
        DocView::Extent { key, size, runs } => extent::expanded(runs, size),
        DocView::Direct { key, size, furrows } => Ok(furrows),
        _ => Ok(Seq::<u64>::empty()),
    }
}

/// The value of a leaf.
pub open spec fn leaf_value(tract: Seq<Seq<u8>>, d: DocView) -> core::result::Result<
    Seq<u8>,
    ErrorView,
> {
    match d {
        DocView::Lone { key, value } => Ok(value),
        DocView::Direct { key, size, furrows } => assembled(tract, key, size, furrows),
        DocView::Extent { key, size, runs } => match extent::expanded(runs, size) {
            Err(e) => Err(e),
            Ok(ps) => assembled(tract, key, size, ps),
        },
        _ => Err(error::corrupt("not a leaf")),
    }
}

/// The furrow positions of a leaf as a set; none where they cannot be told.
pub open spec fn furrow_set(d: DocView) -> Set<u64> {
    match leaf_positions(d) {
        Ok(ps) => ps.to_set(),
        Err(_) => Set::<u64>::empty(),
    }
}

/// The sealed blocks among the first `n` positions, with their hashes.
pub open spec fn marked(tract: Seq<Seq<u8>>, ps: Seq<u64>, n: nat) -> core::result::Result<
    Seq<(u64, Seq<u8>)>,
    ErrorView,
>
    decreases n,
{
    if n == 0 {
        Ok(Seq::<(u64, Seq<u8>)>::empty())
    } else {
        match marked(tract, ps, (n - 1) as nat) {
            Err(e) => Err(e),
            Ok(ms) => if ps[n - 1] >= tract.len() {
                Err(ErrorView::Bounds(ps[n - 1]))
            } else {
                match seal::hp_of(tract[ps[n - 1] as int]) {
                    Some(h) => Ok(ms.push((ps[n - 1], h))),
                    None => Ok(ms),
                }
            },
        }
    }
}

/// The sealed furrows of a leaf, with their hashes.
pub open spec fn furrow_marks(tract: Seq<Seq<u8>>, d: DocView) -> core::result::Result<
    Seq<(u64, Seq<u8>)>,
    ErrorView,
> {
    match leaf_positions(d) {
        Err(e) => Err(e),
        Ok(ps) => marked(tract, ps, ps.len()),
    }
}

/// The blocks of the leaf that a pointer leads to, with their hashes: its own first.
pub open spec fn leaf_marks(tract: Seq<Seq<u8>>, lba: u64, hash: Seq<u8>) -> core::result::Result<
    Seq<(u64, Seq<u8>)>,
    ErrorView,
> {
    match doc_at(tract, lba, hash) {
        Err(e) => Err(e),
        Ok(None) => Ok(seq![(lba, hash)]),
        Ok(Some(d)) => match furrow_marks(tract, d) {
            Err(e) => Err(e),
            Ok(ms) => Ok(seq![(lba, hash)] + ms),
        },
    }
}

/// A failed prefix fails the whole.
pub proof fn lemma_marked_fails(tract: Seq<Seq<u8>>, ps: Seq<u64>, n: nat, m: nat)
    requires
        n <= m,
        marked(tract, ps, n) is Err,
    ensures
        marked(tract, ps, m) == marked(tract, ps, n),
    decreases m,
{
    if n < m {
        lemma_marked_fails(tract, ps, n, (m - 1) as nat);
    }
}

/// Marks are sealed blocks at the positions they were looked for.
pub proof fn lemma_marked(tract: Seq<Seq<u8>>, ps: Seq<u64>, n: nat)
    requires
        marked(tract, ps, n) is Ok,
        n <= ps.len(),
    ensures
        forall|i: int|
            0 <= i < marked(tract, ps, n)->Ok_0.len() ==> {
                let m = #[trigger] marked(tract, ps, n)->Ok_0[i];
                &&& m.0 < tract.len()
                &&& seal::hp_of(tract[m.0 as int]) == Some(m.1)
                &&& ps.to_set().contains(m.0)
            },
        forall|i: int|
            0 <= i < n ==> (#[trigger] ps[i]) < tract.len() && (seal::hp_of(
                tract[ps[i] as int],
            ) matches Some(h) ==> marked(tract, ps, n)->Ok_0.contains((ps[i], h))),
    decreases n,
{
    if n > 0 {
        lemma_marked(tract, ps, (n - 1) as nat);
        let was = marked(tract, ps, (n - 1) as nat)->Ok_0;
        let now = marked(tract, ps, n)->Ok_0;
        assert(ps.to_set().contains(ps[n - 1]));
        assert forall|i: int| 0 <= i < now.len() implies {
            let m = #[trigger] now[i];
            &&& m.0 < tract.len()
            &&& seal::hp_of(tract[m.0 as int]) == Some(m.1)
            &&& ps.to_set().contains(m.0)
        } by {
            if i < was.len() {
                assert(now[i] == was[i]);
            }
        }
        assert forall|i: int| 0 <= i < n implies (#[trigger] ps[i]) < tract.len() && (seal::hp_of(
            tract[ps[i] as int],
        ) matches Some(h) ==> now.contains((ps[i], h))) by {
            if let Some(h) = seal::hp_of(tract[ps[i] as int]) {
                if i < n - 1 {
                    assert(was.contains((ps[i], h)));
                    let x = choose|x: int| 0 <= x < was.len() && was[x] == (ps[i], h);
                    assert(now[x] == (ps[i], h));
                } else {
                    assert(now[now.len() - 1] == (ps[i], h));
                }
            }
        }
    }
}

/// What a key's path through the index comes to.
#[verifier::ext_equal]
pub struct Trace {
    /// The value found under the key, if any.
    pub found: core::result::Result<Option<Seq<u8>>, ErrorView>,
    /// The pointer to the key's own leaf, if there is one.
    pub leaf: core::result::Result<Option<(u64, Seq<u8>)>, ErrorView>,
    /// The tract positions that were read on the way.
    pub reads: Set<u64>,
    /// The arena nodes that were passed.
    pub nodes: Set<int>,
    /// Whether every node on the way stands where it says, and the leaf at the end belongs there.
    pub placed: bool,
    /// Whether nothing on the way was damaged.
    pub whole: bool,
    /// The pointer at which the path ended, and its depth; none at an empty slot.
    pub stop: Option<(Seq<u8>, u64, int)>,
}

impl Trace {
    /// Whether every block on the way is what its place asks for.
    pub open spec fn sound(self) -> bool {
        self.placed && self.whole
    }
}

/// A path that ends in an error.
pub open spec fn broken(
    e: ErrorView,
    f: ErrorView,
    reads: Set<u64>,
    placed: bool,
    stop: Option<(Seq<u8>, u64, int)>,
) -> Trace {
    Trace {
        found: Err(e),
        leaf: Err(f),
        reads,
        nodes: Set::<int>::empty(),
        placed,
        whole: false,
        stop,
    }
}

/// The error of an index that goes deeper than its keys.
pub open spec fn too_deep() -> ErrorView {
    error::corrupt("index deeper than its keys")
}

/// A path that ends without a leaf of its own.
pub open spec fn absent(
    reads: Set<u64>,
    placed: bool,
    stop: Option<(Seq<u8>, u64, int)>,
) -> Trace {
    Trace {
        found: Ok(None),
        leaf: Ok(None),
        reads,
        nodes: Set::<int>::empty(),
        placed,
        whole: true,
        stop,
    }
}

/// Whether a node stands where the path of `k` comes to it at depth `d`: it says so, and has no child
/// where no key leads. The last level goes by one bit of the key.
pub open spec fn stands(n: NodeView, k: Seq<u8>, d: int) -> bool {
    &&& n.depth == d
    &&& key::agree(n.route, k, d)
    &&& d == 51 ==> forall|x: int|
        0 <= x < n.kids.len() && x % 16 != 0 ==> (#[trigger] n.kids[x]) is None
}

/// A node stands where it stood with another child where a key leads, or in the place of a child.
pub proof fn lemma_stands_kid(
    n: NodeView,
    k: Seq<u8>,
    d: int,
    c: int,
    kid: Option<ChildView>,
)
    requires
        0 <= c < n.kids.len(),
        c % 16 == 0 || d != 51 || (n.kids[c] is Some && kid is Some),
    ensures
        stands(NodeView { kids: n.kids.update(c, kid), ..n }, k, d) == stands(n, k, d),
{
    let nn = NodeView { kids: n.kids.update(c, kid), ..n };
    if d == 51 {
        if stands(n, k, d) {
            assert forall|x: int| 0 <= x < nn.kids.len() && x % 16 != 0 implies (
            #[trigger] nn.kids[x]) is None by {
                assert(n.kids[x] is None);
            }
        }
        if stands(nn, k, d) {
            assert forall|x: int| 0 <= x < n.kids.len() && x % 16 != 0 implies (
            #[trigger] n.kids[x]) is None by {
                assert(nn.kids[x] is None);
            }
        }
    }
}

/// The path of `k` from a slot at depth `d`.
pub open spec fn walk(
    tract: Seq<Seq<u8>>,
    arena: Seq<NodeView>,
    slot: Option<ChildView>,
    k: Seq<u8>,
    d: int,
) -> Trace
    decreases 52 - d,
{
    match slot {
        None => absent(Set::<u64>::empty(), true, None),
        Some(ChildView::Dirty(j)) => if d < 0 || d >= 52 || j < 0 || j >= arena.len() {
            broken(too_deep(), too_deep(), Set::<u64>::empty(), false, None)
        } else {
            let n = arena[j];
            let t = walk(tract, arena, n.kids[key::chunk_of(k, d) as int], k, d + 1);
            Trace {
                nodes: t.nodes.insert(j),
                placed: t.placed && stands(n, k, d),
                ..t
            }
        },
        Some(ChildView::At { hash, lba }) => {
            let here = Set::<u64>::empty().insert(lba);
            let stop = Some((hash, lba, d));
            match doc_at(tract, lba, hash) {
                Err(e) => broken(e, e, here, true, stop),
                Ok(None) => absent(here, true, stop),
                Ok(Some(DocView::Node(n))) => if d < 0 || d >= 52 {
                    broken(too_deep(), too_deep(), here, false, stop)
                } else {
                    let t = walk(tract, arena, n.kids[key::chunk_of(k, d) as int], k, d + 1);
                    Trace {
                        reads: t.reads.insert(lba),
                        placed: t.placed && stands(n, k, d),
                        ..t
                    }
                },
                Ok(Some(DocView::Furrow { .. })) => broken(
                    error::corrupt("furrow reached via index walk"),
                    error::corrupt("furrow in index position"),
                    here,
                    true,
                    stop,
                ),
                Ok(Some(leaf)) => if leaf_key(leaf) == Some(k) {
                    Trace {
                        found: match leaf_value(tract, leaf) {
                            Ok(v) => Ok(Some(v)),
                            Err(e) => Err(e),
                        },
                        leaf: Ok(Some((lba, hash))),
                        reads: here.union(furrow_set(leaf)),
                        nodes: Set::<int>::empty(),
                        placed: true,
                        whole: leaf_value(tract, leaf) is Ok,
                        stop,
                    }
                } else {
                    absent(here, key::agree(leaf_key(leaf)->0, k, d), stop)
                },
            }
        },
    }
}

// ---------------------------------------------------------------- shapes

/// Whether a node has 32 slots, a route, and pointers that are hashes or lead on in the arena.
pub open spec fn node_wf(n: NodeView, i: int, len: int) -> bool {
    &&& n.kids.len() == 32
    &&& n.route.len() == 32
    &&& forall|c: int|
        0 <= c < 32 ==> ((#[trigger] n.kids[c]) matches Some(x) ==> match x {
            ChildView::Dirty(j) => i < j < len,
            ChildView::At { hash, lba } => hash.len() == 32,
        })
}

/// Whether every arena node is well formed: links lead to later nodes only.
pub open spec fn arena_wf(arena: Seq<NodeView>) -> bool {
    forall|i: int| 0 <= i < arena.len() ==> node_wf(#[trigger] arena[i], i, arena.len() as int)
}

/// Whether a slot's pointer leads somewhere.
pub open spec fn slot_wf(slot: Option<ChildView>, arena: Seq<NodeView>) -> bool {
    match slot {
        None => true,
        Some(ChildView::Dirty(j)) => 0 <= j < arena.len(),
        Some(ChildView::At { hash, lba }) => hash.len() == 32,
    }
}

/// The arena index from which a slot's nodes count.
pub open spec fn slot_floor(slot: Option<ChildView>) -> int {
    match slot {
        Some(ChildView::Dirty(j)) => j,
        _ => 0,
    }
}

proof fn lemma_all_hashes_len(fs: Seq<seal::FieldView>, name: Seq<char>)
    ensures
        forall|i: int|
            0 <= i < seal::all_hashes(fs, name).len() ==> (#[trigger] seal::all_hashes(
                fs,
                name,
            )[i]).len() == 32,
    decreases fs.len(),
{
    if fs.len() > 0 {
        lemma_all_hashes_len(fs.drop_last(), name);
        let hs = seal::all_hashes(fs, name);
        let was = seal::all_hashes(fs.drop_last(), name);
        assert forall|i: int| 0 <= i < hs.len() implies (#[trigger] hs[i]).len() == 32 by {
            if i < was.len() {
                assert(hs[i] == was[i]);
            }
        }
    }
}

proof fn lemma_spread_shape(m: nat, n: nat, hs: Seq<Seq<u8>>, ls: Seq<u64>)
    requires
        doc::ones(m, n) <= hs.len(),
        forall|i: int| 0 <= i < hs.len() ==> (#[trigger] hs[i]).len() == 32,
    ensures
        doc::spread(m, n, hs, ls).len() == n,
        doc::all_at(doc::spread(m, n, hs, ls)),
    decreases n,
{
    if n > 0 {
        let s = doc::spread(m, n, hs, ls);
        if m % 2 == 1 {
            lemma_spread_shape(m / 2, (n - 1) as nat, hs.skip(1), ls.skip(1));
            let t = doc::spread(m / 2, (n - 1) as nat, hs.skip(1), ls.skip(1));
            assert forall|i: int| 0 <= i < s.len() implies ((#[trigger] s[i]) matches Some(c) ==> c
                is At && c->hash.len() == 32) by {
                if i > 0 {
                    assert(s[i] == t[i - 1]);
                }
            }
        } else {
            lemma_spread_shape(m / 2, (n - 1) as nat, hs, ls);
            let t = doc::spread(m / 2, (n - 1) as nat, hs, ls);
            assert forall|i: int| 0 <= i < s.len() implies ((#[trigger] s[i]) matches Some(c) ==> c
                is At && c->hash.len() == 32) by {
                if i > 0 {
                    assert(s[i] == t[i - 1]);
                }
            }
        }
    }
}

/// A decoded node has 32 slots, all empty or on the medium, and a route.
pub proof fn lemma_doc_shape(b: Seq<u8>)
    ensures
        doc::doc_of(b) matches Ok(DocView::Node(n)) ==> n.kids.len() == 32 && doc::all_at(n.kids)
            && n.route.len() == 32,
        doc::doc_of(b) matches Ok(d) ==> (leaf_key(d) matches Some(k) ==> k.len() == 32),
        doc::doc_of(b) matches Ok(DocView::Furrow { key, .. }) ==> key.len() == 32,
{
    reveal(doc::doc_of);
    if let Ok((_, p)) = crate::wire::parsed(b, 4) {
        if let Ok((crate::wire::ItemView::Name(s), q)) = crate::wire::parsed(b, p + 1) {
            let fs = seal::scan(b, q).0;
            let ns = doc::doc_hash_names();
            assert(ns[0] == "key"@ && ns[1] == "route"@);
            if seal::first_odd_hash(fs, ns) is None {
                crate::spine::lemma_hash_len(fs, ns, "key"@);
                crate::spine::lemma_hash_len(fs, ns, "route"@);
            }
            if let Ok(DocView::Node(n)) = doc::doc_of(b) {
                let hs = seal::all_hashes(fs, "ch"@);
                let ls = seal::all_uints(fs, "at"@);
                let m = (seal::last_uint(fs, "map"@)->0 % 0x1_0000_0000) as nat;
                lemma_all_hashes_len(fs, "ch"@);
                lemma_spread_shape(m, 32, hs, ls);
            }
        }
    }
}

/// What cannot be decoded is corrupt, and nothing else.
pub proof fn lemma_doc_errors(b: Seq<u8>)
    ensures
        doc::doc_of(b) matches Err(e) ==> e is Corrupt,
{
    reveal(doc::doc_of);
}

proof fn lemma_marked_errors(tract: Seq<Seq<u8>>, ps: Seq<u64>, n: nat)
    ensures
        marked(tract, ps, n) matches Err(e) ==> e is Bounds,
    decreases n,
{
    if n > 0 {
        lemma_marked_errors(tract, ps, (n - 1) as nat);
    }
}

/// Reading the index never says that there is no room.
pub proof fn lemma_read_errors(tract: Seq<Seq<u8>>, lba: u64, hash: Seq<u8>)
    ensures
        doc_at(tract, lba, hash) matches Err(e) ==> e is Bounds || e is Corrupt || e is Seal,
        leaf_marks(tract, lba, hash) matches Err(e) ==> e is Bounds || e is Corrupt || e is Seal,
{
    if lba < tract.len() {
        lemma_doc_errors(tract[lba as int]);
    }
    if let Ok(Some(d)) = doc_at(tract, lba, hash) {
        if let Ok(ps) = leaf_positions(d) {
            lemma_marked_errors(tract, ps, ps.len());
        }
    }
}

proof fn lemma_gathered_errors(tract: Seq<Seq<u8>>, k: Seq<u8>, ps: Seq<u64>, n: nat)
    ensures
        gathered(tract, k, ps, n) matches Err(e) ==> e is Bounds || e is Corrupt,
    decreases n,
{
    if n > 0 {
        lemma_gathered_errors(tract, k, ps, (n - 1) as nat);
        if ps[n - 1] < tract.len() {
            lemma_doc_errors(tract[ps[n - 1] as int]);
        }
    }
}

/// A value that cannot be put together is out of bounds or corrupt.
pub proof fn lemma_value_errors(tract: Seq<Seq<u8>>, d: DocView)
    ensures
        leaf_value(tract, d) matches Err(e) ==> e is Bounds || e is Corrupt,
{
    match d {
        DocView::Direct { key, size, furrows } => {
            lemma_gathered_errors(tract, key, furrows, furrows.len());
        },
        DocView::Extent { key, size, runs } => {
            if let Ok(ps) = extent::expanded(runs, size) {
                lemma_gathered_errors(tract, key, ps, ps.len());
            }
        },
        _ => {},
    }
}

// ---------------------------------------------------------------- what a path depends on

/// Whether two tracts agree at some positions: they end alike, or lie in both.
pub open spec fn same_at(a: Seq<Seq<u8>>, b: Seq<Seq<u8>>, ps: Set<u64>) -> bool {
    &&& a.len() == b.len() || forall|p: u64| #[trigger] ps.contains(p) ==> p < a.len() && p < b.len()
    &&& forall|p: u64| #[trigger] ps.contains(p) && p < a.len() ==> a[p as int] == b[p as int]
}

/// Whether the second arena holds the nodes `ns` of the first.
pub open spec fn same_nodes(a: Seq<NodeView>, b: Seq<NodeView>, ns: Set<int>) -> bool {
    forall|j: int|
        #[trigger] ns.contains(j) && 0 <= j < a.len() ==> j < b.len() && a[j] == b[j]
}

proof fn lemma_gathered_frame(
    a: Seq<Seq<u8>>,
    b: Seq<Seq<u8>>,
    k: Seq<u8>,
    ps: Seq<u64>,
    n: nat,
)
    requires
        n <= ps.len(),
        same_at(a, b, ps.to_set()),
    ensures
        gathered(a, k, ps, n) == gathered(b, k, ps, n),
    decreases n,
{
    if n > 0 {
        lemma_gathered_frame(a, b, k, ps, (n - 1) as nat);
        assert(ps.to_set().contains(ps[n - 1]));
    }
}

/// A leaf's value depends on its furrows alone.
pub proof fn lemma_value_frame(a: Seq<Seq<u8>>, b: Seq<Seq<u8>>, d: DocView)
    requires
        same_at(a, b, furrow_set(d)),
    ensures
        leaf_value(a, d) == leaf_value(b, d),
{
    match d {
        DocView::Direct { key, size, furrows } => {
            lemma_gathered_frame(a, b, key, furrows, furrows.len());
        },
        DocView::Extent { key, size, runs } => {
            if let Ok(ps) = extent::expanded(runs, size) {
                lemma_gathered_frame(a, b, key, ps, ps.len());
            }
        },
        _ => {},
    }
}

/// Law: what a key's path comes to depends on nothing but the blocks it reads and the nodes it
/// passes.
pub proof fn law_path_depends_on_its_reads(
    a: Seq<Seq<u8>>,
    b: Seq<Seq<u8>>,
    arena: Seq<NodeView>,
    other: Seq<NodeView>,
    slot: Option<ChildView>,
    k: Seq<u8>,
    d: int,
)
    requires
        same_at(a, b, walk(a, arena, slot, k, d).reads),
        same_nodes(arena, other, walk(a, arena, slot, k, d).nodes),
        slot_wf(slot, arena),
        arena_wf(arena),
        k.len() == 32,
    ensures
        walk(b, other, slot, k, d) == walk(a, arena, slot, k, d),
    decreases 52 - d,
{
    let t = walk(a, arena, slot, k, d);
    match slot {
        None => {},
        Some(ChildView::Dirty(j)) => {
            assert(0 <= j < arena.len());
            if 0 <= d < 52 {
                let c = key::chunk_of(k, d) as int;
                key::lemma_chunk_bound(k, d);
                let n = arena[j];
                assert(node_wf(n, j, arena.len() as int));
                let s = walk(a, arena, n.kids[c], k, d + 1);
                assert(t.nodes.contains(j));
                assert(same_nodes(arena, other, s.nodes)) by {
                    assert forall|x: int| #[trigger] s.nodes.contains(x) && 0 <= x
                        < arena.len() implies x < other.len() && arena[x] == other[x] by {
                        assert(t.nodes.contains(x));
                    }
                }
                assert(slot_wf(n.kids[c], arena));
                law_path_depends_on_its_reads(a, b, arena, other, n.kids[c], k, d + 1);
            } else {
                assert(!(0 <= d < 52));
            }
        },
        Some(ChildView::At { hash, lba }) => {
            assert(t.reads.contains(lba));
            assert(doc_at(b, lba, hash) == doc_at(a, lba, hash));
            if let Ok(Some(doc)) = doc_at(a, lba, hash) {
                lemma_doc_shape(a[lba as int]);
                match doc {
                    DocView::Node(n) => {
                        if 0 <= d < 52 {
                            let c = key::chunk_of(k, d) as int;
                            key::lemma_chunk_bound(k, d);
                            let s = walk(a, arena, n.kids[c], k, d + 1);
                            assert(same_at(a, b, s.reads)) by {
                                assert forall|p: u64| #[trigger] s.reads.contains(
                                    p,
                                ) implies t.reads.contains(p) by {}
                            }
                            assert(slot_wf(n.kids[c], arena)) by {
                                assert(n.kids[c] matches Some(x) ==> x is At);
                            }
                            law_path_depends_on_its_reads(a, b, arena, other, n.kids[c], k, d + 1);
                        }
                    },
                    DocView::Furrow { .. } => {},
                    leaf => {
                        if leaf_key(leaf) == Some(k) {
                            assert(same_at(a, b, furrow_set(leaf))) by {
                                assert forall|p: u64| #[trigger] furrow_set(leaf).contains(
                                    p,
                                ) implies t.reads.contains(p) by {}
                            }
                            lemma_value_frame(a, b, leaf);
                        }
                    },
                }
            }
        },
    }
}

/// A path passes only arena nodes that exist, none before its slot's own, and below a pointer to
/// the medium none at all.
pub proof fn lemma_nodes_above(
    tract: Seq<Seq<u8>>,
    arena: Seq<NodeView>,
    slot: Option<ChildView>,
    k: Seq<u8>,
    d: int,
)
    requires
        slot_wf(slot, arena),
        arena_wf(arena),
    ensures
        forall|j: int|
            #[trigger] walk(tract, arena, slot, k, d).nodes.contains(j) ==> slot_floor(slot) <= j
                < arena.len() && slot matches Some(ChildView::Dirty(_)),
    decreases 52 - d,
{
    match slot {
        Some(ChildView::Dirty(j)) => {
            if 0 <= d < 52 {
                let c = key::chunk_of(k, d) as int;
                key::lemma_chunk_bound(k, d);
                let n = arena[j];
                assert(node_wf(n, j, arena.len() as int));
                assert(slot_wf(n.kids[c], arena));
                lemma_nodes_above(tract, arena, n.kids[c], k, d + 1);
            }
        },
        Some(ChildView::At { hash, lba }) => {
            if let Ok(Some(DocView::Node(n))) = doc_at(tract, lba, hash) {
                if 0 <= d < 52 {
                    let c = key::chunk_of(k, d) as int;
                    key::lemma_chunk_bound(k, d);
                    lemma_doc_shape(tract[lba as int]);
                    assert(n.kids[c] matches Some(x) ==> x is At && x->hash.len() == 32);
                    lemma_nodes_above(tract, arena, n.kids[c], k, d + 1);
                }
            }
        },
        None => {},
    }
}

/// On a well placed path every arena node stands at its own depth, on the way of its own route.
pub proof fn lemma_placed_nodes(
    tract: Seq<Seq<u8>>,
    arena: Seq<NodeView>,
    slot: Option<ChildView>,
    k: Seq<u8>,
    d: int,
)
    requires
        walk(tract, arena, slot, k, d).placed,
    ensures
        forall|j: int|
            #[trigger] walk(tract, arena, slot, k, d).nodes.contains(j) ==> arena[j].depth >= d
                && key::agree(arena[j].route, k, arena[j].depth as int),
    decreases 52 - d,
{
    match slot {
        Some(ChildView::Dirty(j)) => {
            let n = arena[j];
            lemma_placed_nodes(tract, arena, n.kids[key::chunk_of(k, d) as int], k, d + 1);
        },
        Some(ChildView::At { hash, lba }) => {
            if let Ok(Some(DocView::Node(n))) = doc_at(tract, lba, hash) {
                lemma_placed_nodes(tract, arena, n.kids[key::chunk_of(k, d) as int], k, d + 1);
            }
        },
        None => {},
    }
}

/// Whether a block is, by its own account, one that the path of `k` from depth `d` may read: a node
/// on the way of `k`, a leaf on that way, or a furrow of `k`.
pub open spec fn on_way(b: Seq<u8>, k: Seq<u8>, d: int) -> bool {
    match doc::doc_of(b) {
        Ok(DocView::Node(n)) => n.depth >= d && key::agree(n.route, k, n.depth as int),
        Ok(DocView::Furrow { key, .. }) => key == k,
        Ok(leaf) => key::agree(leaf_key(leaf)->0, k, d),
        Err(_) => false,
    }
}

proof fn lemma_gathered_owned(tract: Seq<Seq<u8>>, k: Seq<u8>, ps: Seq<u64>, n: nat, i: int)
    requires
        gathered(tract, k, ps, n) is Ok,
        0 <= i < n <= ps.len(),
    ensures
        furrow_at(tract, k, ps[i], i) is Ok,
    decreases n,
{
    if i < n - 1 {
        lemma_gathered_owned(tract, k, ps, (n - 1) as nat, i);
    }
}

proof fn lemma_gathered_marks(tract: Seq<Seq<u8>>, k: Seq<u8>, ps: Seq<u64>, n: nat)
    requires
        gathered(tract, k, ps, n) is Ok,
        n <= ps.len(),
    ensures
        marked(tract, ps, n) is Ok,
    decreases n,
{
    if n > 0 {
        lemma_gathered_marks(tract, k, ps, (n - 1) as nat);
    }
}

/// The furrows of a readable leaf can all be marked.
pub proof fn lemma_leaf_marks(tract: Seq<Seq<u8>>, d: DocView)
    requires
        leaf_value(tract, d) is Ok,
    ensures
        furrow_marks(tract, d) is Ok,
{
    let ps = leaf_positions(d)->Ok_0;
    if d !is Lone {
        lemma_gathered_marks(tract, leaf_key(d)->0, ps, ps.len());
    }
}

/// The furrows of a readable leaf are furrows of its key.
pub proof fn lemma_leaf_owns(tract: Seq<Seq<u8>>, d: DocView, p: u64)
    requires
        leaf_value(tract, d) is Ok,
        furrow_set(d).contains(p),
    ensures
        p < tract.len(),
        seal::hp_of(tract[p as int]) is Some,
        doc::doc_of(tract[p as int]) matches Ok(DocView::Furrow { key, .. }) && Some(key)
            == leaf_key(d),
{
    let ps = leaf_positions(d)->Ok_0;
    let i = choose|i: int| 0 <= i < ps.len() && ps[i] == p;
    let k = leaf_key(d)->0;
    lemma_gathered_owned(tract, k, ps, ps.len(), i);
}

/// Each furrow of a readable leaf stands under its own index.
pub proof fn lemma_furrow_in_place(tract: Seq<Seq<u8>>, d: DocView, ps: Seq<u64>, i: int)
    requires
        leaf_value(tract, d) is Ok,
        leaf_positions(d) == Ok::<Seq<u64>, ErrorView>(ps),
        0 <= i < ps.len(),
    ensures
        ps[i] < tract.len(),
        seal::hp_of(tract[ps[i] as int]) is Some,
        doc::doc_of(tract[ps[i] as int]) matches Ok(DocView::Furrow { key, index, .. }) && Some(key)
            == leaf_key(d) && index == i,
{
    lemma_gathered_owned(tract, leaf_key(d)->0, ps, ps.len(), i);
}

/// On a sound path every block that was read is sealed and on the way, or was zeroed.
pub proof fn lemma_sound_reads(
    tract: Seq<Seq<u8>>,
    arena: Seq<NodeView>,
    slot: Option<ChildView>,
    k: Seq<u8>,
    d: int,
)
    requires
        walk(tract, arena, slot, k, d).sound(),
        0 <= d,
    ensures
        forall|p: u64|
            #[trigger] walk(tract, arena, slot, k, d).reads.contains(p) ==> p < tract.len() && (
            tract[p as int] == block::zeros() || (seal::hp_of(tract[p as int]) is Some && on_way(
                tract[p as int],
                k,
                d,
            ))),
    decreases 52 - d,
{
    let t = walk(tract, arena, slot, k, d);
    match slot {
        Some(ChildView::Dirty(j)) => {
            let n = arena[j];
            let s = n.kids[key::chunk_of(k, d) as int];
            lemma_sound_reads(tract, arena, s, k, d + 1);
            assert forall|p: u64| #[trigger] t.reads.contains(p) implies p < tract.len() && (
            tract[p as int] == block::zeros() || (seal::hp_of(tract[p as int]) is Some && on_way(
                tract[p as int],
                k,
                d,
            ))) by {
                assert(walk(tract, arena, s, k, d + 1).reads.contains(p));
            }
        },
        Some(ChildView::At { hash, lba }) => {
            match doc_at(tract, lba, hash) {
                Ok(Some(DocView::Node(n))) => {
                    let s = n.kids[key::chunk_of(k, d) as int];
                    lemma_sound_reads(tract, arena, s, k, d + 1);
                    assert forall|p: u64| #[trigger] t.reads.contains(p) implies p < tract.len() && (
                    tract[p as int] == block::zeros() || (seal::hp_of(tract[p as int]) is Some
                        && on_way(tract[p as int], k, d))) by {
                        if p != lba {
                            assert(walk(tract, arena, s, k, d + 1).reads.contains(p));
                        }
                    }
                },
                Ok(Some(DocView::Furrow { .. })) => {},
                Ok(Some(leaf)) => {
                    assert forall|p: u64| #[trigger] t.reads.contains(p) implies p < tract.len() && (
                    tract[p as int] == block::zeros() || (seal::hp_of(tract[p as int]) is Some
                        && on_way(tract[p as int], k, d))) by {
                        if p != lba {
                            lemma_leaf_owns(tract, leaf, p);
                        }
                    }
                },
                _ => {},
            }
        },
        None => {},
    }
}

/// The furrows that a sound path reads are those of the leaf at its end.
pub proof fn lemma_furrow_reads(
    tract: Seq<Seq<u8>>,
    arena: Seq<NodeView>,
    slot: Option<ChildView>,
    k: Seq<u8>,
    d: int,
    p: u64,
)
    requires
        walk(tract, arena, slot, k, d).sound(),
        walk(tract, arena, slot, k, d).reads.contains(p),
        p < tract.len(),
        seal::hp_of(tract[p as int]) is Some,
        doc::doc_of(tract[p as int]) matches Ok(DocView::Furrow { .. }),
    ensures
        walk(tract, arena, slot, k, d).leaf matches Ok(Some((l, h))) && (doc_at(
            tract,
            l,
            h,
        ) matches Ok(Some(leaf)) && leaf_key(leaf) == Some(k) && furrow_set(leaf).contains(p)),
    decreases 52 - d,
{
    seal::lemma_zero_unsealed();
    match slot {
        Some(ChildView::Dirty(j)) => {
            let s = arena[j].kids[key::chunk_of(k, d) as int];
            lemma_furrow_reads(tract, arena, s, k, d + 1, p);
        },
        Some(ChildView::At { hash, lba }) => {
            if let Ok(Some(DocView::Node(n))) = doc_at(tract, lba, hash) {
                assert(p != lba);
                let s = n.kids[key::chunk_of(k, d) as int];
                lemma_furrow_reads(tract, arena, s, k, d + 1, p);
            }
        },
        None => {},
    }
}

/// Whether a block belongs, by its own account, to `k` alone from depth `d` on: a node on its way
/// no higher than `d`, its leaf, or one of its furrows.
pub open spec fn mine(b: Seq<u8>, k: Seq<u8>, d: int) -> bool {
    &&& b != block::zeros()
    &&& match doc::doc_of(b) {
        Ok(DocView::Node(n)) => n.depth >= d && key::agree(n.route, k, n.depth as int),
        Ok(DocView::Furrow { key, .. }) => key == k,
        Ok(leaf) => leaf_key(leaf) == Some(k),
        Err(_) => false,
    }
}

/// A key that parts from another before depth `d` reads nothing that is the other's from there on.
pub proof fn lemma_parted_reads(
    tract: Seq<Seq<u8>>,
    arena: Seq<NodeView>,
    slot: Option<ChildView>,
    k: Seq<u8>,
    other: Seq<u8>,
    d: int,
    p: u64,
)
    requires
        walk(tract, arena, slot, k, d).sound(),
        0 <= d,
        !key::agree(k, other, d),
        k != other,
        p < tract.len(),
        mine(tract[p as int], other, d),
    ensures
        !walk(tract, arena, slot, k, d).reads.contains(p),
{
    lemma_sound_reads(tract, arena, slot, k, d);
    if walk(tract, arena, slot, k, d).reads.contains(p) {
        match doc::doc_of(tract[p as int]) {
            Ok(DocView::Node(n)) => {
                lemma_agree_shared(n.route, k, other, n.depth as int, d);
            },
            Ok(DocView::Furrow { key, .. }) => {},
            Ok(leaf) => {
                lemma_agree_swap(other, k, d);
            },
            Err(_) => {},
        }
    }
}

pub proof fn lemma_agree_swap(a: Seq<u8>, b: Seq<u8>, d: int)
    requires
        key::agree(a, b, d),
    ensures
        key::agree(b, a, d),
{
    assert forall|i: int| 0 <= i < d implies #[trigger] key::chunk_of(b, i) == key::chunk_of(
        a,
        i,
    ) by {
        assert(key::chunk_of(a, i) == key::chunk_of(b, i));
    }
}

/// Two keys on the way of one route share it.
pub proof fn lemma_agree_shared(r: Seq<u8>, a: Seq<u8>, b: Seq<u8>, deep: int, d: int)
    requires
        key::agree(r, a, deep),
        key::agree(r, b, deep),
        d <= deep,
    ensures
        key::agree(a, b, d),
{
    assert forall|i: int| 0 <= i < d implies #[trigger] key::chunk_of(a, i) == key::chunk_of(
        b,
        i,
    ) by {
        assert(key::chunk_of(r, i) == key::chunk_of(a, i));
        assert(key::chunk_of(r, i) == key::chunk_of(b, i));
    }
}

/// Two keys that part before depth `d` pass no common arena node from there on.
pub proof fn lemma_parted_nodes(
    tract: Seq<Seq<u8>>,
    arena: Seq<NodeView>,
    s: Option<ChildView>,
    t: Option<ChildView>,
    a: Seq<u8>,
    b: Seq<u8>,
    d: int,
    j: int,
)
    requires
        walk(tract, arena, s, a, d).placed,
        walk(tract, arena, t, b, d).placed,
        !key::agree(a, b, d),
        walk(tract, arena, s, a, d).nodes.contains(j),
    ensures
        !walk(tract, arena, t, b, d).nodes.contains(j),
{
    lemma_placed_nodes(tract, arena, s, a, d);
    lemma_placed_nodes(tract, arena, t, b, d);
    if walk(tract, arena, t, b, d).nodes.contains(j) {
        lemma_agree_shared(arena[j].route, a, b, arena[j].depth as int, d);
    }
}

/// One chunk more.
pub proof fn lemma_agree_step(a: Seq<u8>, b: Seq<u8>, d: int)
    requires
        0 <= d,
        key::agree(a, b, d),
    ensures
        key::agree(a, b, d + 1) == (key::chunk_of(a, d) == key::chunk_of(b, d)),
{
    if key::chunk_of(a, d) == key::chunk_of(b, d) {
        assert forall|i: int| 0 <= i < d + 1 implies #[trigger] key::chunk_of(a, i)
            == key::chunk_of(b, i) by {}
    }
}

/// Law: a lookup takes what it meets for what it is. Without a pointer, or at a zeroed block or the leaf of
/// another key, the key is absent; at the leaf of the key it finds the value; at a block that is beyond the
/// tract, unsealed, sealed with another hash, or a furrow, it fails; and at a node it goes on by the key's
/// chunk.
pub proof fn law_lookup_takes_blocks_for_what_they_are(
    tract: Seq<Seq<u8>>,
    arena: Seq<NodeView>,
    hash: Seq<u8>,
    lba: u64,
    k: Seq<u8>,
    d: int,
)
    requires
        0 <= d < 52,
    ensures
        walk(tract, arena, None, k, d).found == Ok::<Option<Seq<u8>>, ErrorView>(None),
        ({
            let found = walk(tract, arena, Some(ChildView::At { hash, lba }), k, d).found;
            &&& lba >= tract.len() ==> found == Err::<Option<Seq<u8>>, ErrorView>(
                ErrorView::Bounds(lba),
            )
            &&& lba < tract.len() ==> {
                let b = tract[lba as int];
                &&& b == block::zeros() ==> found == Ok::<Option<Seq<u8>>, ErrorView>(None)
                &&& b != block::zeros() && seal::hp_of(b) is None ==> (found matches Err(e)
                    && e is Corrupt)
                &&& b != block::zeros() && seal::hp_of(b) is Some && seal::hp_of(b) != Some(hash)
                    ==> found == Err::<Option<Seq<u8>>, ErrorView>(ErrorView::Seal)
                &&& b != block::zeros() && seal::hp_of(b) == Some(hash) ==> (match doc::doc_of(b) {
                    Err(e) => found == Err::<Option<Seq<u8>>, ErrorView>(e),
                    Ok(DocView::Node(n)) => found == walk(
                        tract,
                        arena,
                        n.kids[key::chunk_of(k, d) as int],
                        k,
                        d + 1,
                    ).found,
                    Ok(DocView::Lone { key, value }) => found == Ok::<
                        Option<Seq<u8>>,
                        ErrorView,
                    >(
                        if key == k {
                            Some(value)
                        } else {
                            None
                        },
                    ),
                    Ok(DocView::Direct { key, size, furrows }) => if key != k {
                        found == Ok::<Option<Seq<u8>>, ErrorView>(None)
                    } else {
                        match assembled(tract, k, size, furrows) {
                            Ok(v) => found == Ok::<Option<Seq<u8>>, ErrorView>(Some(v)),
                            Err(e) => found == Err::<Option<Seq<u8>>, ErrorView>(e),
                        }
                    },
                    Ok(DocView::Extent { key, size, runs }) => if key != k {
                        found == Ok::<Option<Seq<u8>>, ErrorView>(None)
                    } else {
                        match extent::expanded(runs, size) {
                            Ok(ps) => match assembled(tract, k, size, ps) {
                                Ok(v) => found == Ok::<Option<Seq<u8>>, ErrorView>(Some(v)),
                                Err(e) => found == Err::<Option<Seq<u8>>, ErrorView>(e),
                            },
                            Err(e) => found == Err::<Option<Seq<u8>>, ErrorView>(e),
                        }
                    },
                    Ok(DocView::Furrow { .. }) => found is Err,
                })
            }
        }),
{
}

/// Law: a value is its furrows, in order. It is as long as its leaf says, and the payload of each furrow, which
/// is sealed and says whose it is and its index, stands in it where those before it end.
pub proof fn law_value_is_its_furrows_in_order(
    tract: Seq<Seq<u8>>,
    key: Seq<u8>,
    size: u64,
    ps: Seq<u64>,
    v: Seq<u8>,
    i: int,
)
    requires
        assembled(tract, key, size, ps) == Ok::<Seq<u8>, ErrorView>(v),
        0 <= i < ps.len(),
    ensures
        v.len() == size,
        ps[i] < tract.len(),
        seal::hp_of(tract[ps[i] as int]) is Some,
        doc::doc_of(tract[ps[i] as int]) matches Ok(DocView::Furrow { key: k, index, payload }) && k
            == key && index == i && (gathered(tract, key, ps, i as nat) matches Ok(before)
            && before.len() + payload.len() <= v.len() && v.subrange(
            before.len() as int,
            (before.len() + payload.len()) as int,
        ) == payload && v.take(before.len() as int) == before),
{
    lemma_gathered_at(tract, key, ps, ps.len(), v, i);
}

proof fn lemma_gathered_at(
    tract: Seq<Seq<u8>>,
    key: Seq<u8>,
    ps: Seq<u64>,
    n: nat,
    v: Seq<u8>,
    i: int,
)
    requires
        gathered(tract, key, ps, n) == Ok::<Seq<u8>, ErrorView>(v),
        0 <= i < n,
    ensures
        furrow_at(tract, key, ps[i], i) matches Ok(payload) && (gathered(
            tract,
            key,
            ps,
            i as nat,
        ) matches Ok(before) && before.len() + payload.len() <= v.len() && v.subrange(
            before.len() as int,
            (before.len() + payload.len()) as int,
        ) == payload && v.take(before.len() as int) == before),
    decreases n,
{
    let less = gathered(tract, key, ps, (n - 1) as nat)->Ok_0;
    let last = furrow_at(tract, key, ps[n - 1], n - 1)->Ok_0;
    assert(v == less + last);
    if i < n - 1 {
        lemma_gathered_at(tract, key, ps, (n - 1) as nat, less, i);
        let payload = furrow_at(tract, key, ps[i], i)->Ok_0;
        let before = gathered(tract, key, ps, i as nat)->Ok_0;
        assert(v.subrange(before.len() as int, (before.len() + payload.len()) as int)
            =~= less.subrange(before.len() as int, (before.len() + payload.len()) as int));
        assert(v.take(before.len() as int) =~= less.take(before.len() as int));
    } else {
        assert(v.subrange(less.len() as int, (less.len() + last.len()) as int) =~= last);
        assert(v.take(less.len() as int) =~= less);
    }
}

}
