//! Walking the whole committed index: what is live, and which pointers lead nowhere.
use vstd::prelude::*;
use vstd::string::*;
use crate::block;
use crate::block::{is_zero, same32, zero_block, Block, BlockDev};
use crate::doc;
use crate::doc::{decode_doc, Child, ChildView, DocView, TractDoc};
use crate::error;
use crate::error::{corrupt_err, corrupt_num, Error, ErrorView, Result};
use crate::extent::expand_runs;
use crate::hamt;
use crate::key;
use crate::key::route_with_chunk;
use crate::mirror::Mirror;
use crate::seal;
use crate::swap;
use crate::text;
use crate::text::push_dec;
use crate::tract::{sealed_hp, Tract};
use crate::trie;
use crate::trie::Trace;

verus! {

/// A committed pointer whose target reads as all zero: a deleted leaf whose unlink never landed.
/// `route` is a key that descends to the pointer.
#[derive(Debug, Clone, PartialEq)]
pub struct StalePointer {
    pub route: [u8; 32],
    pub hash: [u8; 32],
    pub lba: u64,
}

/// A committed pointer whose target no longer holds the block it names, or whose furrows are gone.
/// Whatever it referenced is lost; repair prunes the pointer and reports it.
#[derive(Debug, Clone, PartialEq)]
pub struct DanglingPointer {
    pub route: [u8; 32],
    pub hash: [u8; 32],
    pub lba: u64,
    /// The leaf's own key where the leaf still decodes.
    pub key: Option<[u8; 32]>,
    pub reason: String,
}

/// The mathematical view of a stale pointer.
pub struct StaleView {
    pub route: Seq<u8>,
    pub hash: Seq<u8>,
    pub lba: u64,
}

/// The mathematical view of a dangling pointer.
pub struct DangleView {
    pub route: Seq<u8>,
    pub hash: Seq<u8>,
    pub lba: u64,
    pub key: Option<Seq<u8>>,
    pub reason: Seq<char>,
}

impl View for StalePointer {
    type V = StaleView;

    open spec fn view(&self) -> StaleView {
        StaleView { route: self.route@, hash: self.hash@, lba: self.lba }
    }
}

impl View for DanglingPointer {
    type V = DangleView;

    open spec fn view(&self) -> DangleView {
        DangleView {
            route: self.route@,
            hash: self.hash@,
            lba: self.lba,
            key: match self.key {
                Some(k) => Some(k@),
                None => None,
            },
            reason: self.reason@,
        }
    }
}

/// The view of some stale pointers.
pub open spec fn stale_view(v: Seq<StalePointer>) -> Seq<StaleView> {
    Seq::new(v.len(), |i: int| v[i]@)
}

/// The view of some dangling pointers.
pub open spec fn dangling_view(v: Seq<DanglingPointer>) -> Seq<DangleView> {
    Seq::new(v.len(), |i: int| v[i]@)
}

/// What a walk of the index comes to.
#[verifier::ext_equal]
pub struct Survey {
    pub live: Seq<(u64, Seq<u8>)>,
    pub stale: Seq<StaleView>,
    pub dangling: Seq<DangleView>,
}

/// Nothing found.
pub open spec fn nothing() -> Survey {
    Survey {
        live: Seq::<(u64, Seq<u8>)>::empty(),
        stale: Seq::<StaleView>::empty(),
        dangling: Seq::<DangleView>::empty(),
    }
}

impl Survey {
    pub open spec fn join(self, o: Survey) -> Survey {
        Survey {
            live: self.live + o.live,
            stale: self.stale + o.stale,
            dangling: self.dangling + o.dangling,
        }
    }
}

/// Live blocks only.
pub open spec fn alive(ms: Seq<(u64, Seq<u8>)>) -> Survey {
    Survey { live: ms, ..nothing() }
}

/// One dangling pointer.
pub open spec fn lost(
    route: Seq<u8>,
    hash: Seq<u8>,
    lba: u64,
    key: Option<Seq<u8>>,
    reason: Seq<char>,
) -> Survey {
    Survey { dangling: seq![DangleView { route, hash, lba, key, reason }], ..nothing() }
}

/// What checking the furrows of a leaf comes to: all sound, one lost, or one out of bounds.
pub enum Checked {
    Sound(Seq<(u64, Seq<u8>)>),
    Lost(int),
    Outside(u64),
}

/// Whether the block at `lba` is the `i`-th furrow of `key`.
pub open spec fn is_furrow(t: Seq<Seq<u8>>, key: Seq<u8>, lba: u64, i: int) -> bool {
    &&& seal::hp_of(t[lba as int]) is Some
    &&& doc::doc_of(t[lba as int]) matches Ok(DocView::Furrow { key: k, index, payload }) && k == key
        && index == i
}

/// The first `n` furrows of a leaf, checked.
pub open spec fn checked(t: Seq<Seq<u8>>, key: Seq<u8>, ps: Seq<u64>, n: nat) -> Checked
    decreases n,
{
    if n == 0 {
        Checked::Sound(Seq::<(u64, Seq<u8>)>::empty())
    } else {
        match checked(t, key, ps, (n - 1) as nat) {
            Checked::Sound(ms) => if ps[n - 1] >= t.len() {
                Checked::Outside(ps[n - 1])
            } else if is_furrow(t, key, ps[n - 1], n - 1) {
                Checked::Sound(ms.push((ps[n - 1], seal::hp_of(t[ps[n - 1] as int])->0)))
            } else {
                Checked::Lost(n - 1)
            },
            x => x,
        }
    }
}

/// The words for a lost furrow.
pub open spec fn lost_words(i: int, pos: u64) -> Seq<char> {
    "furrow "@ + text::dec(i as nat) + " @"@ + text::dec(pos as nat)
        + " lost (unsealed/foreign/mismatched owner)"@
}

/// A leaf with furrows, checked for repair.
pub open spec fn salvaged_leaf(
    t: Seq<Seq<u8>>,
    hash: Seq<u8>,
    lba: u64,
    route: Seq<u8>,
    leaf: DocView,
) -> core::result::Result<Survey, ErrorView> {
    let key = trie::leaf_key(leaf)->0;
    match trie::leaf_positions(leaf) {
        Err(ErrorView::Corrupt(m)) => Ok(lost(route, hash, lba, Some(key), m)),
        Err(e) => Err(e),
        Ok(ps) => match checked(t, key, ps, ps.len()) {
            Checked::Outside(p) => Err(ErrorView::Bounds(p)),
            Checked::Lost(i) => Ok(lost(route, hash, lba, Some(key), lost_words(i, ps[i]))),
            Checked::Sound(ms) => Ok(alive(seq![(lba, hash)] + ms)),
        },
    }
}

/// The error, or what repair makes of it.
pub open spec fn salvaged_error(
    e: ErrorView,
    hash: Seq<u8>,
    lba: u64,
    route: Seq<u8>,
) -> core::result::Result<Survey, ErrorView> {
    match e {
        ErrorView::Seal => Ok(
            lost(
                route,
                hash,
                lba,
                None,
                "target reused: sealed block does not match the pointer hash"@,
            ),
        ),
        ErrorView::Corrupt(m) => Ok(lost(route, hash, lba, None, m)),
        _ => Err(e),
    }
}

/// The walk from a committed pointer at depth `d`. A strict walk stops at damage; a repairing one
/// lists it and goes on.
pub open spec fn survey(
    t: Seq<Seq<u8>>,
    hash: Seq<u8>,
    lba: u64,
    route: Seq<u8>,
    d: int,
    repair: bool,
) -> core::result::Result<Survey, ErrorView>
    decreases 52 - d, 33int,
{
    match trie::doc_at(t, lba, hash) {
        Err(e) => if repair {
            salvaged_error(e, hash, lba, route)
        } else {
            Err(e)
        },
        Ok(None) => Ok(Survey { stale: seq![StaleView { route, hash, lba }], ..nothing() }),
        Ok(Some(DocView::Node(n))) => if d < 0 || d >= 52 {
            Err(trie::too_deep())
        } else {
            match survey_kids(t, n.kids, 32, route, d, repair) {
                Err(e) => Err(e),
                Ok(s) => Ok(alive(seq![(lba, hash)]).join(s)),
            }
        },
        Ok(Some(DocView::Lone { .. })) => Ok(alive(seq![(lba, hash)])),
        Ok(Some(DocView::Furrow { .. })) => if repair {
            Ok(lost(route, hash, lba, None, "furrow block in index position"@))
        } else {
            Ok(alive(seq![(lba, hash)]))
        },
        Ok(Some(leaf)) => if repair {
            salvaged_leaf(t, hash, lba, route, leaf)
        } else {
            match trie::furrow_marks(t, leaf) {
                Err(e) => Err(e),
                Ok(ms) => Ok(alive(seq![(lba, hash)] + ms)),
            }
        },
    }
}

/// The walk of the first `n` slots of a node.
pub open spec fn survey_kids(
    t: Seq<Seq<u8>>,
    kids: Seq<Option<ChildView>>,
    n: nat,
    route: Seq<u8>,
    d: int,
    repair: bool,
) -> core::result::Result<Survey, ErrorView>
    decreases 52 - d, n,
{
    if n == 0 || n > 32 || d < 0 || d >= 52 {
        Ok(nothing())
    } else {
        match survey_kids(t, kids, (n - 1) as nat, route, d, repair) {
            Err(e) => Err(e),
            Ok(s) => match kids[n - 1] {
                Some(ChildView::At { hash, lba }) => match survey(
                    t,
                    hash,
                    lba,
                    key::routed(route, d, (n - 1) as u8),
                    d + 1,
                    repair,
                ) {
                    Err(e) => Err(e),
                    Ok(o) => Ok(s.join(o)),
                },
                _ => Ok(s),
            },
        }
    }
}

/// The walk of a committed root.
pub open spec fn survey_root(
    t: Seq<Seq<u8>>,
    root: Option<ChildView>,
    repair: bool,
) -> core::result::Result<Survey, ErrorView> {
    match root {
        Some(ChildView::At { hash, lba }) => survey(
            t,
            hash,
            lba,
            block::zeros32(),
            0,
            repair,
        ),
        _ => Ok(nothing()),
    }
}

/// Whether a route leads a path to the pointer at which it ended.
pub open spec fn leads(route: Seq<u8>, hash: Seq<u8>, lba: u64, t: Trace, k: Seq<u8>) -> bool {
    &&& t.stop is Some
    &&& hash == (t.stop->0).0
    &&& lba == (t.stop->0).1
    &&& key::agree(route, k, (t.stop->0).2)
}

/// Whether a walk lists the pointer at which a path ended, by a route that leads there.
pub open spec fn listed(s: Survey, t: Trace, k: Seq<u8>) -> bool {
    ||| exists|e: StaleView| #[trigger] s.stale.contains(e) && leads(e.route, e.hash, e.lba, t, k)
    ||| exists|e: DangleView| #[trigger]
        s.dangling.contains(e) && leads(e.route, e.hash, e.lba, t, k)
}

/// Whether a walk has every block of a path among the live ones.
pub open spec fn has_all(t: Seq<Seq<u8>>, s: Survey, p: Trace) -> bool {
    forall|x: u64| #[trigger]
        p.reads.contains(x) ==> x < t.len() && (seal::hp_of(t[x as int]) matches Some(h)
            && s.live.contains((x, h)))
}

/// What a walk says of the path of a key.
pub open spec fn accounts(t: Seq<Seq<u8>>, s: Survey, p: Trace, k: Seq<u8>, repair: bool) -> bool {
    &&& p.whole && !listed(s, p, k) ==> has_all(t, s, p)
    &&& repair && !p.whole ==> listed(s, p, k) || p.found == Err::<Option<Seq<u8>>, ErrorView>(
        error::corrupt("assembled size mismatch"),
    )
}

/// Whether one walk's lists are part of another's.
pub open spec fn part_of(a: Survey, b: Survey) -> bool {
    &&& forall|x: (u64, Seq<u8>)| #[trigger] a.live.contains(x) ==> b.live.contains(x)
    &&& forall|x: StaleView| #[trigger] a.stale.contains(x) ==> b.stale.contains(x)
    &&& forall|x: DangleView| #[trigger] a.dangling.contains(x) ==> b.dangling.contains(x)
}

proof fn lemma_seq_parts<X>(a: Seq<X>, b: Seq<X>)
    ensures
        forall|x: X| #[trigger] a.contains(x) ==> (a + b).contains(x),
        forall|x: X| #[trigger] b.contains(x) ==> (a + b).contains(x),
{
    let c = a + b;
    assert forall|x: X| #[trigger] a.contains(x) implies c.contains(x) by {
        let i = choose|i: int| 0 <= i < a.len() && a[i] == x;
        assert(c[i] == x);
    }
    assert forall|x: X| #[trigger] b.contains(x) implies c.contains(x) by {
        let i = choose|i: int| 0 <= i < b.len() && b[i] == x;
        assert(c[a.len() + i] == x);
    }
}

pub proof fn lemma_join_parts(a: Survey, b: Survey)
    ensures
        part_of(a, a.join(b)),
        part_of(b, a.join(b)),
{
    lemma_seq_parts(a.live, b.live);
    lemma_seq_parts(a.stale, b.stale);
    lemma_seq_parts(a.dangling, b.dangling);
}

pub proof fn lemma_part_through(a: Survey, b: Survey, c: Survey)
    requires
        part_of(a, b),
        part_of(b, c),
    ensures
        part_of(a, c),
{
}

/// The walk of a node holds the walk of each of its slots.
pub proof fn lemma_kid_surveyed(
    t: Seq<Seq<u8>>,
    kids: Seq<Option<ChildView>>,
    n: nat,
    route: Seq<u8>,
    d: int,
    repair: bool,
    c: int,
)
    requires
        0 <= d < 52,
        0 <= c < n <= 32,
        survey_kids(t, kids, n, route, d, repair) is Ok,
        kids[c] matches Some(x) && x is At,
    ensures
        ({
            let x = kids[c]->0;
            survey(t, x->hash, x->lba, key::routed(route, d, c as u8), d + 1, repair) matches Ok(o)
                && part_of(o, survey_kids(t, kids, n, route, d, repair)->Ok_0)
        }),
    decreases n,
{
    let s = survey_kids(t, kids, n, route, d, repair)->Ok_0;
    let was = survey_kids(t, kids, (n - 1) as nat, route, d, repair)->Ok_0;
    if c == n - 1 {
        let x = kids[c]->0;
        let o = survey(t, x->hash, x->lba, key::routed(route, d, c as u8), d + 1, repair)->Ok_0;
        lemma_join_parts(was, o);
    } else {
        lemma_kid_surveyed(t, kids, (n - 1) as nat, route, d, repair, c);
        let x = kids[c]->0;
        let o = survey(t, x->hash, x->lba, key::routed(route, d, c as u8), d + 1, repair)->Ok_0;
        match kids[n - 1] {
            Some(ChildView::At { hash, lba }) => {
                let p = survey(
                    t,
                    hash,
                    lba,
                    key::routed(route, d, (n - 1) as u8),
                    d + 1,
                    repair,
                )->Ok_0;
                lemma_join_parts(was, p);
                lemma_part_through(o, was, was.join(p));
            },
            _ => {},
        }
    }
}

/// What a part of a walk accounts for, the walk does.
proof fn lemma_accounts_part(
    t: Seq<Seq<u8>>,
    a: Survey,
    b: Survey,
    p: Trace,
    k: Seq<u8>,
    repair: bool,
)
    requires
        accounts(t, a, p, k, repair),
        part_of(a, b),
    ensures
        accounts(t, b, p, k, repair),
        listed(a, p, k) ==> listed(b, p, k),
{
}

/// Furrows that check out are marked, and those of a readable leaf check out.
pub proof fn lemma_checked(t: Seq<Seq<u8>>, key: Seq<u8>, ps: Seq<u64>, n: nat)
    requires
        n <= ps.len(),
    ensures
        checked(t, key, ps, n) matches Checked::Lost(i) ==> 0 <= i < n && ps[i] < t.len()
            && !is_furrow(t, key, ps[i], i),
        checked(t, key, ps, n) matches Checked::Sound(ms) ==> (forall|i: int|
            0 <= i < n ==> (#[trigger] ps[i]) < t.len() && is_furrow(t, key, ps[i], i)
                && ms.contains((ps[i], seal::hp_of(t[ps[i] as int])->0))),
    decreases n,
{
    if n > 0 {
        lemma_checked(t, key, ps, (n - 1) as nat);
        if let Checked::Sound(now) = checked(t, key, ps, n) {
            let was = checked(t, key, ps, (n - 1) as nat)->Sound_0;
            assert forall|i: int| 0 <= i < n implies (#[trigger] ps[i]) < t.len() && is_furrow(
                t,
                key,
                ps[i],
                i,
            ) && now.contains((ps[i], seal::hp_of(t[ps[i] as int])->0)) by {
                let e = (ps[i], seal::hp_of(t[ps[i] as int])->0);
                if i < n - 1 {
                    assert(was.contains(e));
                    let x = choose|x: int| 0 <= x < was.len() && was[x] == e;
                    assert(now[x] == e);
                } else {
                    assert(now[now.len() - 1] == e);
                }
            }
        }
    }
}

/// Furrows that check out can be gathered.
proof fn lemma_checked_gathers(t: Seq<Seq<u8>>, key: Seq<u8>, ps: Seq<u64>, n: nat)
    requires
        n <= ps.len(),
        forall|i: int|
            0 <= i < ps.len() ==> (#[trigger] ps[i]) < t.len() && is_furrow(t, key, ps[i], i),
    ensures
        trie::gathered(t, key, ps, n) is Ok,
    decreases n,
{
    if n > 0 {
        lemma_checked_gathers(t, key, ps, (n - 1) as nat);
        assert(ps[n - 1] < t.len());
    }
}

/// The leaf at the end of a path, under repair.
proof fn lemma_salvage_accounts(
    t: Seq<Seq<u8>>,
    hash: Seq<u8>,
    lba: u64,
    route: Seq<u8>,
    leaf: DocView,
    k: Seq<u8>,
    d: int,
)
    requires
        trie::doc_at(t, lba, hash) == Ok::<Option<DocView>, ErrorView>(Some(leaf)),
        leaf is Extent || leaf is Direct,
        salvaged_leaf(t, hash, lba, route, leaf) is Ok,
        key::agree(route, k, d),
    ensures
        accounts(
            t,
            salvaged_leaf(t, hash, lba, route, leaf)->Ok_0,
            swap::tail(t, Some(ChildView::At { hash, lba }), k, d),
            k,
            true,
        ),
{
    let s = salvaged_leaf(t, hash, lba, route, leaf)->Ok_0;
    let p = swap::tail(t, Some(ChildView::At { hash, lba }), k, d);
    let key = trie::leaf_key(leaf)->0;
    match trie::leaf_positions(leaf) {
        Ok(ps) => {
            lemma_checked(t, key, ps, ps.len());
            match checked(t, key, ps, ps.len()) {
                Checked::Sound(ms) => {
                    lemma_checked_gathers(t, key, ps, ps.len());
                    assert forall|x: u64| #[trigger] p.reads.contains(x) implies x < t.len() && (
                    seal::hp_of(t[x as int]) matches Some(h) && s.live.contains((x, h))) by {
                        if x == lba {
                            assert(s.live[0] == (lba, hash));
                        } else {
                            let i = choose|i: int| 0 <= i < ps.len() && ps[i] == x;
                            assert(ps[i] == x);
                            let e = (x, seal::hp_of(t[x as int])->0);
                            let j = choose|j: int| 0 <= j < ms.len() && ms[j] == e;
                            assert(s.live[j + 1] == e);
                        }
                    }
                },
                Checked::Lost(i) => {
                    assert(s.dangling.contains(s.dangling[0]));
                },
                _ => {},
            }
        },
        Err(_) => {
            assert(s.dangling.contains(s.dangling[0]));
        },
    }
}

/// A walk accounts for the path of every key.
#[verifier::rlimit(40)]
pub proof fn lemma_survey_accounts(
    t: Seq<Seq<u8>>,
    hash: Seq<u8>,
    lba: u64,
    route: Seq<u8>,
    d: int,
    repair: bool,
    k: Seq<u8>,
)
    requires
        0 <= d <= 52,
        k.len() == 32,
        route.len() == 32,
        survey(t, hash, lba, route, d, repair) is Ok,
        key::agree(route, k, d),
    ensures
        accounts(
            t,
            survey(t, hash, lba, route, d, repair)->Ok_0,
            swap::tail(t, Some(ChildView::At { hash, lba }), k, d),
            k,
            repair,
        ),
    decreases 52 - d,
{
    let s = survey(t, hash, lba, route, d, repair)->Ok_0;
    let p = swap::tail(t, Some(ChildView::At { hash, lba }), k, d);
    match trie::doc_at(t, lba, hash) {
        Err(e) => {
            assert(s.dangling.contains(s.dangling[0]));
        },
        Ok(None) => {
            assert(s.stale.contains(s.stale[0]));
        },
        Ok(Some(DocView::Node(n))) => {
            let c = key::chunk_of(k, d) as int;
            key::lemma_chunk_bound(k, d);
            trie::lemma_doc_shape(t[lba as int]);
            assert(n.kids[c] matches Some(x) ==> x is At);
            let kids = survey_kids(t, n.kids, 32, route, d, repair)->Ok_0;
            let here = alive(seq![(lba, hash)]);
            lemma_join_parts(here, kids);
            assert(here.live[0] == (lba, hash));
            assert(here.live.contains((lba, hash)));
            assert(s.live.contains((lba, hash)));
            let sub = swap::tail(t, n.kids[c], k, d + 1);
            if let Some(x) = n.kids[c] {
                lemma_kid_surveyed(t, n.kids, 32, route, d, repair, c);
                lemma_last_chunk(k, d);
                key::lemma_routed(route, d, c as u8);
                let r2 = key::routed(route, d, c as u8);
                assert(key::agree(r2, k, d + 1)) by {
                    key::lemma_agree_through(r2, route, k, d);
                    trie::lemma_agree_step(r2, k, d);
                }
                lemma_survey_accounts(t, x->hash, x->lba, r2, d + 1, repair, k);
                let o = survey(t, x->hash, x->lba, r2, d + 1, repair)->Ok_0;
                lemma_part_through(o, kids, s);
                lemma_accounts_part(t, o, s, sub, k, repair);
            }
            if p.whole && !listed(s, p, k) {
                assert(!listed(s, sub, k));
                assert forall|x: u64| #[trigger] p.reads.contains(x) implies x < t.len() && (
                seal::hp_of(t[x as int]) matches Some(h) && s.live.contains((x, h))) by {
                    if x != lba {
                        assert(sub.reads.contains(x));
                    }
                }
            }
        },
        Ok(Some(DocView::Lone { .. })) => {
            assert(s.live[0] == (lba, hash));
            assert(Seq::<u64>::empty().to_set() =~= Set::<u64>::empty());
        },
        Ok(Some(DocView::Furrow { .. })) => {
            if repair {
                assert(s.dangling.contains(s.dangling[0]));
            }
        },
        Ok(Some(leaf)) => {
            if repair {
                lemma_salvage_accounts(t, hash, lba, route, leaf, k, d);
            } else {
                let ms = trie::furrow_marks(t, leaf)->Ok_0;
                let ps = trie::leaf_positions(leaf)->Ok_0;
                trie::lemma_marked(t, ps, ps.len());
                assert(s.live[0] == (lba, hash));
                assert forall|x: u64| #[trigger] p.reads.contains(x) && p.whole implies x
                    < t.len() && (seal::hp_of(t[x as int]) matches Some(h) && s.live.contains(
                    (x, h),
                )) by {
                    if x != lba {
                        trie::lemma_leaf_owns(t, leaf, x);
                        let i = choose|i: int| 0 <= i < ps.len() && ps[i] == x;
                        assert(ps[i] == x);
                        let e = (x, seal::hp_of(t[x as int])->0);
                        let j = choose|j: int| 0 <= j < ms.len() && ms[j] == e;
                        assert(s.live[j + 1] == e);
                    }
                }
            }
        },
    }
}

/// The last chunk of a key has one bit of it, its highest.
proof fn lemma_last_chunk(k: Seq<u8>, d: int)
    requires
        k.len() == 32,
        0 <= d < 52,
    ensures
        d == 51 ==> key::chunk_of(k, d) % 16 == 0,
{
    if d == 51 {
        key::lemma_last_chunk(k);
    }
}

// ---------------------------------------------------------------- the walk itself

/// The lists that a walk fills.
pub struct Lists {
    pub live: Vec<(u64, [u8; 32])>,
    pub stale: Vec<StalePointer>,
    pub dangling: Vec<DanglingPointer>,
}

impl View for Lists {
    type V = Survey;

    open spec fn view(&self) -> Survey {
        Survey {
            live: hamt::marks_view(self.live@),
            stale: stale_view(self.stale@),
            dangling: dangling_view(self.dangling@),
        }
    }
}

impl Lists {
    pub fn new() -> (l: Self)
        ensures
            l@ == nothing(),
    {
        let l = Lists { live: Vec::new(), stale: Vec::new(), dangling: Vec::new() };
        assert(l@ =~= nothing());
        l
    }

    fn mark(&mut self, lba: u64, hash: &[u8; 32])
        ensures
            final(self)@ == old(self)@.join(alive(seq![(lba, hash@)])),
    {
        let ghost was = self@;
        self.live.push((lba, *hash));
        assert(self@ =~= was.join(alive(seq![(lba, hash@)])));
    }

    fn mark_all(&mut self, found: Vec<(u64, [u8; 32])>)
        ensures
            final(self)@ == old(self)@.join(alive(hamt::marks_view(found@))),
    {
        let ghost was = self@;
        let ghost ms = hamt::marks_view(found@);
        let mut found = found;
        self.live.append(&mut found);
        assert(self@.live =~= was.live + ms);
        assert(self@ =~= was.join(alive(ms)));
    }

    fn lose(
        &mut self,
        route: [u8; 32],
        hash: &[u8; 32],
        lba: u64,
        key: Option<[u8; 32]>,
        reason: String,
    )
        ensures
            final(self)@ == old(self)@.join(
                lost(
                    route@,
                    hash@,
                    lba,
                    (match key {
                        Some(k) => Some(k@),
                        None => None,
                    }),
                    reason@,
                ),
            ),
    {
        let ghost was = self@;
        let ghost l = lost(
            route@,
            hash@,
            lba,
            (match key {
                Some(k) => Some(k@),
                None => None,
            }),
            reason@,
        );
        self.dangling.push(DanglingPointer { route, hash: *hash, lba, key, reason });
        assert(self@.dangling =~= was.dangling + l.dangling);
        assert(self@ =~= was.join(l));
    }
}

/// What a step of the walk reports: the truth joined to what was there, or the failure of an
/// unreliable device.
pub open spec fn walked(
    r: Result<()>,
    was: Survey,
    now: Survey,
    truth: core::result::Result<Survey, ErrorView>,
    sure: bool,
) -> bool {
    match r {
        Ok(()) => truth matches Ok(s) && now == was.join(s),
        Err(e) => truth == Err::<Survey, ErrorView>(e@) || (block::device_error(e@) && !sure),
    }
}

proof fn lemma_join_join(a: Survey, b: Survey, c: Survey)
    ensures
        a.join(b).join(c) == a.join(b.join(c)),
        a.join(nothing()) == a,
{
    assert(a.join(b).join(c) =~= a.join(b.join(c)));
    assert(a.join(nothing()) =~= a);
}

/// A failed prefix of slots fails the node.
proof fn lemma_kids_fail(
    t: Seq<Seq<u8>>,
    kids: Seq<Option<ChildView>>,
    n: nat,
    m: nat,
    route: Seq<u8>,
    d: int,
    repair: bool,
)
    requires
        0 <= d < 52,
        n <= m <= 32,
        survey_kids(t, kids, n, route, d, repair) is Err,
    ensures
        survey_kids(t, kids, m, route, d, repair) == survey_kids(t, kids, n, route, d, repair),
    decreases m,
{
    if n < m {
        lemma_kids_fail(t, kids, n, (m - 1) as nat, route, d, repair);
    }
}

/// The document that a block holds, if it is the one a pointer names.
fn doc_in(buf: &Block, lba: u64, expected: &[u8; 32], Ghost(t): Ghost<Seq<Seq<u8>>>) -> (r: Result<
    Option<TractDoc>,
>)
    requires
        lba < t.len(),
        buf@ == t[lba as int],
    ensures
        hamt::doc_seen(r) == trie::doc_at(t, lba, expected@),
{
    if is_zero(buf) {
        return Ok(None);
    }
    match sealed_hp(buf) {
        None => Err(corrupt_num("unsealed block at tract lba ", lba, "")),
        Some(h) => {
            if !same32(&h, expected) {
                return Err(Error::Seal);
            }
            match decode_doc(buf) {
                Ok(d) => Ok(Some(d)),
                Err(e) => Err(e),
            }
        },
    }
}

/// A stopped check stays stopped.
proof fn lemma_check_stops(t: Seq<Seq<u8>>, key: Seq<u8>, ps: Seq<u64>, n: nat, m: nat)
    requires
        n <= m,
        !(checked(t, key, ps, n) is Sound),
    ensures
        checked(t, key, ps, m) == checked(t, key, ps, n),
    decreases m,
{
    if n < m {
        lemma_check_stops(t, key, ps, n, (m - 1) as nat);
    }
}

/// Checks a value's furrows: seal, owner and index. All sound: leaf and furrows are live. Any loss:
/// the whole leaf is dangling, for a partial value cannot be served.
fn repair_check_furrows<A: BlockDev, B: BlockDev>(
    mirror: &mut Mirror<A, B>,
    tract: &Tract,
    leaf_lba: u64,
    leaf_hash: &[u8; 32],
    route: [u8; 32],
    key: &[u8; 32],
    positions: &Vec<u64>,
    lists: &mut Lists,
) -> (r: Result<()>)
    requires
        tract.base + tract.len <= u64::MAX,
    ensures
        hamt::untouched(final(mirror), old(mirror)),
        walked(
            r,
            old(lists)@,
            final(lists)@,
            match checked(
                tract.on(old(mirror).disk()),
                key@,
                positions@,
                positions@.len(),
            ) {
                Checked::Outside(p) => Err(ErrorView::Bounds(p)),
                Checked::Lost(i) => Ok(
                    lost(
                        route@,
                        leaf_hash@,
                        leaf_lba,
                        Some(key@),
                        lost_words(i, positions@[i]),
                    ),
                ),
                Checked::Sound(ms) => Ok(alive(seq![(leaf_lba, leaf_hash@)] + ms)),
            },
            hamt::sure_of(old(mirror), tract),
        ),
{
    let ghost t = tract.on(mirror.disk());
    let mut found: Vec<(u64, [u8; 32])> = Vec::new();
    let mut buf = zero_block();
    let mut i: usize = 0;
    assert(hamt::marks_view(found@) =~= Seq::<(u64, Seq<u8>)>::empty());
    while i < positions.len()
        invariant
            i <= positions@.len(),
            tract.base + tract.len <= u64::MAX,
            hamt::untouched(mirror, old(mirror)),
            t == tract.on(old(mirror).disk()),
            checked(t, key@, positions@, i as nat) == Checked::Sound(hamt::marks_view(found@)),
            *lists == *old(lists),
        decreases positions@.len() - i,
    {
        let pos: u64 = positions[i];
        match tract.read(mirror, pos, &mut buf) {
            Err(e) => {
                proof {
                    if pos >= t.len() {
                        assert(checked(t, key@, positions@, (i + 1) as nat) == Checked::Outside(
                            pos,
                        ));
                        lemma_check_stops(t, key@, positions@, (i + 1) as nat, positions@.len());
                    }
                }
                return Err(e);
            },
            Ok(()) => {},
        }
        let mut good: Option<[u8; 32]> = None;
        if let Some(h) = sealed_hp(&buf) {
            if let Ok(TractDoc::Furrow { key: k, index, .. }) = decode_doc(&buf) {
                if same32(&k, key) && index == i as u64 {
                    good = Some(h);
                }
            }
        }
        assert(good is Some == is_furrow(t, key@, pos, i as int));
        match good {
            Some(h) => {
                let ghost sofar = hamt::marks_view(found@);
                found.push((pos, h));
                assert(hamt::marks_view(found@) =~= sofar.push((pos, h@)));
            },
            None => {
                proof {
                    assert(checked(t, key@, positions@, (i + 1) as nat) == Checked::Lost(i as int));
                    lemma_check_stops(t, key@, positions@, (i + 1) as nat, positions@.len());
                }
                let mut reason = "furrow ".to_owned();
                push_dec(&mut reason, i as u64);
                reason.append(" @");
                push_dec(&mut reason, pos);
                reason.append(" lost (unsealed/foreign/mismatched owner)");
                lists.lose(route, leaf_hash, leaf_lba, Some(*key), reason);
                return Ok(());
            },
        }
        i = i + 1;
    }
    let ghost was = lists@;
    let ghost ms = hamt::marks_view(found@);
    lists.mark(leaf_lba, leaf_hash);
    lists.mark_all(found);
    proof {
        let one = seq![(leaf_lba, leaf_hash@)];
        lemma_join_join(was, alive(one), alive(ms));
        assert(alive(one).join(alive(ms)) =~= alive(one + ms));
    }
    Ok(())
}

/// Walks the index from a committed pointer.
#[verifier::rlimit(60)]
pub(crate) fn walk_child<A: BlockDev, B: BlockDev>(
    mirror: &mut Mirror<A, B>,
    tract: &Tract,
    lba: u64,
    hash: &[u8; 32],
    route: [u8; 32],
    depth: u8,
    repair: bool,
    lists: &mut Lists,
) -> (r: Result<()>)
    requires
        tract.base + tract.len <= u64::MAX,
        depth <= 52,
    ensures
        hamt::untouched(final(mirror), old(mirror)),
        walked(
            r,
            old(lists)@,
            final(lists)@,
            survey(
                tract.on(old(mirror).disk()),
                hash@,
                lba,
                route@,
                depth as int,
                repair,
            ),
            hamt::sure_of(old(mirror), tract),
        ),
    decreases 52 - depth,
{
    let ghost t = tract.on(mirror.disk());
    let ghost was = lists@;
    let mut buf = zero_block();
    match tract.read(mirror, lba, &mut buf) {
        Err(e) => return Err(e),
        Ok(()) => {},
    }
    let doc = match doc_in(&buf, lba, hash, Ghost(t)) {
        Ok(None) => {
            lists.stale.push(StalePointer { route, hash: *hash, lba });
            proof {
                let s = Survey {
                    stale: seq![StaleView { route: route@, hash: hash@, lba }],
                    ..nothing()
                };
                assert(lists@.stale =~= was.stale + s.stale);
                assert(lists@ =~= was.join(s));
            }
            return Ok(());
        },
        Ok(Some(d)) => d,
        Err(e) => {
            if repair {
                match e {
                    Error::Seal => {
                        lists.lose(
                            route,
                            hash,
                            lba,
                            None,
                            "target reused: sealed block does not match the pointer hash".to_owned(),
                        );
                        return Ok(());
                    },
                    Error::Corrupt(reason) => {
                        lists.lose(route, hash, lba, None, reason);
                        return Ok(());
                    },
                    _ => {},
                }
            }
            return Err(e);
        },
    };
    match doc {
        TractDoc::Node(node) => {
            if depth >= 52 {
                return Err(corrupt_err("index deeper than its keys"));
            }
            proof {
                trie::lemma_doc_shape(t[lba as int]);
            }
            lists.mark(lba, hash);
            let ghost kids = node@.kids;
            let ghost start = lists@;
            let mut c: usize = 0;
            proof {
                lemma_join_join(start, nothing(), nothing());
            }
            while c < 32
                invariant
                    c <= 32,
                    depth < 52,
                    tract.base + tract.len <= u64::MAX,
                    hamt::untouched(mirror, old(mirror)),
                    t == tract.on(old(mirror).disk()),
                    node.children@.len() == 32,
                    kids == node@.kids,
                    doc::all_at(kids),
                    trie::doc_at(t, lba, hash@) == Ok::<Option<DocView>, ErrorView>(
                        Some(DocView::Node(node@)),
                    ),
                    survey_kids(t, kids, c as nat, route@, depth as int, repair) matches Ok(s)
                        && lists@ == start.join(s),
                    start == was.join(alive(seq![(lba, hash@)])),
                    was == old(lists)@,
                decreases 32 - c,
            {
                let ghost before = lists@;
                let ghost sofar = survey_kids(
                    t,
                    kids,
                    c as nat,
                    route@,
                    depth as int,
                    repair,
                )->Ok_0;
                assert(doc::slot_view(node.children@[c as int]) == kids[c as int]);
                if let Some(Child::Committed { hash: h, lba: l }) = node.children[c] {
                    let child_route = route_with_chunk(route, depth, c as u8);
                    match walk_child(
                        mirror,
                        tract,
                        l,
                        &h,
                        child_route,
                        depth + 1,
                        repair,
                        lists,
                    ) {
                        Err(e) => {
                            proof {
                                if survey_kids(
                                    t,
                                    kids,
                                    (c + 1) as nat,
                                    route@,
                                    depth as int,
                                    repair,
                                ) is Err {
                                    lemma_kids_fail(
                                        t,
                                        kids,
                                        (c + 1) as nat,
                                        32,
                                        route@,
                                        depth as int,
                                        repair,
                                    );
                                }
                            }
                            return Err(e);
                        },
                        Ok(()) => {},
                    }
                    proof {
                        let o = survey(
                            t,
                            h@,
                            l,
                            child_route@,
                            depth + 1,
                            repair,
                        )->Ok_0;
                        lemma_join_join(start, sofar, o);
                    }
                } else {
                    assert(!(kids[c as int] matches Some(ChildView::At { .. })));
                }
                c = c + 1;
            }
            proof {
                let s = survey_kids(t, kids, 32, route@, depth as int, repair)->Ok_0;
                lemma_join_join(was, alive(seq![(lba, hash@)]), s);
            }
            Ok(())
        },
        TractDoc::Lone { .. } => {
            lists.mark(lba, hash);
            Ok(())
        },
        TractDoc::Furrow { .. } => {
            if repair {
                lists.lose(route, hash, lba, None, "furrow block in index position".to_owned());
            } else {
                lists.mark(lba, hash);
            }
            Ok(())
        },
        TractDoc::Direct { key, furrows, .. } => {
            if repair {
                return repair_check_furrows(
                    mirror,
                    tract,
                    lba,
                    hash,
                    route,
                    &key,
                    &furrows,
                    lists,
                );
            }
            mark_leaf(mirror, tract, lba, hash, &furrows, lists)
        },
        TractDoc::Extent { key, size, runs } => {
            let positions = match expand_runs(&runs, size) {
                Ok(p) => p,
                Err(e) => {
                    if repair {
                        match e {
                            Error::Corrupt(reason) => {
                                lists.lose(route, hash, lba, Some(key), reason);
                                return Ok(());
                            },
                            _ => {},
                        }
                    }
                    return Err(e);
                },
            };
            if repair {
                return repair_check_furrows(
                    mirror,
                    tract,
                    lba,
                    hash,
                    route,
                    &key,
                    &positions,
                    lists,
                );
            }
            mark_leaf(mirror, tract, lba, hash, &positions, lists)
        },
    }
}

/// Lists a leaf and its sealed furrows as live.
fn mark_leaf<A: BlockDev, B: BlockDev>(
    mirror: &mut Mirror<A, B>,
    tract: &Tract,
    lba: u64,
    hash: &[u8; 32],
    positions: &Vec<u64>,
    lists: &mut Lists,
) -> (r: Result<()>)
    requires
        tract.base + tract.len <= u64::MAX,
    ensures
        hamt::untouched(final(mirror), old(mirror)),
        walked(
            r,
            old(lists)@,
            final(lists)@,
            match trie::marked(
                tract.on(old(mirror).disk()),
                positions@,
                positions@.len(),
            ) {
                Err(e) => Err(e),
                Ok(ms) => Ok(alive(seq![(lba, hash@)] + ms)),
            },
            hamt::sure_of(old(mirror), tract),
        ),
{
    let ghost was = lists@;
    let found = match hamt::mark_sealed(mirror, tract, positions) {
        Ok(f) => f,
        Err(e) => return Err(e),
    };
    let ghost ms = hamt::marks_view(found@);
    lists.mark(lba, hash);
    lists.mark_all(found);
    proof {
        let one = seq![(lba, hash@)];
        lemma_join_join(was, alive(one), alive(ms));
        assert(alive(one).join(alive(ms)) =~= alive(one + ms));
    }
    Ok(())
}

/// Reads a tract block from a single device.
fn read_from<D: BlockDev>(dev: &mut D, tract: &Tract, lba: u64, buf: &mut Block) -> (r: Result<()>)
    requires
        tract.base + tract.len <= u64::MAX,
    ensures
        (*final(dev)).disk() == (*old(dev)).disk(),
        (*final(dev)).reliable() == (*old(dev)).reliable(),
        lba >= tract.len ==> (r matches Err(e) && e@ == ErrorView::Bounds(lba)),
        r is Ok ==> lba < tract.len && tract.base + lba < (*old(dev)).disk().len() && final(buf)@
            == tract.on((*old(dev)).disk())[lba as int],
        r matches Err(e) ==> block::device_error(e@),
        (*old(dev)).reliable() && lba < tract.len && tract.base + lba < (*old(dev)).disk().len()
            ==> r is Ok,
{
    if lba >= tract.len {
        return Err(Error::Bounds(lba));
    }
    dev.read(tract.base + lba, buf)
}

/// Whether reads of a tract on a single device cannot fail.
pub open spec fn sure_on(disk: Seq<Seq<u8>>, reliable: bool, tract: &Tract) -> bool {
    reliable && tract.base + tract.len <= disk.len()
}

/// Lists a leaf and its sealed furrows, on a single device, as live.
fn mark_leaf_on<D: BlockDev>(
    dev: &mut D,
    tract: &Tract,
    lba: u64,
    hash: &[u8; 32],
    positions: &Vec<u64>,
    lists: &mut Lists,
) -> (r: Result<()>)
    requires
        tract.base + tract.len <= u64::MAX,
    ensures
        (*final(dev)).disk() == (*old(dev)).disk(),
        (*final(dev)).reliable() == (*old(dev)).reliable(),
        walked(
            r,
            old(lists)@,
            final(lists)@,
            match trie::marked(
                tract.on((*old(dev)).disk()),
                positions@,
                positions@.len(),
            ) {
                Err(e) => Err(e),
                Ok(ms) => Ok(alive(seq![(lba, hash@)] + ms)),
            },
            sure_on((*old(dev)).disk(), (*old(dev)).reliable(), tract),
        ),
{
    let ghost was = lists@;
    let ghost t = tract.on((*dev).disk());
    let mut found: Vec<(u64, [u8; 32])> = Vec::new();
    let mut buf = zero_block();
    let mut i: usize = 0;
    assert(hamt::marks_view(found@) =~= Seq::<(u64, Seq<u8>)>::empty());
    while i < positions.len()
        invariant
            i <= positions@.len(),
            tract.base + tract.len <= u64::MAX,
            (*dev).disk() == (*old(dev)).disk(),
            (*dev).reliable() == (*old(dev)).reliable(),
            t == tract.on((*old(dev)).disk()),
            trie::marked(t, positions@, i as nat) == Ok::<Seq<(u64, Seq<u8>)>, ErrorView>(
                hamt::marks_view(found@),
            ),
        decreases positions@.len() - i,
    {
        let pos: u64 = positions[i];
        match read_from(dev, tract, pos, &mut buf) {
            Err(e) => {
                proof {
                    if pos >= t.len() {
                        assert(trie::marked(t, positions@, (i + 1) as nat) is Err);
                        trie::lemma_marked_fails(t, positions@, (i + 1) as nat, positions@.len());
                    }
                }
                return Err(e);
            },
            Ok(()) => {},
        }
        let ghost sofar = hamt::marks_view(found@);
        if let Some(h) = sealed_hp(&buf) {
            found.push((pos, h));
            assert(hamt::marks_view(found@) =~= sofar.push((pos, h@)));
        }
        i = i + 1;
    }
    let ghost ms = hamt::marks_view(found@);
    lists.mark(lba, hash);
    lists.mark_all(found);
    proof {
        let one = seq![(lba, hash@)];
        lemma_join_join(was, alive(one), alive(ms));
        assert(alive(one).join(alive(ms)) =~= alive(one + ms));
    }
    Ok(())
}

/// Walks the index from a committed pointer, strictly, on a single device.
#[verifier::rlimit(60)]
pub(crate) fn walk_device<D: BlockDev>(
    dev: &mut D,
    tract: &Tract,
    lba: u64,
    hash: &[u8; 32],
    route: [u8; 32],
    depth: u8,
    lists: &mut Lists,
) -> (r: Result<()>)
    requires
        tract.base + tract.len <= u64::MAX,
        depth <= 52,
    ensures
        (*final(dev)).disk() == (*old(dev)).disk(),
        (*final(dev)).reliable() == (*old(dev)).reliable(),
        walked(
            r,
            old(lists)@,
            final(lists)@,
            survey(
                tract.on((*old(dev)).disk()),
                hash@,
                lba,
                route@,
                depth as int,
                false,
            ),
            sure_on((*old(dev)).disk(), (*old(dev)).reliable(), tract),
        ),
    decreases 52 - depth,
{
    let ghost t = tract.on((*dev).disk());
    let ghost was = lists@;
    let mut buf = zero_block();
    match read_from(dev, tract, lba, &mut buf) {
        Err(e) => return Err(e),
        Ok(()) => {},
    }
    let doc = match doc_in(&buf, lba, hash, Ghost(t)) {
        Ok(None) => {
            lists.stale.push(StalePointer { route, hash: *hash, lba });
            proof {
                let s = Survey {
                    stale: seq![StaleView { route: route@, hash: hash@, lba }],
                    ..nothing()
                };
                assert(lists@.stale =~= was.stale + s.stale);
                assert(lists@ =~= was.join(s));
            }
            return Ok(());
        },
        Ok(Some(d)) => d,
        Err(e) => return Err(e),
    };
    match doc {
        TractDoc::Node(node) => {
            if depth >= 52 {
                return Err(corrupt_err("index deeper than its keys"));
            }
            proof {
                trie::lemma_doc_shape(t[lba as int]);
            }
            lists.mark(lba, hash);
            let ghost kids = node@.kids;
            let ghost start = lists@;
            let mut c: usize = 0;
            proof {
                lemma_join_join(start, nothing(), nothing());
            }
            while c < 32
                invariant
                    c <= 32,
                    depth < 52,
                    tract.base + tract.len <= u64::MAX,
                    (*dev).disk() == (*old(dev)).disk(),
                    (*dev).reliable() == (*old(dev)).reliable(),
                    t == tract.on((*old(dev)).disk()),
                    node.children@.len() == 32,
                    kids == node@.kids,
                    doc::all_at(kids),
                    trie::doc_at(t, lba, hash@) == Ok::<Option<DocView>, ErrorView>(
                        Some(DocView::Node(node@)),
                    ),
                    survey_kids(t, kids, c as nat, route@, depth as int, false) matches Ok(s)
                        && lists@ == start.join(s),
                    start == was.join(alive(seq![(lba, hash@)])),
                    was == old(lists)@,
                decreases 32 - c,
            {
                let ghost sofar = survey_kids(
                    t,
                    kids,
                    c as nat,
                    route@,
                    depth as int,
                    false,
                )->Ok_0;
                assert(doc::slot_view(node.children@[c as int]) == kids[c as int]);
                if let Some(Child::Committed { hash: h, lba: l }) = node.children[c] {
                    let child_route = route_with_chunk(route, depth, c as u8);
                    match walk_device(dev, tract, l, &h, child_route, depth + 1, lists) {
                        Err(e) => {
                            proof {
                                if survey_kids(
                                    t,
                                    kids,
                                    (c + 1) as nat,
                                    route@,
                                    depth as int,
                                    false,
                                ) is Err {
                                    lemma_kids_fail(
                                        t,
                                        kids,
                                        (c + 1) as nat,
                                        32,
                                        route@,
                                        depth as int,
                                        false,
                                    );
                                }
                            }
                            return Err(e);
                        },
                        Ok(()) => {},
                    }
                    proof {
                        let o = survey(t, h@, l, child_route@, depth + 1, false)->Ok_0;
                        lemma_join_join(start, sofar, o);
                    }
                } else {
                    assert(!(kids[c as int] matches Some(ChildView::At { .. })));
                }
                c = c + 1;
            }
            proof {
                let s = survey_kids(t, kids, 32, route@, depth as int, false)->Ok_0;
                lemma_join_join(was, alive(seq![(lba, hash@)]), s);
            }
            Ok(())
        },
        TractDoc::Lone { .. } => {
            lists.mark(lba, hash);
            Ok(())
        },
        TractDoc::Furrow { .. } => {
            lists.mark(lba, hash);
            Ok(())
        },
        TractDoc::Direct { furrows, .. } => mark_leaf_on(dev, tract, lba, hash, &furrows, lists),
        TractDoc::Extent { size, runs, .. } => {
            let positions = match expand_runs(&runs, size) {
                Ok(p) => p,
                Err(e) => return Err(e),
            };
            mark_leaf_on(dev, tract, lba, hash, &positions, lists)
        },
    }
}

/// Furrows that are all sound are marked alike.
proof fn lemma_checked_marks(t: Seq<Seq<u8>>, key: Seq<u8>, ps: Seq<u64>, n: nat)
    requires
        n <= ps.len(),
    ensures
        checked(t, key, ps, n) matches Checked::Sound(ms) ==> trie::marked(t, ps, n) == Ok::<
            Seq<(u64, Seq<u8>)>,
            ErrorView,
        >(ms),
    decreases n,
{
    if n > 0 {
        lemma_checked_marks(t, key, ps, (n - 1) as nat);
    }
}

proof fn lemma_walks_agree(
    t: Seq<Seq<u8>>,
    hash: Seq<u8>,
    lba: u64,
    route: Seq<u8>,
    d: int,
)
    ensures
        survey(t, hash, lba, route, d, true) matches Ok(s) ==> s.stale.len() == 0
            && s.dangling.len() == 0 ==> survey(t, hash, lba, route, d, false) == Ok::<
            Survey,
            ErrorView,
        >(s),
    decreases 52 - d, 33int,
{
    match trie::doc_at(t, lba, hash) {
        Ok(Some(DocView::Node(n))) => {
            if 0 <= d < 52 {
                lemma_kid_walks_agree(t, n.kids, 32, route, d);
            }
        },
        Ok(Some(leaf)) => {
            if let Ok(ps) = trie::leaf_positions(leaf) {
                lemma_checked_marks(t, trie::leaf_key(leaf)->0, ps, ps.len());
            }
        },
        _ => {},
    }
}

proof fn lemma_kid_walks_agree(
    t: Seq<Seq<u8>>,
    kids: Seq<Option<ChildView>>,
    n: nat,
    route: Seq<u8>,
    d: int,
)
    ensures
        survey_kids(t, kids, n, route, d, true) matches Ok(s) ==> s.stale.len() == 0
            && s.dangling.len() == 0 ==> survey_kids(t, kids, n, route, d, false) == Ok::<
            Survey,
            ErrorView,
        >(s),
    decreases 52 - d, n,
{
    if 0 < n <= 32 && 0 <= d < 52 {
        lemma_kid_walks_agree(t, kids, (n - 1) as nat, route, d);
        if let Some(ChildView::At { hash, lba }) = kids[n - 1] {
            lemma_walks_agree(t, hash, lba, key::routed(route, d, (n - 1) as u8), d + 1);
        }
    }
}

/// Law: the two walks agree where nothing is damaged. If a repairing walk lists no pointer as stale or
/// dangling, a strict walk goes through and finds the same blocks live, in the same order.
pub proof fn law_walks_agree_without_damage(t: Seq<Seq<u8>>, root: Option<ChildView>)
    requires
        survey_root(t, root, true) matches Ok(s) && s.stale.len() == 0 && s.dangling.len() == 0,
    ensures
        survey_root(t, root, false) == survey_root(t, root, true),
{
    if let Some(ChildView::At { hash, lba }) = root {
        lemma_walks_agree(t, hash, lba, block::zeros32(), 0);
    }
}

/// Whether what a walk lists is so. A live block is sealed with the hash listed; a stale pointer leads to
/// a block of zeros; and a dangling one leads to no node or leaf that its hash names, or else to a leaf,
/// whose key is given, that lacks one of its furrows or cannot tell where they are.
pub open spec fn truthful(t: Seq<Seq<u8>>, s: Survey) -> bool {
    &&& forall|x: (u64, Seq<u8>)| #[trigger]
        s.live.contains(x) ==> x.0 < t.len() && seal::hp_of(t[x.0 as int]) == Some(x.1)
    &&& forall|x: StaleView| #[trigger]
        s.stale.contains(x) ==> x.lba < t.len() && t[x.lba as int] == block::zeros()
    &&& forall|x: DangleView| #[trigger] s.dangling.contains(x) ==> truly_lost(t, x)
}

/// Whether a dangling pointer is one.
pub open spec fn truly_lost(t: Seq<Seq<u8>>, x: DangleView) -> bool {
    &&& x.lba < t.len()
    &&& t[x.lba as int] != block::zeros()
    &&& match x.key {
        None => seal::hp_of(t[x.lba as int]) != Some(x.hash) || (match doc::doc_of(
            t[x.lba as int],
        ) {
            Ok(d) => d is Furrow,
            Err(_) => true,
        }),
        Some(k) => {
            &&& seal::hp_of(t[x.lba as int]) == Some(x.hash)
            &&& doc::doc_of(t[x.lba as int]) matches Ok(d) && trie::leaf_key(d) == Some(k) && (
            match trie::leaf_positions(d) {
                Ok(ps) => exists|i: int|
                    0 <= i < ps.len() && !is_furrow(t, k, #[trigger] ps[i], i),
                Err(_) => true,
            })
        },
    }
}

proof fn lemma_truthful_join(t: Seq<Seq<u8>>, a: Survey, b: Survey)
    requires
        truthful(t, a),
        truthful(t, b),
    ensures
        truthful(t, a.join(b)),
{
    lemma_in_either(a.live, b.live);
    lemma_in_either(a.stale, b.stale);
    lemma_in_either(a.dangling, b.dangling);
}

proof fn lemma_in_either<X>(a: Seq<X>, b: Seq<X>)
    ensures
        forall|x: X| #[trigger] (a + b).contains(x) ==> a.contains(x) || b.contains(x),
{
    assert forall|x: X| #[trigger] (a + b).contains(x) implies a.contains(x) || b.contains(x) by {
        let i = choose|i: int| 0 <= i < (a + b).len() && (a + b)[i] == x;
        if i < a.len() {
            assert(a[i] == x);
        } else {
            assert(b[i - a.len()] == x);
        }
    }
}

proof fn lemma_truthful_checked(t: Seq<Seq<u8>>, key: Seq<u8>, ps: Seq<u64>, n: nat)
    requires
        n <= ps.len(),
    ensures
        checked(t, key, ps, n) matches Checked::Sound(ms) ==> truthful(t, alive(ms)),
        checked(t, key, ps, n) matches Checked::Lost(i) ==> 0 <= i < n && !is_furrow(
            t,
            key,
            ps[i],
            i,
        ),
    decreases n,
{
    if n > 0 {
        lemma_truthful_checked(t, key, ps, (n - 1) as nat);
        if let Checked::Sound(ms) = checked(t, key, ps, (n - 1) as nat) {
            if let Checked::Sound(all) = checked(t, key, ps, n) {
                assert(all == ms + seq![all.last()]);
                lemma_in_either(ms, seq![all.last()]);
                assert(forall|x: (u64, Seq<u8>)| #[trigger]
                    ms.contains(x) ==> alive(ms).live.contains(x));
            }
        }
    }
}

proof fn lemma_truthful_marked(t: Seq<Seq<u8>>, ps: Seq<u64>, n: nat)
    ensures
        trie::marked(t, ps, n) matches Ok(ms) ==> truthful(t, alive(ms)),
    decreases n,
{
    if n > 0 {
        lemma_truthful_marked(t, ps, (n - 1) as nat);
        if let Ok(all) = trie::marked(t, ps, n) {
            let ms = trie::marked(t, ps, (n - 1) as nat)->Ok_0;
            if all != ms {
                assert(all =~= ms + seq![all.last()]);
                lemma_in_either(ms, seq![all.last()]);
            }
            assert(forall|x: (u64, Seq<u8>)| #[trigger]
                ms.contains(x) ==> alive(ms).live.contains(x));
        }
    }
}

proof fn lemma_truthful(
    t: Seq<Seq<u8>>,
    hash: Seq<u8>,
    lba: u64,
    route: Seq<u8>,
    d: int,
    repair: bool,
)
    ensures
        survey(t, hash, lba, route, d, repair) matches Ok(s) ==> truthful(t, s) && (!repair
            ==> s.dangling.len() == 0),
    decreases 52 - d, 33int,
{
    if let Ok(s) = survey(t, hash, lba, route, d, repair) {
        let here = seq![(lba, hash)];
        match trie::doc_at(t, lba, hash) {
            Ok(Some(DocView::Node(n))) => {
                lemma_truthful_kids(t, n.kids, 32, route, d, repair);
                lemma_truthful_join(
                    t,
                    alive(here),
                    survey_kids(t, n.kids, 32, route, d, repair)->Ok_0,
                );
            },
            Ok(Some(DocView::Lone { .. })) => {},
            Ok(Some(DocView::Furrow { .. })) => {
                if repair {
                    assert(s.dangling[0].key is None);
                }
            },
            Ok(Some(leaf)) => {
                if repair {
                    let key = trie::leaf_key(leaf)->0;
                    if let Ok(ps) = trie::leaf_positions(leaf) {
                        lemma_truthful_checked(t, key, ps, ps.len());
                        match checked(t, key, ps, ps.len()) {
                            Checked::Sound(ms) => {
                                lemma_truthful_join(t, alive(here), alive(ms));
                                assert(s =~= alive(here).join(alive(ms)));
                            },
                            Checked::Lost(i) => {
                                assert(!is_furrow(t, key, ps[i], i));
                            },
                            _ => {},
                        }
                    }
                } else {
                    let ps = trie::leaf_positions(leaf)->Ok_0;
                    lemma_truthful_marked(t, ps, ps.len());
                    let ms = trie::marked(t, ps, ps.len())->Ok_0;
                    lemma_truthful_join(t, alive(here), alive(ms));
                    assert(s =~= alive(here).join(alive(ms)));
                }
            },
            _ => {},
        }
    }
}

proof fn lemma_truthful_kids(
    t: Seq<Seq<u8>>,
    kids: Seq<Option<ChildView>>,
    n: nat,
    route: Seq<u8>,
    d: int,
    repair: bool,
)
    ensures
        survey_kids(t, kids, n, route, d, repair) matches Ok(s) ==> truthful(t, s) && (!repair
            ==> s.dangling.len() == 0),
    decreases 52 - d, n,
{
    if n > 0 && n <= 32 && 0 <= d < 52 {
        lemma_truthful_kids(t, kids, (n - 1) as nat, route, d, repair);
        if let Some(ChildView::At { hash, lba }) = kids[n - 1] {
            let below = key::routed(route, d, (n - 1) as u8);
            lemma_truthful(t, hash, lba, below, d + 1, repair);
            if let Ok(_) = survey_kids(t, kids, n, route, d, repair) {
                lemma_truthful_join(
                    t,
                    survey_kids(t, kids, (n - 1) as nat, route, d, repair)->Ok_0,
                    survey(t, hash, lba, below, d + 1, repair)->Ok_0,
                );
            }
        }
    }
}

/// Law: a walk lists nothing that is not so: what it calls live is sealed with the hash it gives, what it
/// calls stale is zeroed, and what it calls dangling is lost. Only a repairing walk lists dangling pointers.
pub proof fn law_survey_lists_only_what_is_so(
    t: Seq<Seq<u8>>,
    root: Option<ChildView>,
    repair: bool,
    s: Survey,
)
    requires
        survey_root(t, root, repair) == Ok::<Survey, ErrorView>(s),
    ensures
        truthful(t, s),
        !repair ==> s.dangling.len() == 0,
{
    if let Some(ChildView::At { hash, lba }) = root {
        lemma_truthful(t, hash, lba, block::zeros32(), 0, repair);
    }
}

}
