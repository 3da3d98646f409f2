//! Loading a committed index: what it leads to, and the index without the pointers that lead to
//! nothing.
use vstd::prelude::*;
use crate::block;
use crate::block::BlockDev;
use crate::cut;
use crate::doc::{ChildView, DocView, NodeView};
use crate::edit;
use crate::error;
use crate::error::{corrupt_err, ErrorView, Result};
use crate::hamt;
use crate::hamt::{Hamt, Index};
use crate::keep;
use crate::key;
use crate::live::LiveSet;
use crate::mirror::Mirror;
use crate::seal;
use crate::survey;
use crate::survey::{Checked, DangleView, DanglingPointer, StalePointer, StaleView, Survey};
use crate::swap;
use crate::tract::Tract;
use crate::trie;
use crate::trie::Trace;

verus! {

/// Whether what a pointer leads to is no longer what it led to.
pub open spec fn is_lost(t: Seq<Seq<u8>>, hash: Seq<u8>, lba: u64) -> bool {
    match trie::doc_at(t, lba, hash) {
        Err(_) => true,
        Ok(None) => false,
        Ok(Some(DocView::Node(_))) => false,
        Ok(Some(leaf)) => trie::leaf_value(t, leaf) is Err,
    }
}

/// Whether the lists of a walk are true: live blocks have the hashes they are listed with, stale
/// pointers lead to zeroed blocks, and dangling ones to what is lost.
pub open spec fn is_true(t: Seq<Seq<u8>>, s: Survey) -> bool {
    &&& forall|i: int|
        0 <= i < s.live.len() ==> (#[trigger] s.live[i]).0 < t.len() && seal::hp_of(
            t[s.live[i].0 as int],
        ) == Some(s.live[i].1)
    &&& forall|i: int|
        0 <= i < s.stale.len() ==> (#[trigger] s.stale[i]).route.len() == 32 && trie::doc_at(
            t,
            s.stale[i].lba,
            s.stale[i].hash,
        ) == Ok::<Option<DocView>, ErrorView>(None)
    &&& forall|i: int|
        0 <= i < s.dangling.len() ==> (#[trigger] s.dangling[i]).route.len() == 32 && is_lost(
            t,
            s.dangling[i].hash,
            s.dangling[i].lba,
        )
}

proof fn lemma_true_join(t: Seq<Seq<u8>>, a: Survey, b: Survey)
    requires
        is_true(t, a),
        is_true(t, b),
    ensures
        is_true(t, a.join(b)),
{
    let s = a.join(b);
    assert forall|i: int| 0 <= i < s.live.len() implies (#[trigger] s.live[i]).0 < t.len()
        && seal::hp_of(t[s.live[i].0 as int]) == Some(s.live[i].1) by {
        if i < a.live.len() {
            assert(s.live[i] == a.live[i]);
        } else {
            assert(s.live[i] == b.live[i - a.live.len()]);
        }
    }
    assert forall|i: int| 0 <= i < s.stale.len() implies (#[trigger] s.stale[i]).route.len() == 32
        && trie::doc_at(t, s.stale[i].lba, s.stale[i].hash) == Ok::<Option<DocView>, ErrorView>(
        None,
    ) by {
        if i < a.stale.len() {
            assert(s.stale[i] == a.stale[i]);
        } else {
            assert(s.stale[i] == b.stale[i - a.stale.len()]);
        }
    }
    assert forall|i: int| 0 <= i < s.dangling.len() implies (#[trigger] s.dangling[i]).route.len()
        == 32 && is_lost(t, s.dangling[i].hash, s.dangling[i].lba) by {
        if i < a.dangling.len() {
            assert(s.dangling[i] == a.dangling[i]);
        } else {
            assert(s.dangling[i] == b.dangling[i - a.dangling.len()]);
        }
    }
}

/// Furrows that check out are sealed blocks; where one is lost, so is the value.
proof fn lemma_checked_true(t: Seq<Seq<u8>>, key: Seq<u8>, ps: Seq<u64>, n: nat)
    requires
        n <= ps.len(),
    ensures
        survey::checked(t, key, ps, n) matches Checked::Sound(ms) ==> forall|i: int|
            0 <= i < ms.len() ==> (#[trigger] ms[i]).0 < t.len() && seal::hp_of(
                t[ms[i].0 as int],
            ) == Some(ms[i].1),
        !(survey::checked(t, key, ps, n) is Sound) ==> trie::gathered(t, key, ps, n) is Err,
    decreases n,
{
    if n > 0 {
        lemma_checked_true(t, key, ps, (n - 1) as nat);
        if let Checked::Sound(now) = survey::checked(t, key, ps, n) {
            let was = survey::checked(t, key, ps, (n - 1) as nat)->Sound_0;
            assert forall|i: int| 0 <= i < now.len() implies (#[trigger] now[i]).0 < t.len()
                && seal::hp_of(t[now[i].0 as int]) == Some(now[i].1) by {
                if i < was.len() {
                    assert(now[i] == was[i]);
                }
            }
        }
    }
}

/// The lists of a walk are true.
pub proof fn lemma_survey_true(
    t: Seq<Seq<u8>>,
    hash: Seq<u8>,
    lba: u64,
    route: Seq<u8>,
    d: int,
    repair: bool,
)
    requires
        0 <= d <= 52,
        route.len() == 32,
        survey::survey(t, hash, lba, route, d, repair) is Ok,
    ensures
        is_true(t, survey::survey(t, hash, lba, route, d, repair)->Ok_0),
    decreases 52 - d, 33int,
{
    let s = survey::survey(t, hash, lba, route, d, repair)->Ok_0;
    match trie::doc_at(t, lba, hash) {
        Err(e) => {},
        Ok(None) => {},
        Ok(Some(DocView::Node(n))) => {
            lemma_kids_true(t, n.kids, 32, route, d, repair);
            let here = survey::alive(seq![(lba, hash)]);
            assert(is_true(t, here));
            lemma_true_join(
                t,
                here,
                survey::survey_kids(t, n.kids, 32, route, d, repair)->Ok_0,
            );
        },
        Ok(Some(DocView::Lone { .. })) => {},
        Ok(Some(DocView::Furrow { .. })) => {},
        Ok(Some(leaf)) => {
            let key = trie::leaf_key(leaf)->0;
            match trie::leaf_positions(leaf) {
                Ok(ps) => {
                    let ms = if repair {
                        lemma_checked_true(t, key, ps, ps.len());
                        survey::checked(t, key, ps, ps.len())->Sound_0
                    } else {
                        trie::lemma_marked(t, ps, ps.len());
                        trie::marked(t, ps, ps.len())->Ok_0
                    };
                    if !repair || survey::checked(t, key, ps, ps.len()) is Sound {
                        let all = seq![(lba, hash)] + ms;
                        assert(s.live == all);
                        assert forall|i: int| 0 <= i < all.len() implies (#[trigger] all[i]).0
                            < t.len() && seal::hp_of(t[all[i].0 as int]) == Some(all[i].1) by {
                            if i > 0 {
                                assert(all[i] == ms[i - 1]);
                            }
                        }
                    } else {
                        assert(trie::leaf_value(t, leaf) is Err);
                    }
                },
                Err(_) => {},
            }
        },
    }
}

proof fn lemma_kids_true(
    t: Seq<Seq<u8>>,
    kids: Seq<Option<ChildView>>,
    n: nat,
    route: Seq<u8>,
    d: int,
    repair: bool,
)
    requires
        0 <= d <= 52,
        n <= 32,
        route.len() == 32,
        survey::survey_kids(t, kids, n, route, d, repair) is Ok,
    ensures
        is_true(t, survey::survey_kids(t, kids, n, route, d, repair)->Ok_0),
    decreases 52 - d, n,
{
    if n > 0 && d < 52 {
        lemma_kids_true(t, kids, (n - 1) as nat, route, d, repair);
        if let Some(ChildView::At { hash, lba }) = kids[n - 1] {
            let r2 = key::routed(route, d, (n - 1) as u8);
            key::lemma_routed(route, d, (n - 1) as u8);
            lemma_survey_true(t, hash, lba, r2, d + 1, repair);
            lemma_true_join(
                t,
                survey::survey_kids(t, kids, (n - 1) as nat, route, d, repair)->Ok_0,
                survey::survey(t, hash, lba, r2, d + 1, repair)->Ok_0,
            );
        }
    }
}

/// A sound path that ends at a pointer to what is lost finds nothing.
proof fn lemma_stop_lost(
    tract: Seq<Seq<u8>>,
    arena: Seq<NodeView>,
    slot: Option<ChildView>,
    k: Seq<u8>,
    d: int,
)
    ensures
        ({
            let t = trie::walk(tract, arena, slot, k, d);
            t.sound() && t.stop is Some && is_lost(tract, (t.stop->0).0, (t.stop->0).1) ==> t.found
                == Ok::<Option<Seq<u8>>, ErrorView>(None) && t.leaf == Ok::<
                Option<(u64, Seq<u8>)>,
                ErrorView,
            >(None)
        }),
    decreases 52 - d,
{
    match slot {
        Some(ChildView::Dirty(j)) => {
            if 0 <= d < 52 && 0 <= j < arena.len() {
                lemma_stop_lost(
                    tract,
                    arena,
                    arena[j].kids[key::chunk_of(k, d) as int],
                    k,
                    d + 1,
                );
            }
        },
        Some(ChildView::At { hash, lba }) => {
            if let Ok(Some(DocView::Node(n))) = trie::doc_at(tract, lba, hash) {
                if 0 <= d < 52 {
                    lemma_stop_lost(tract, arena, n.kids[key::chunk_of(k, d) as int], k, d + 1);
                }
            }
        },
        None => {},
    }
}

/// A pointer to take out: the route to it, its hash and where it leads.
pub struct Snip {
    pub route: Seq<u8>,
    pub hash: Seq<u8>,
    pub lba: u64,
}

/// The stale pointers of a walk, as pointers to take out.
pub open spec fn stale_snips(v: Seq<StaleView>) -> Seq<Snip> {
    Seq::new(v.len(), |i: int| Snip { route: v[i].route, hash: v[i].hash, lba: v[i].lba })
}

/// The dangling pointers of a walk, as pointers to take out.
pub open spec fn dangling_snips(v: Seq<DangleView>) -> Seq<Snip> {
    Seq::new(v.len(), |i: int| Snip { route: v[i].route, hash: v[i].hash, lba: v[i].lba })
}

/// Whether a path ended at one of the first `n` pointers.
pub open spec fn hit(a: Trace, cuts: Seq<Snip>, n: int) -> bool {
    exists|j: int| 0 <= j < n && cut::ended_at(a, (#[trigger] cuts[j]).hash, cuts[j].lba)
}

/// Whether the route of one of the first `n` pointers leads the path to it.
pub open spec fn led(a: Trace, k: Seq<u8>, cuts: Seq<Snip>, n: int) -> bool {
    exists|j: int|
        0 <= j < n && survey::leads((#[trigger] cuts[j]).route, cuts[j].hash, cuts[j].lba, a, k)
}

/// What taking out the first `n` pointers does to a path.
pub open spec fn trim_path(
    a: Trace,
    u: Trace,
    k: Seq<u8>,
    cuts: Seq<Snip>,
    n: int,
    gone: Set<u64>,
) -> bool {
    &&& swap::passed_by(a, u, gone) || (cut::cut_off(u) && hit(a, cuts, n))
    &&& led(a, k, cuts, n) ==> cut::cut_off(u)
}

/// What taking out the first `n` pointers does to an index.
pub open spec fn trimmed(t: Seq<Seq<u8>>, c: Index, ix: Index, cuts: Seq<Snip>, n: int) -> bool {
    &&& keep::placed(t, ix)
    &&& forall|k: Seq<u8>|
        k.len() == 32 ==> trim_path(
            c.path(t, k),
            #[trigger] ix.path(t, k),
            k,
            cuts,
            n,
            edit::places(ix.removed),
        )
}

/// Whether the pointers to take out lead to no node.
pub open spec fn cuttable(t: Seq<Seq<u8>>, cuts: Seq<Snip>) -> bool {
    forall|i: int|
        0 <= i < cuts.len() ==> (#[trigger] cuts[i]).route.len() == 32 && !(trie::doc_at(
            t,
            cuts[i].lba,
            cuts[i].hash,
        ) matches Ok(Some(DocView::Node(_))))
}

/// Whether every pointer that a walk lists can be taken out: the nodes stand where they belong, and
/// the route of each pointer leads to it, or to something that can be read.
pub open spec fn trimmable(t: Seq<Seq<u8>>, c: Index, s: Survey) -> bool {
    &&& keep::placed(t, c)
    &&& forall|i: int|
        0 <= i < snips_of(s).len() ==> {
            let a = c.path(t, (#[trigger] snips_of(s)[i]).route);
            a.whole || cut::ended_at(a, snips_of(s)[i].hash, snips_of(s)[i].lba)
        }
}

/// In a sound index every pointer can be taken out.
proof fn lemma_sound_trims(t: Seq<Seq<u8>>, c: Index, s: Survey)
    requires
        keep::sound(t, c),
        is_true(t, s),
    ensures
        trimmable(t, c, s),
{
    assert forall|k: Seq<u8>| k.len() == 32 implies (#[trigger] c.path(t, k)).placed by {
        assert(c.path(t, k).sound());
    }
    assert forall|i: int| 0 <= i < snips_of(s).len() implies c.path(
        t,
        (#[trigger] snips_of(s)[i]).route,
    ).whole by {
        let k = snips_of(s)[i].route;
        if i < s.stale.len() {
            assert(s.stale[i].route.len() == 32);
        } else {
            assert(s.dangling[i - s.stale.len()].route.len() == 32);
        }
        assert(c.path(t, k).sound());
    }
}

/// One pointer more.
proof fn lemma_trim_step(
    t: Seq<Seq<u8>>,
    c: Index,
    ix0: Index,
    ix1: Index,
    cuts: Seq<Snip>,
    n: int,
)
    requires
        0 <= n < cuts.len(),
        cuttable(t, cuts),
        trimmed(t, c, ix0, cuts, n),
        hamt::extended(ix0.removed, ix1.removed),
        cut::prunes(
            t,
            ix0,
            ix1,
            cuts[n].route,
            cuts[n].hash,
            cuts[n].lba,
            edit::places(hamt::newer(ix0.removed, ix1.removed)),
        ),
    ensures
        trimmed(t, c, ix1, cuts, n + 1),
{
    let x = cuts[n];
    let more = hamt::newer(ix0.removed, ix1.removed);
    let gone0 = edit::places(ix0.removed);
    let gone1 = edit::places(ix1.removed);
    assert forall|p: u64| #[trigger] gone1.contains(p) implies gone0.contains(p) || edit::places(
        more,
    ).contains(p) by {
        let i = choose|i: int| 0 <= i < ix1.removed.len() && (#[trigger] ix1.removed[i]).0 == p;
        if i < ix0.removed.len() {
            assert(ix0.removed[i] == ix1.removed.take(ix0.removed.len() as int)[i]);
            assert(ix0.removed[i].0 == p);
        } else {
            assert(more[i - ix0.removed.len()].0 == p);
        }
    }
    assert forall|k: Seq<u8>| k.len() == 32 implies trim_path(
        c.path(t, k),
        #[trigger] ix1.path(t, k),
        k,
        cuts,
        n + 1,
        gone1,
    ) by {
        let a = c.path(t, k);
        let b = ix0.path(t, k);
        let u = ix1.path(t, k);
        assert(trim_path(a, b, k, cuts, n, gone0));
        assert(cut::pruned(b, u, k, x.route, x.hash, x.lba, edit::places(more)));
        assert(b.placed);
        if hit(a, cuts, n) {
            let j = choose|j: int|
                0 <= j < n && cut::ended_at(a, (#[trigger] cuts[j]).hash, cuts[j].lba);
            assert(hit(a, cuts, n + 1)) by {
                assert(cut::ended_at(a, cuts[j].hash, cuts[j].lba));
            }
        }
        if cut::ended_at(a, x.hash, x.lba) {
            assert(hit(a, cuts, n + 1)) by {
                assert(cut::ended_at(a, cuts[n].hash, cuts[n].lba));
            }
        }
        if cut::cut_off(b) {
            assert(swap::passed_by(b, u, edit::places(more)));
            assert(u.reads =~= Set::<u64>::empty());
            assert(cut::cut_off(u));
            if swap::passed_by(a, b, gone0) {
                assert(swap::passed_by(a, u, gone1));
            }
        } else {
            assert(swap::passed_by(a, b, gone0));
            assert(!led(a, k, cuts, n));
            if swap::passed_by(b, u, edit::places(more)) {
                assert(swap::passed_by(a, u, gone1));
            }
            if led(a, k, cuts, n + 1) {
                let j = choose|j: int|
                    0 <= j < n + 1 && survey::leads(
                        (#[trigger] cuts[j]).route,
                        cuts[j].hash,
                        cuts[j].lba,
                        a,
                        k,
                    );
                if j < n {
                    assert(led(a, k, cuts, n));
                }
                assert(j == n);
                trie::lemma_agree_swap(x.route, k, (a.stop->0).2);
                assert(cut::cut_off(u));
            }
        }
    }
}

/// What a loaded index comes to.
pub struct Loaded {
    pub hamt: Hamt,
    pub live: LiveSet,
    pub stale: Vec<StalePointer>,
    pub dangling: Vec<DanglingPointer>,
}

/// The pointers that a walk would have taken out.
pub open spec fn snips_of(s: Survey) -> Seq<Snip> {
    stale_snips(s.stale) + dangling_snips(s.dangling)
}

/// Whether a path is as it should be, or ended at a value that is shorter or longer than it says.
pub open spec fn fits_size(p: Trace) -> bool {
    p.found != Err::<Option<Seq<u8>>, ErrorView>(error::corrupt("assembled size mismatch"))
}

/// What loading a committed index gives, over the walk `s` of it.
pub open spec fn loaded(
    t: Seq<Seq<u8>>,
    c: Index,
    s: Survey,
    ix: Index,
    live: Map<u64, Seq<u8>>,
) -> bool {
    &&& ix.wf()
    &&& live == keep::filled(Map::<u64, Seq<u8>>::empty(), s.live)
    &&& keep::sound(t, c) ==> {
        &&& keep::sound(t, ix)
        &&& keep::same_answers(t, c, t, ix)
        &&& keep::covered(t, ix, live)
        &&& forall|k: Seq<u8>, p: u64|
            k.len() == 32 && (#[trigger] ix.path(t, k).reads.contains(p)) ==> live.contains_key(p)
        &&& forall|k: Seq<u8>, p: u64|
            k.len() == 32 && (#[trigger] c.path(t, k).reads.contains(p)) ==> p < t.len() && (
            live.contains_key(p) || is_snipped(s, p))
    }
}

/// What is left of a damaged index whose nodes stand where they belong: every key whose path was
/// sound finds what it found, and where no value is of another size than it says, every path is
/// sound again.
pub open spec fn salvaged(
    t: Seq<Seq<u8>>,
    c: Index,
    ix: Index,
    live: Map<u64, Seq<u8>>,
) -> bool {
    keep::placed(t, c) ==> {
        &&& forall|k: Seq<u8>|
            k.len() == 32 && c.path(t, k).sound() ==> (#[trigger] ix.path(t, k)).found == c.path(
                t,
                k,
            ).found
        &&& (forall|k: Seq<u8>| k.len() == 32 ==> fits_size(#[trigger] c.path(t, k)))
            ==> keep::sound(t, ix) && keep::covered(t, ix, live) && (forall|k: Seq<u8>, p: u64|
            k.len() == 32 && (#[trigger] ix.path(t, k).reads.contains(p)) ==> live.contains_key(p))
    }
}

/// A filled map names no position but those of its entries.
proof fn lemma_filled_from(xs: Seq<(u64, Seq<u8>)>, p: u64)
    requires
        keep::filled(Map::<u64, Seq<u8>>::empty(), xs).contains_key(p),
    ensures
        exists|m: int| 0 <= m < xs.len() && (#[trigger] xs[m]).0 == p,
    decreases xs.len(),
{
    if xs.len() > 0 {
        if xs.last().0 == p {
            assert(xs[xs.len() - 1].0 == p);
        } else {
            lemma_filled_from(xs.drop_last(), p);
            let m = choose|m: int|
                0 <= m < xs.drop_last().len() && (#[trigger] xs.drop_last()[m]).0 == p;
            assert(xs[m].0 == p);
        }
    }
}

/// Whether a pointer that a walk takes out leads to a position.
pub open spec fn is_snipped(s: Survey, p: u64) -> bool {
    exists|j: int| 0 <= j < snips_of(s).len() && (#[trigger] snips_of(s)[j]).lba == p
}

/// A filled map says of a position what all its entries of it say.
proof fn lemma_filled_true(t: Seq<Seq<u8>>, xs: Seq<(u64, Seq<u8>)>, x: (u64, Seq<u8>))
    requires
        xs.contains(x),
        forall|i: int|
            0 <= i < xs.len() ==> seal::hp_of(t[(#[trigger] xs[i]).0 as int]) == Some(xs[i].1),
    ensures
        keep::filled(Map::<u64, Seq<u8>>::empty(), xs).contains_pair(x.0, x.1),
{
    let none = Seq::<(u64, Seq<u8>)>::empty();
    keep::lemma_filled_more(Map::<u64, Seq<u8>>::empty(), none, xs, x.0);
    assert(none + xs =~= xs);
    let i = choose|i: int| 0 <= i < xs.len() && xs[i] == x;
    assert(xs[i].0 == x.0);
    assert(edit::places(xs).contains(x.0));
    assert forall|i: int| 0 <= i < xs.len() && (#[trigger] xs[i]).0 == x.0 implies xs[i].1
        == x.1 by {}
    assert(keep::filled(Map::<u64, Seq<u8>>::empty(), none + xs).contains_pair(x.0, x.1));
}

/// A sound committed index, loaded, answers what it answered; the live set knows what it reads.
proof fn lemma_loaded(
    t: Seq<Seq<u8>>,
    hash: Seq<u8>,
    lba: u64,
    repair: bool,
    s: Survey,
    ix: Index,
    live: Map<u64, Seq<u8>>,
)
    requires
        survey::survey_root(t, hamt::root_slot(hash, lba), repair) == Ok::<Survey, ErrorView>(s),
        ix.wf(),
        ix.added.len() == 0,
        keep::placed(t, hamt::committed_index(hash, lba)) ==> trimmed(
            t,
            hamt::committed_index(hash, lba),
            ix,
            snips_of(s),
            snips_of(s).len() as int,
        ),
        live == keep::filled(Map::<u64, Seq<u8>>::empty(), s.live),
    ensures
        loaded(t, hamt::committed_index(hash, lba), s, ix, live),
        repair ==> salvaged(t, hamt::committed_index(hash, lba), ix, live),
{
    let c = hamt::committed_index(hash, lba);
    let cuts = snips_of(s);
    let n = cuts.len() as int;
    if hash != block::zeros32() {
        lemma_survey_true(t, hash, lba, block::zeros32(), 0, repair);
    } else {
        assert(c.root is None);
    }
    assert(is_true(t, s));
    if keep::sound(t, c) {
        assert(keep::placed(t, c)) by {
            assert forall|k: Seq<u8>| k.len() == 32 implies (#[trigger] c.path(t, k)).placed by {
                assert(c.path(t, k).sound());
            }
        }
    }
    if keep::placed(t, c) {
        assert forall|k: Seq<u8>| k.len() == 32 implies {
            let a = c.path(t, k);
            let u = #[trigger] ix.path(t, k);
            &&& a.sound() ==> u.sound() && u.found == a.found
            &&& repair && fits_size(a) ==> u.sound()
            &&& u.sound() && (a.sound() || repair) ==> forall|p: u64| #[trigger]
                u.reads.contains(p) ==> p < t.len() && (seal::hp_of(t[p as int]) matches Some(h)
                    && s.live.contains((p, h))) && !edit::places(ix.removed).contains(p)
            &&& a.sound() ==> forall|p: u64| #[trigger]
                a.reads.contains(p) ==> p < t.len() && (live.contains_key(p) || is_snipped(s, p))
        } by {
            let a = c.path(t, k);
            let u = ix.path(t, k);
            assert(a.placed);
            assert(trim_path(a, u, k, cuts, n, edit::places(ix.removed)));
            if hash == block::zeros32() {
                assert(a == trie::absent(Set::<u64>::empty(), true, None));
            } else {
                assert(key::agree(block::zeros32(), k, 0));
                survey::lemma_survey_accounts(t, hash, lba, block::zeros32(), 0, repair, k);
                assert(a == swap::tail(t, Some(ChildView::At { hash, lba }), k, 0));
                lemma_listed_led(s, a, k);
                cut::lemma_stop_zero(t, c.arena, c.root, k, 0);
                lemma_stop_lost(t, c.arena, c.root, k, 0);
                if hit(a, cuts, n) && a.sound() {
                    lemma_hit_nothing(t, s, a);
                }
                if a.sound() {
                    trie::lemma_sound_reads(t, c.arena, c.root, k, 0);
                    lemma_reads_told(t, hash, lba, block::zeros32(), 0, repair, k);
                    assert forall|p: u64| #[trigger] a.reads.contains(p) implies p < t.len() && (
                    live.contains_key(p) || is_snipped(s, p)) by {
                        if !is_snipped(s, p) {
                            lemma_filled_true(t, s.live, (p, seal::hp_of(t[p as int])->0));
                        }
                    }
                }
            }
        }
        assert forall|k: Seq<u8>, p: u64|
            k.len() == 32 && (c.path(t, k).sound() || (repair && fits_size(c.path(t, k)))) && (
            #[trigger] ix.path(t, k).reads.contains(p)) implies p < t.len() && seal::hp_of(
            t[p as int],
        ) is Some && live.contains_key(p) && Some(live[p]) == seal::hp_of(t[p as int])
            && !edit::places(ix.removed).contains(p) by {
            assert(ix.path(t, k).sound());
            let h = seal::hp_of(t[p as int])->0;
            lemma_filled_true(t, s.live, (p, h));
        }
        if keep::sound(t, c) {
            assert forall|k: Seq<u8>| k.len() == 32 implies (#[trigger] ix.path(t, k)).sound()
                && ix.path(t, k).found == c.path(t, k).found by {
                assert(c.path(t, k).sound());
            }
            assert forall|k: Seq<u8>, p: u64|
                k.len() == 32 && (#[trigger] ix.path(t, k).reads.contains(p)) implies live.contains_key(
                p,
            ) by {
                assert(c.path(t, k).sound());
            }
            assert forall|k: Seq<u8>, p: u64|
                k.len() == 32 && (#[trigger] c.path(t, k).reads.contains(p)) implies p < t.len() && (
            live.contains_key(p) || is_snipped(s, p)) by {
                assert(c.path(t, k).sound());
                assert(ix.path(t, k) == ix.path(t, k));
            }
        }
        if keep::sound(t, c) || (repair && (forall|k: Seq<u8>|
            k.len() == 32 ==> fits_size(#[trigger] c.path(t, k)))) {
            assert(keep::covered(t, ix, live)) by {
                let now = keep::applied(live, ix.added, ix.removed);
                let none = Seq::<(u64, Seq<u8>)>::empty();
                assert forall|k: Seq<u8>, p: u64|
                    k.len() == 32 && (#[trigger] ix.path(t, k).reads.contains(p)) implies p
                    < t.len() && seal::hp_of(t[p as int]) is Some && now.contains_key(p) && Some(
                    now[p],
                ) == seal::hp_of(t[p as int]) by {
                    assert(keep::sound(t, c) ==> c.path(t, k).sound());
                    assert(fits_size(c.path(t, k)) || c.path(t, k).sound());
                    keep::lemma_thinned_entry(live, none, ix.removed, p);
                    assert(none + ix.removed =~= ix.removed);
                    assert(ix.added =~= none);
                    assert(keep::thinned(live, none) == live);
                    assert(now == keep::thinned(live, ix.removed));
                }
            }
        }
    }
}

/// What a walk lists, the pointers to take out hold.
proof fn lemma_listed_led(s: Survey, a: Trace, k: Seq<u8>)
    ensures
        survey::listed(s, a, k) ==> led(a, k, snips_of(s), snips_of(s).len() as int),
{
    let cuts = snips_of(s);
    if survey::listed(s, a, k) {
        if exists|e: StaleView| #[trigger]
            s.stale.contains(e) && survey::leads(e.route, e.hash, e.lba, a, k) {
            let e = choose|e: StaleView| #[trigger]
                s.stale.contains(e) && survey::leads(e.route, e.hash, e.lba, a, k);
            let i = choose|i: int| 0 <= i < s.stale.len() && s.stale[i] == e;
            assert(cuts[i] == (Snip { route: e.route, hash: e.hash, lba: e.lba }));
        } else {
            let e = choose|e: DangleView| #[trigger]
                s.dangling.contains(e) && survey::leads(e.route, e.hash, e.lba, a, k);
            let i = choose|i: int| 0 <= i < s.dangling.len() && s.dangling[i] == e;
            assert(cuts[s.stale.len() + i] == (Snip { route: e.route, hash: e.hash, lba: e.lba }));
        }
    }
}

/// A sound path that ended at a pointer to take out finds nothing.
proof fn lemma_hit_nothing(t: Seq<Seq<u8>>, s: Survey, a: Trace)
    requires
        is_true(t, s),
        hit(a, snips_of(s), snips_of(s).len() as int),
        a.stop is Some && trie::doc_at(t, (a.stop->0).1, (a.stop->0).0) == Ok::<
            Option<DocView>,
            ErrorView,
        >(None) ==> a.found == Ok::<Option<Seq<u8>>, ErrorView>(None),
        a.stop is Some && is_lost(t, (a.stop->0).0, (a.stop->0).1) ==> a.found == Ok::<
            Option<Seq<u8>>,
            ErrorView,
        >(None),
    ensures
        a.found == Ok::<Option<Seq<u8>>, ErrorView>(None),
{
    let cuts = snips_of(s);
    let j = choose|j: int|
        0 <= j < cuts.len() && cut::ended_at(a, (#[trigger] cuts[j]).hash, cuts[j].lba);
    if j < s.stale.len() {
        assert(cuts[j].lba == s.stale[j].lba && cuts[j].hash == s.stale[j].hash);
    } else {
        let i = j - s.stale.len();
        assert(cuts[j].lba == s.dangling[i].lba && cuts[j].hash == s.dangling[i].hash);
    }
}

/// Whether every block that a path reads is live to a walk, or one that a pointer leads to which the
/// walk takes out.
pub open spec fn told(t: Seq<Seq<u8>>, s: Survey, p: Trace) -> bool {
    forall|x: u64| #[trigger]
        p.reads.contains(x) ==> (x < t.len() && (seal::hp_of(t[x as int]) matches Some(h)
            && s.live.contains((x, h)))) || is_snipped(s, x)
}

proof fn lemma_told_part(t: Seq<Seq<u8>>, a: Survey, b: Survey, p: Trace)
    requires
        told(t, a, p),
        survey::part_of(a, b),
    ensures
        told(t, b, p),
{
    assert forall|x: u64| #[trigger] p.reads.contains(x) implies (x < t.len() && (seal::hp_of(
        t[x as int],
    ) matches Some(h) && b.live.contains((x, h)))) || is_snipped(b, x) by {
        if is_snipped(a, x) {
            let j = choose|j: int|
                0 <= j < snips_of(a).len() && (#[trigger] snips_of(a)[j]).lba == x;
            if j < a.stale.len() {
                assert(a.stale.contains(a.stale[j]));
                lemma_stale_snipped(b, a.stale[j]);
            } else {
                let e = a.dangling[j - a.stale.len()];
                assert(a.dangling.contains(e));
                lemma_dangling_snipped(b, e);
            }
        }
    }
}

proof fn lemma_stale_snipped(s: Survey, e: StaleView)
    requires
        s.stale.contains(e),
    ensures
        is_snipped(s, e.lba),
{
    let i = choose|i: int| 0 <= i < s.stale.len() && s.stale[i] == e;
    assert(snips_of(s)[i].lba == e.lba);
}

proof fn lemma_dangling_snipped(s: Survey, e: DangleView)
    requires
        s.dangling.contains(e),
    ensures
        is_snipped(s, e.lba),
{
    let i = choose|i: int| 0 <= i < s.dangling.len() && s.dangling[i] == e;
    assert(snips_of(s)[s.stale.len() + i].lba == e.lba);
}

/// A walk tells of every block on a whole path.
#[verifier::rlimit(40)]
proof fn lemma_reads_told(
    t: Seq<Seq<u8>>,
    hash: Seq<u8>,
    lba: u64,
    route: Seq<u8>,
    d: int,
    repair: bool,
    k: Seq<u8>,
)
    requires
        0 <= d <= 52,
        k.len() == 32,
        survey::survey(t, hash, lba, route, d, repair) is Ok,
        swap::tail(t, Some(ChildView::At { hash, lba }), k, d).whole,
    ensures
        told(
            t,
            survey::survey(t, hash, lba, route, d, repair)->Ok_0,
            swap::tail(t, Some(ChildView::At { hash, lba }), k, d),
        ),
    decreases 52 - d,
{
    let s = survey::survey(t, hash, lba, route, d, repair)->Ok_0;
    let p = swap::tail(t, Some(ChildView::At { hash, lba }), k, d);
    match trie::doc_at(t, lba, hash) {
        Err(e) => {},
        Ok(None) => {
            assert(s.stale.contains(s.stale[0]));
            lemma_stale_snipped(s, s.stale[0]);
        },
        Ok(Some(DocView::Node(n))) => {
            let c = key::chunk_of(k, d) as int;
            key::lemma_chunk_bound(k, d);
            trie::lemma_doc_shape(t[lba as int]);
            assert(n.kids[c] matches Some(x) ==> x is At);
            let kids = survey::survey_kids(t, n.kids, 32, route, d, repair)->Ok_0;
            let here = survey::alive(seq![(lba, hash)]);
            survey::lemma_join_parts(here, kids);
            assert(here.live[0] == (lba, hash));
            assert(here.live.contains((lba, hash)));
            assert(s.live.contains((lba, hash)));
            let sub = swap::tail(t, n.kids[c], k, d + 1);
            if let Some(x) = n.kids[c] {
                survey::lemma_kid_surveyed(t, n.kids, 32, route, d, repair, c);
                let r2 = key::routed(route, d, c as u8);
                lemma_reads_told(t, x->hash, x->lba, r2, d + 1, repair, k);
                let o = survey::survey(t, x->hash, x->lba, r2, d + 1, repair)->Ok_0;
                survey::lemma_part_through(o, kids, s);
                lemma_told_part(t, o, s, sub);
            }
        },
        Ok(Some(DocView::Lone { .. })) => {
            assert(s.live[0] == (lba, hash));
            assert(Seq::<u64>::empty().to_set() =~= Set::<u64>::empty());
        },
        Ok(Some(DocView::Furrow { .. })) => {},
        Ok(Some(leaf)) => {
            let key = trie::leaf_key(leaf)->0;
            match trie::leaf_positions(leaf) {
                Err(_) => {
                    if repair {
                        assert(s.dangling.contains(s.dangling[0]));
                        lemma_dangling_snipped(s, s.dangling[0]);
                    }
                },
                Ok(ps) => {
                    if repair && !(survey::checked(t, key, ps, ps.len()) is Sound) {
                        lemma_checked_true(t, key, ps, ps.len());
                        assert(s.dangling.contains(s.dangling[0]));
                        lemma_dangling_snipped(s, s.dangling[0]);
                    } else {
                        assert(s.live[0] == (lba, hash));
                        if trie::leaf_key(leaf) == Some(k) {
                            assert(key::agree(k, k, d));
                            lemma_own_leaf(t, hash, lba, route, d, repair, leaf);
                        }
                    }
                },
            }
        },
    }
}

/// The furrows of a readable leaf are live to a walk.
proof fn lemma_own_leaf(
    t: Seq<Seq<u8>>,
    hash: Seq<u8>,
    lba: u64,
    route: Seq<u8>,
    d: int,
    repair: bool,
    leaf: DocView,
)
    requires
        survey::survey(t, hash, lba, route, d, repair) is Ok,
        trie::doc_at(t, lba, hash) == Ok::<Option<DocView>, ErrorView>(Some(leaf)),
        leaf is Extent || leaf is Direct,
        trie::leaf_value(t, leaf) is Ok,
        trie::leaf_positions(leaf) matches Ok(ps) && (repair ==> survey::checked(
            t,
            trie::leaf_key(leaf)->0,
            ps,
            ps.len(),
        ) is Sound),
    ensures
        forall|x: u64| #[trigger]
            trie::furrow_set(leaf).contains(x) ==> x < t.len() && (seal::hp_of(
                t[x as int],
            ) matches Some(h) && survey::survey(t, hash, lba, route, d, repair)->Ok_0.live.contains(
                (x, h),
            )),
{
    let s = survey::survey(t, hash, lba, route, d, repair)->Ok_0;
    let ps = trie::leaf_positions(leaf)->Ok_0;
    let key = trie::leaf_key(leaf)->0;
    let ms = if repair {
        survey::lemma_checked(t, key, ps, ps.len());
        survey::checked(t, key, ps, ps.len())->Sound_0
    } else {
        trie::lemma_marked(t, ps, ps.len());
        trie::marked(t, ps, ps.len())->Ok_0
    };
    assert forall|x: u64| #[trigger] trie::furrow_set(leaf).contains(x) implies x < t.len() && (
    seal::hp_of(t[x as int]) matches Some(h) && s.live.contains((x, h))) by {
        trie::lemma_leaf_owns(t, leaf, x);
        let i = choose|i: int| 0 <= i < ps.len() && ps[i] == x;
        assert(ps[i] == x);
        let e = (x, seal::hp_of(t[x as int])->0);
        assert(ms.contains(e));
        let j = choose|j: int| 0 <= j < ms.len() && ms[j] == e;
        assert(s.live[j + 1] == e);
    }
}

/// Loads the index of a committed root: walks it, takes out the pointers that lead to zeroed blocks
/// and, for repair, those that lead to what is lost, and collects the blocks that are live.
pub(crate) fn load<A: BlockDev, B: BlockDev>(
    mirror: &mut Mirror<A, B>,
    tract: &Tract,
    hash: [u8; 32],
    lba: u64,
    repair: bool,
) -> (r: Result<Loaded>)
    requires
        tract.base + tract.len <= u64::MAX,
    ensures
        hamt::untouched(final(mirror), old(mirror)),
        ({
            let t = tract.on(old(mirror).disk());
            let c = hamt::committed_index(hash@, lba);
            match r {
                Ok(x) => survey::survey_root(t, c.root, repair) matches Ok(s) && loaded(
                    t,
                    c,
                    s,
                    x.hamt@,
                    x.live@,
                ) && (repair ==> salvaged(t, c, x.hamt@, x.live@)) && survey::stale_view(x.stale@)
                    == s.stale && survey::dangling_view(x.dangling@) == s.dangling
                    && x.hamt@.dirt() <= 52 * snips_of(s).len() && (snips_of(s).len() == 0
                    ==> x.hamt@ == c),
                Err(e) => {
                    ||| survey::survey_root(t, c.root, repair) == Err::<Survey, ErrorView>(e@) && (
                    repair || !keep::sound(t, c))
                    ||| survey::survey_root(t, c.root, repair) matches Ok(s) && !trimmable(t, c, s)
                        && !keep::sound(t, c)
                    ||| !hamt::sure_of(old(mirror), tract)
                },
            }
        }),
{
    let ghost t = tract.on(mirror.disk());
    let ghost c = hamt::committed_index(hash@, lba);
    let mut index = Hamt::from_root(hash, lba);
    let mut blocks: Vec<(u64, [u8; 32])> = Vec::new();
    let mut stale: Vec<StalePointer> = Vec::new();
    let mut dangling: Vec<DanglingPointer> = Vec::new();
    let walked = if repair {
        index.walk_live_repair(mirror, tract, &mut blocks, &mut stale, &mut dangling)
    } else {
        index.walk_live_collect(mirror, tract, &mut blocks, &mut stale)
    };
    match walked {
        Ok(()) => {},
        Err(e) => {
            proof {
                if !repair && keep::sound(t, c) {
                    lemma_sound_survey(t, hash@, lba);
                }
            }
            return Err(e);
        },
    }
    let ghost s = survey::survey_root(t, c.root, repair)->Ok_0;
    let ghost cuts = snips_of(s);
    proof {
        assert(hamt::marks_view(blocks@) =~= s.live);
        assert(survey::stale_view(stale@) =~= s.stale);
        if hash@ != block::zeros32() {
            lemma_survey_true(t, hash@, lba, block::zeros32(), 0, repair);
            if !repair {
                lemma_strict(t, hash@, lba, block::zeros32(), 0);
            }
        }
        assert(survey::dangling_view(dangling@) =~= s.dangling);
        assert(is_true(t, s));
        assert(cuttable(t, cuts)) by {
            assert forall|i: int| 0 <= i < cuts.len() implies (#[trigger] cuts[i]).route.len() == 32
                && !(trie::doc_at(t, cuts[i].lba, cuts[i].hash) matches Ok(
                Some(DocView::Node(_)),
            )) by {
                if i < s.stale.len() {
                    assert(s.stale[i].route.len() == 32);
                } else {
                    assert(s.dangling[i - s.stale.len()].route.len() == 32);
                }
            }
        }
        if keep::placed(t, c) {
            assert forall|k: Seq<u8>| k.len() == 32 implies trim_path(
                c.path(t, k),
                #[trigger] index@.path(t, k),
                k,
                cuts,
                0,
                edit::places(index@.removed),
            ) by {
                assert(swap::passed_by(
                    c.path(t, k),
                    index@.path(t, k),
                    edit::places(index@.removed),
                ));
            }
        }
    }
    let mut i: usize = 0;
    while i < stale.len()
        invariant
            i <= stale@.len(),
            tract.base + tract.len <= u64::MAX,
            t == tract.on(old(mirror).disk()),
            c == hamt::committed_index(hash@, lba),
            hamt::untouched(mirror, old(mirror)),
            survey::survey_root(t, c.root, repair) == Ok::<Survey, ErrorView>(s),
            cuts == snips_of(s),
            cuttable(t, cuts),
            is_true(t, s),
            survey::stale_view(stale@) == s.stale,
            index@.wf(),
            index@.added.len() == 0,
            index@.dirt() <= 52 * i,
            i == 0 ==> index@ == c,
            keep::placed(t, c) ==> trimmed(t, c, index@, cuts, i as int),
        decreases stale@.len() - i,
    {
        let ghost ix0 = index@;
        proof {
            assert(s.stale[i as int] == stale@[i as int]@);
            assert(cuts[i as int].route == stale@[i as int].route@);
            assert(cuts[i as int].hash == stale@[i as int].hash@);
        }
        let done = index.prune(mirror, tract, &stale[i].route, &stale[i].hash, stale[i].lba);
        match done {
            Ok(()) => {},
            Err(e) => {
                proof {
                    lemma_never_fails(t, c, ix0, s, i as int);
                    if keep::sound(t, c) {
                        lemma_sound_trims(t, c, s);
                    }
                }
                return Err(e);
            },
        }
        proof {
            if keep::placed(t, c) {
                lemma_trim_step(t, c, ix0, index@, cuts, i as int);
            }
        }
        i = i + 1;
    }
    let mut j: usize = 0;
    while j < dangling.len()
        invariant
            j <= dangling@.len(),
            tract.base + tract.len <= u64::MAX,
            t == tract.on(old(mirror).disk()),
            c == hamt::committed_index(hash@, lba),
            hamt::untouched(mirror, old(mirror)),
            survey::survey_root(t, c.root, repair) == Ok::<Survey, ErrorView>(s),
            cuts == snips_of(s),
            cuttable(t, cuts),
            is_true(t, s),
            survey::dangling_view(dangling@) == s.dangling,
            index@.wf(),
            index@.added.len() == 0,
            index@.dirt() <= 52 * (s.stale.len() + j),
            s.stale.len() + j == 0 ==> index@ == c,
            keep::placed(t, c) ==> trimmed(t, c, index@, cuts, s.stale.len() + j),
        decreases dangling@.len() - j,
    {
        let ghost ix0 = index@;
        let ghost n = s.stale.len() + j;
        proof {
            assert(s.dangling[j as int] == dangling@[j as int]@);
            assert(cuts[n].route == dangling@[j as int].route@);
            assert(cuts[n].hash == dangling@[j as int].hash@);
        }
        let done = index.prune(
            mirror,
            tract,
            &dangling[j].route,
            &dangling[j].hash,
            dangling[j].lba,
        );
        match done {
            Ok(()) => {},
            Err(e) => {
                proof {
                    lemma_never_fails(t, c, ix0, s, n as int);
                    if keep::sound(t, c) {
                        lemma_sound_trims(t, c, s);
                    }
                }
                return Err(e);
            },
        }
        proof {
            if keep::placed(t, c) {
                lemma_trim_step(t, c, ix0, index@, cuts, n);
            }
        }
        j = j + 1;
    }
    let live = LiveSet::from_marks(&blocks);
    proof {
        lemma_loaded(t, hash@, lba, repair, s, index@, live@);
    }
    Ok(Loaded { hamt: index, live, stale, dangling })
}

/// A pointer that can be taken out is still reached, or gone, after others were taken out.
proof fn lemma_never_fails(t: Seq<Seq<u8>>, c: Index, ix: Index, s: Survey, n: int)
    requires
        cuttable(t, snips_of(s)),
        0 <= n < snips_of(s).len(),
        keep::placed(t, c) ==> trimmed(t, c, ix, snips_of(s), n),
    ensures
        trimmable(t, c, s) ==> {
            let x = snips_of(s)[n];
            let u = ix.path(t, x.route);
            u.whole || (cut::ended_at(u, x.hash, x.lba) && u.placed)
        },
{
    if trimmable(t, c, s) {
        let k = snips_of(s)[n].route;
        assert(c.path(t, k).placed);
        assert(trim_path(
            c.path(t, k),
            ix.path(t, k),
            k,
            snips_of(s),
            n,
            edit::places(ix.removed),
        ));
    }
}

/// A strict walk goes through wherever every path is sound.
proof fn lemma_sound_walk(t: Seq<Seq<u8>>, hash: Seq<u8>, lba: u64, route: Seq<u8>, d: int)
    requires
        0 <= d <= 52,
        route.len() == 32,
        forall|k: Seq<u8>|
            k.len() == 32 && key::agree(k, route, d) ==> (#[trigger] trie::walk(
                t,
                Seq::<NodeView>::empty(),
                Some(ChildView::At { hash, lba }),
                k,
                d,
            )).sound(),
    ensures
        survey::survey(t, hash, lba, route, d, false) is Ok,
    decreases 52 - d, 33int,
{
    let none = Seq::<NodeView>::empty();
    let at = Some(ChildView::At { hash, lba });
    assert(key::agree(route, route, d));
    let w = trie::walk(t, none, at, route, d);
    assert(w.sound());
    match trie::doc_at(t, lba, hash) {
        Err(e) => {},
        Ok(None) => {},
        Ok(Some(DocView::Node(n))) => {
            trie::lemma_doc_shape(t[lba as int]);
            assert(0 <= d < 52);
            assert(trie::stands(n, route, d));
            assert forall|x: int, k: Seq<u8>|
                0 <= x < 32 && n.kids[x] is Some && k.len() == 32 && key::agree(
                    k,
                    key::routed(route, d, x as u8),
                    d + 1,
                ) implies (#[trigger] trie::walk(t, none, n.kids[x], k, d + 1)).sound() by {
                key::lemma_routed(route, d, x as u8);
                let r = key::routed(route, d, x as u8);
                assert(key::chunk_of(k, d) == key::chunk_of(r, d));
                assert(key::agree(k, route, d)) by {
                    assert forall|i: int| 0 <= i < d implies #[trigger] key::chunk_of(k, i)
                        == key::chunk_of(route, i) by {
                        assert(key::chunk_of(k, i) == key::chunk_of(r, i));
                    }
                }
                assert(trie::walk(t, none, at, k, d).sound());
            }
            lemma_sound_kids(t, n.kids, 32, route, d);
        },
        Ok(Some(DocView::Lone { .. })) => {},
        Ok(Some(DocView::Furrow { .. })) => {},
        Ok(Some(leaf)) => {
            trie::lemma_doc_shape(t[lba as int]);
            let k0 = trie::leaf_key(leaf)->0;
            if k0 != route {
                assert(key::agree(k0, route, d));
            }
            assert(trie::walk(t, none, at, k0, d).sound());
            trie::lemma_leaf_marks(t, leaf);
        },
    }
}

proof fn lemma_sound_kids(
    t: Seq<Seq<u8>>,
    kids: Seq<Option<ChildView>>,
    n: nat,
    route: Seq<u8>,
    d: int,
)
    requires
        0 <= d < 52,
        n <= 32,
        kids.len() == 32,
        route.len() == 32,
        forall|x: int, k: Seq<u8>|
            0 <= x < 32 && kids[x] is Some && k.len() == 32 && key::agree(
                k,
                key::routed(route, d, x as u8),
                d + 1,
            ) ==> (#[trigger] trie::walk(t, Seq::<NodeView>::empty(), kids[x], k, d + 1)).sound(),
    ensures
        survey::survey_kids(t, kids, n, route, d, false) is Ok,
    decreases 52 - d, n,
{
    if n > 0 {
        lemma_sound_kids(t, kids, (n - 1) as nat, route, d);
        if let Some(ChildView::At { hash, lba }) = kids[n - 1] {
            let r = key::routed(route, d, (n - 1) as u8);
            key::lemma_routed(route, d, (n - 1) as u8);
            assert forall|k: Seq<u8>| k.len() == 32 && key::agree(k, r, d + 1) implies (
            #[trigger] trie::walk(
                t,
                Seq::<NodeView>::empty(),
                Some(ChildView::At { hash, lba }),
                k,
                d + 1,
            )).sound() by {
                assert(trie::walk(t, Seq::<NodeView>::empty(), kids[n - 1], k, d + 1).sound());
            }
            lemma_sound_walk(t, hash, lba, r, d + 1);
        }
    }
}

/// The strict walk of a committed index goes through where every path is sound.
pub proof fn lemma_sound_survey(t: Seq<Seq<u8>>, hash: Seq<u8>, lba: u64)
    requires
        keep::sound(t, hamt::committed_index(hash, lba)),
    ensures
        survey::survey_root(t, hamt::committed_index(hash, lba).root, false) is Ok,
{
    let c = hamt::committed_index(hash, lba);
    if hash != block::zeros32() {
        assert forall|k: Seq<u8>| k.len() == 32 && key::agree(k, block::zeros32(), 0) implies (
        #[trigger] trie::walk(
            t,
            Seq::<NodeView>::empty(),
            Some(ChildView::At { hash, lba }),
            k,
            0,
        )).sound() by {
            assert(c.path(t, k).sound());
        }
        lemma_sound_walk(t, hash, lba, block::zeros32(), 0);
    }
}

/// A strict walk lists nothing that dangles.
proof fn lemma_strict(t: Seq<Seq<u8>>, hash: Seq<u8>, lba: u64, route: Seq<u8>, d: int)
    requires
        0 <= d <= 52,
        survey::survey(t, hash, lba, route, d, false) is Ok,
    ensures
        (survey::survey(t, hash, lba, route, d, false)->Ok_0).dangling.len() == 0,
    decreases 52 - d, 33int,
{
    if let Ok(Some(DocView::Node(n))) = trie::doc_at(t, lba, hash) {
        lemma_strict_kids(t, n.kids, 32, route, d);
    }
}

proof fn lemma_strict_kids(
    t: Seq<Seq<u8>>,
    kids: Seq<Option<ChildView>>,
    n: nat,
    route: Seq<u8>,
    d: int,
)
    requires
        0 <= d <= 52,
        n <= 32,
        survey::survey_kids(t, kids, n, route, d, false) is Ok,
    ensures
        (survey::survey_kids(t, kids, n, route, d, false)->Ok_0).dangling.len() == 0,
    decreases 52 - d, n,
{
    if n > 0 && d < 52 {
        lemma_strict_kids(t, kids, (n - 1) as nat, route, d);
        if let Some(ChildView::At { hash, lba }) = kids[n - 1] {
            lemma_strict(t, hash, lba, key::routed(route, d, (n - 1) as u8), d + 1);
        }
    }
}

/// The number of totals from `plow` on before the first position of a list comes round.
pub open spec fn is_run(plow: int, len: int, ps: Seq<u64>, run: int) -> bool {
    &&& 0 <= run <= len
    &&& forall|i: int| 0 <= i < ps.len() ==> run <= ((#[trigger] ps[i]) - plow) % len
}

/// How far from the plow appends can go before they come round to a position of the list.
pub(crate) fn clear_run(plow: u64, len: u64, ps: &Vec<u64>) -> (run: u64)
    requires
        len > 0,
    ensures
        is_run(plow as int, len as int, ps@, run as int),
        forall|n: int| #[trigger] is_run(plow as int, len as int, ps@, n) ==> n <= run,
{
    let at: u64 = plow % len;
    let mut run: u64 = len;
    let mut i: usize = 0;
    while i < ps.len()
        invariant
            i <= ps@.len(),
            len > 0,
            at == plow % len,
            is_run(plow as int, len as int, ps@.take(i as int), run as int),
            forall|n: int| #[trigger]
                is_run(plow as int, len as int, ps@.take(i as int), n) ==> n <= run,
        decreases ps@.len() - i,
    {
        let p: u64 = ps[i] % len;
        let d: u64 = if p >= at {
            p - at
        } else {
            len - (at - p)
        };
        proof {
            lemma_distance(ps@[i as int] as int, plow as int, len as int, d as int);
            let next = ps@.take(i + 1);
            assert forall|j: int| 0 <= j < next.len() implies (if d < run {
                d
            } else {
                run
            }) <= ((#[trigger] next[j]) - plow) % (len as int) by {
                if j < i {
                    assert(next[j] == ps@.take(i as int)[j]);
                }
            }
            assert forall|n: int| #[trigger] is_run(
                plow as int,
                len as int,
                next,
                n,
            ) implies n <= (if d < run {
                d
            } else {
                run
            }) by {
                assert(n <= (next[i as int] - plow) % (len as int));
                assert forall|j: int| 0 <= j < ps@.take(i as int).len() implies n <= ((
                #[trigger] ps@.take(i as int)[j]) - plow) % (len as int) by {
                    assert(n <= (next[j] - plow) % (len as int));
                }
                assert(is_run(plow as int, len as int, ps@.take(i as int), n));
            }
        }
        if d < run {
            run = d;
        }
        i = i + 1;
    }
    assert(ps@.take(i as int) =~= ps@);
    run
}

/// The distance round the ring from one total to a position.
proof fn lemma_distance(p: int, plow: int, len: int, d: int)
    requires
        len > 0,
        0 <= p,
        0 <= plow,
        d == (if p % len >= plow % len {
            p % len - plow % len
        } else {
            len - (plow % len - p % len)
        }),
    ensures
        (p - plow) % len == d,
        0 <= d < len,
{
    vstd::arithmetic::div_mod::lemma_fundamental_div_mod(p, len);
    vstd::arithmetic::div_mod::lemma_fundamental_div_mod(plow, len);
    vstd::arithmetic::div_mod::lemma_mod_bound(p, len);
    vstd::arithmetic::div_mod::lemma_mod_bound(plow, len);
    let a = p / len;
    let b = plow / len;
    let q = if p % len >= plow % len {
        a - b
    } else {
        a - b - 1
    };
    assert(p - plow == q * len + d) by (nonlinear_arith)
        requires
            p == len * a + p % len,
            plow == len * b + plow % len,
            d == (if p % len >= plow % len {
                p % len - plow % len
            } else {
                len - (plow % len - p % len)
            }),
            q == (if p % len >= plow % len {
                a - b
            } else {
                a - b - 1
            }),
    ;
    vstd::arithmetic::div_mod::lemma_fundamental_div_mod_converse(p - plow, len, q, d);
}

/// Whether the first `n` totals from `plow` on lie on nothing that a walk lists, live or to be taken
/// out.
pub open spec fn clear_for(s: Survey, plow: int, len: int, n: int) -> bool {
    &&& 0 <= n <= len
    &&& forall|i: int| 0 <= i < s.live.len() ==> n <= ((#[trigger] s.live[i]).0 - plow) % len
    &&& forall|i: int|
        0 <= i < snips_of(s).len() ==> n <= ((#[trigger] snips_of(s)[i]).lba - plow) % len
}

/// Whether the first `n` totals from `plow` on lie on nothing live.
pub open spec fn clear_of(live: Map<u64, Seq<u8>>, plow: int, len: int, n: int) -> bool {
    &&& 0 <= n <= len
    &&& forall|p: u64| #[trigger] live.contains_key(p) ==> n <= (p - plow) % len
}

/// Whether cursors are those that suit what is live where appends were to go on at `at`: clean space is
/// as large as it can be without a live block in it, and appends go on a lap later where the reap
/// would be negative.
pub open spec fn suited(live: Map<u64, Seq<u8>>, at: u64, len: u64, plow: u64, reap: u64) -> bool {
    let run = reap + len - plow;
    &&& clear_of(live, at as int, len as int, run)
    &&& forall|n: int| #[trigger] clear_of(live, at as int, len as int, n) ==> n <= run
    &&& plow == (if at + run < len {
        at + len
    } else {
        at as int
    })
}

/// A loaded index with the cursors that suit it.
pub struct Seat {
    pub loaded: Loaded,
    pub plow: u64,
    pub reap: u64,
    pub shield: u64,
}

/// Positions past which a run does not go are not in the strip that it covers.
proof fn lemma_run_clear(plow: int, len: int, ps: Seq<u64>, run: int, to: int, p: u64)
    requires
        len > 0,
        is_run(plow, len, ps, run),
        ps.contains(p),
        to <= plow + run,
    ensures
        !crate::tract::in_strip(p as int, plow, to, len),
{
    let i = choose|i: int| 0 <= i < ps.len() && ps[i] == p;
    assert(run <= (ps[i] - plow) % len);
}

/// One lap later, a position is as far away.
proof fn lemma_run_lap(plow: int, len: int, ps: Seq<u64>, run: int)
    requires
        len > 0,
        is_run(plow, len, ps, run),
    ensures
        is_run(plow + len, len, ps, run),
{
    assert forall|i: int| 0 <= i < ps.len() implies run <= ((#[trigger] ps[i]) - (plow + len))
        % len by {
        let x = ps[i] - plow;
        vstd::arithmetic::div_mod::lemma_mod_add_multiples_vanish(x - len, len);
        assert(x - len + len == x);
    }
}

/// Loads the index of a committed root, and derives the cursors from what is live: the reap is the
/// largest for which clean space holds no live block, whatever the layout. Appends up to the shield
/// leave alone even what the pointers lead to that were taken out.
pub(crate) fn seat<A: BlockDev, B: BlockDev>(
    mirror: &mut Mirror<A, B>,
    tract: &Tract,
    hash: [u8; 32],
    lba: u64,
    repair: bool,
) -> (r: Result<Seat>)
    requires
        tract.base + tract.len <= u64::MAX,
        tract.len > 0,
    ensures
        hamt::untouched(final(mirror), old(mirror)),
        ({
            let t = tract.on(old(mirror).disk());
            let c = hamt::committed_index(hash@, lba);
            match r {
                Ok(x) => {
                    &&& x.plow == tract.plow || x.plow == tract.plow + tract.len
                    &&& x.reap <= x.plow
                    &&& x.plow - x.reap <= tract.len
                    &&& x.plow <= x.shield <= x.reap + tract.len
                    &&& suited(x.loaded.live@, tract.plow, tract.len, x.plow, x.reap)
                    &&& survey::survey_root(t, c.root, repair) matches Ok(s) && (snips_of(s).len()
                        == 0 ==> x.shield == (if x.reap + tract.len <= u64::MAX {
                        x.reap + tract.len
                    } else {
                        u64::MAX as int
                    })) && loaded(
                        t,
                        c,
                        s,
                        x.loaded.hamt@,
                        x.loaded.live@,
                    ) && (repair ==> salvaged(t, c, x.loaded.hamt@, x.loaded.live@))
                        && survey::stale_view(x.loaded.stale@) == s.stale
                        && survey::dangling_view(x.loaded.dangling@) == s.dangling
                        && x.loaded.hamt@.dirt() <= 52 * snips_of(s).len() && (snips_of(s).len()
                        == 0 ==> x.loaded.hamt@ == c) && (forall|n: int|
                     #[trigger]
                        clear_for(s, tract.plow as int, tract.len as int, n) ==> (x.plow + n
                            <= u64::MAX ==> x.plow + n <= x.shield) && (tract.plow + n
                            >= tract.len ==> x.plow == tract.plow))
                    &&& (forall|k: Seq<u8>, p: u64|
                        k.len() == 32 && (#[trigger] x.loaded.hamt@.path(t, k).reads.contains(p))
                            ==> p < t.len() && x.loaded.live@.contains_key(p)) ==> keep::sheltered(
                        t,
                        x.loaded.hamt@,
                        x.plow as int,
                        x.reap + tract.len,
                    )
                    &&& keep::sound(t, c) ==> keep::sheltered(
                        t,
                        c,
                        x.plow as int,
                        x.shield as int,
                    )
                },
                Err(e) => {
                    ||| survey::survey_root(t, c.root, repair) == Err::<Survey, ErrorView>(e@) && (
                    repair || !keep::sound(t, c))
                    ||| survey::survey_root(t, c.root, repair) matches Ok(s) && !trimmable(t, c, s)
                        && !keep::sound(t, c)
                    ||| !hamt::sure_of(old(mirror), tract)
                    ||| e@ == error::corrupt("cursors out of range") && tract.plow + tract.len
                        > u64::MAX
                },
            }
        }),
{
    let ghost t = tract.on(mirror.disk());
    let ghost c = hamt::committed_index(hash@, lba);
    let x = match load(mirror, tract, hash, lba, repair) {
        Ok(x) => x,
        Err(e) => return Err(e),
    };
    let ghost s = survey::survey_root(t, c.root, repair)->Ok_0;
    let mut ps: Vec<u64> = x.live.positions();
    let ghost living = ps@;
    let run: u64 = clear_run(tract.plow, tract.len, &ps);
    let mut i: usize = 0;
    while i < x.stale.len()
        invariant
            i <= x.stale@.len(),
            survey::stale_view(x.stale@) == s.stale,
            ps@.len() == living.len() + i,
            forall|j: int| 0 <= j < living.len() ==> #[trigger] ps@[j] == living[j],
            forall|j: int| 0 <= j < i ==> #[trigger] ps@[living.len() + j] == s.stale[j].lba,
        decreases x.stale@.len() - i,
    {
        assert(s.stale[i as int] == x.stale@[i as int]@);
        ps.push(x.stale[i].lba);
        i = i + 1;
    }
    let mut j: usize = 0;
    while j < x.dangling.len()
        invariant
            j <= x.dangling@.len(),
            survey::dangling_view(x.dangling@) == s.dangling,
            ps@.len() == living.len() + s.stale.len() + j,
            forall|m: int| 0 <= m < living.len() ==> #[trigger] ps@[m] == living[m],
            forall|m: int|
                0 <= m < s.stale.len() ==> #[trigger] ps@[living.len() + m] == s.stale[m].lba,
            forall|m: int|
                0 <= m < j ==> #[trigger] ps@[living.len() + s.stale.len() + m]
                    == s.dangling[m].lba,
        decreases x.dangling@.len() - j,
    {
        assert(s.dangling[j as int] == x.dangling@[j as int]@);
        ps.push(x.dangling[j].lba);
        j = j + 1;
    }
    let run_all: u64 = clear_run(tract.plow, tract.len, &ps);
    proof {
        assert forall|p: u64| living.contains(p) || is_snipped(s, p) implies #[trigger] ps@.contains(
            p,
        ) by {
            if living.contains(p) {
                let m = choose|m: int| 0 <= m < living.len() && living[m] == p;
                assert(ps@[m] == p);
            } else {
                let m = choose|m: int|
                    0 <= m < snips_of(s).len() && (#[trigger] snips_of(s)[m]).lba == p;
                if m < s.stale.len() {
                    assert(ps@[living.len() + m] == p);
                } else {
                    assert(ps@[living.len() + s.stale.len() + (m - s.stale.len())] == p);
                }
            }
        }
    }
    if tract.plow > u64::MAX - tract.len {
        return Err(corrupt_err("cursors out of range"));
    }
    let plow: u64 = if tract.plow + run < tract.len {
        tract.plow + tract.len
    } else {
        tract.plow
    };
    proof {
        lemma_run_lap(tract.plow as int, tract.len as int, living, run as int);
        lemma_run_lap(tract.plow as int, tract.len as int, ps@, run_all as int);
    }
    let cap: u64 = if run_all < run {
        run_all
    } else {
        run
    };
    let reap: u64 = plow - (tract.len - run);
    let shield: u64 = plow.saturating_add(cap);
    proof {
        let len = tract.len as int;
        assert forall|n: int| is_run(tract.plow as int, len, living, n) == #[trigger] clear_of(
            x.live@,
            tract.plow as int,
            len,
            n,
        ) by {
            if is_run(tract.plow as int, len, living, n) {
                assert forall|p: u64| #[trigger] x.live@.contains_key(p) implies n <= (p
                    - tract.plow) % len by {
                    assert(living.contains(p));
                    let m = choose|m: int| 0 <= m < living.len() && living[m] == p;
                    assert(n <= (living[m] - tract.plow) % len);
                }
            }
            if clear_of(x.live@, tract.plow as int, len, n) {
                assert forall|i: int| 0 <= i < living.len() implies n <= ((#[trigger] living[i])
                    - tract.plow) % len by {
                    assert(living.contains(living[i]));
                    assert(x.live@.contains_key(living[i]));
                }
            }
        }
        if snips_of(s).len() == 0 {
            assert(ps@ =~= living);
        }
        assert forall|n: int| #[trigger] clear_for(s, tract.plow as int, len, n) implies n <= cap by {
            assert(is_run(tract.plow as int, len, living, n)) by {
                assert forall|i: int| 0 <= i < living.len() implies n <= ((#[trigger] living[i])
                    - tract.plow) % len by {
                    assert(living.contains(living[i]));
                    lemma_filled_from(s.live, living[i]);
                    let m = choose|m: int|
                        0 <= m < s.live.len() && (#[trigger] s.live[m]).0 == living[i];
                    assert(n <= (s.live[m].0 - tract.plow) % len);
                }
            }
            assert(is_run(tract.plow as int, len, ps@, n)) by {
                assert forall|i: int| 0 <= i < ps@.len() implies n <= ((#[trigger] ps@[i])
                    - tract.plow) % len by {
                    let a = living.len() as int;
                    let b = s.stale.len() as int;
                    if i < a {
                        assert(ps@[i] == living[i]);
                        assert(n <= (living[i] - tract.plow) % len);
                    } else if i < a + b {
                        assert(ps@[a + (i - a)] == s.stale[i - a].lba);
                        assert(snips_of(s)[i - a].lba == ps@[i]);
                    } else {
                        assert(ps@[a + b + (i - a - b)] == s.dangling[i - a - b].lba);
                        assert(snips_of(s)[i - a].lba == ps@[i]);
                    }
                }
            }
        }
        if forall|k: Seq<u8>, p: u64|
            k.len() == 32 && (#[trigger] x.hamt@.path(t, k).reads.contains(p)) ==> p < t.len()
                && x.live@.contains_key(p) {
            assert forall|k: Seq<u8>, p: u64|
                k.len() == 32 && (#[trigger] x.hamt@.path(t, k).reads.contains(p)) implies p
                < t.len() && !crate::tract::in_strip(p as int, plow as int, reap + len, len) by {
                assert(x.live@.contains_key(p));
                assert(living.contains(p));
                lemma_run_clear(plow as int, len, living, run as int, reap + len, p);
            }
        }
        if keep::sound(t, c) {
            assert forall|k: Seq<u8>, p: u64|
                k.len() == 32 && (#[trigger] c.path(t, k).reads.contains(p)) implies p < t.len()
                && !crate::tract::in_strip(p as int, plow as int, shield as int, len) by {
                assert(x.live@.contains_key(p) || is_snipped(s, p));
                assert(living.contains(p) == x.live@.contains_key(p));
                assert(ps@.contains(p));
                lemma_run_clear(plow as int, len, ps@, run_all as int, shield as int, p);
            }
        }
    }
    Ok(Seat { loaded: x, plow, reap, shield })
}

/// Law: clean space reaches from where appends go on up to the first live block, or all around where nothing is
/// live. It begins where the head's appends ended.
pub proof fn law_clean_space_ends_at_a_live_block(
    live: Map<u64, Seq<u8>>,
    at: u64,
    len: u64,
    plow: u64,
    reap: u64,
)
    requires
        suited(live, at, len, plow, reap),
        len > 0,
    ensures
        plow % len == at % len,
        0 <= reap + len - plow <= len,
        forall|p: u64| #[trigger]
            live.contains_key(p) ==> reap + len - plow <= (p - at) % (len as int),
        reap + len - plow == len || exists|p: u64| #[trigger]
            live.contains_key(p) && (p - at) % (len as int) == reap + len - plow,
{
    let run = reap + len - plow;
    if plow != at {
        vstd::arithmetic::div_mod::lemma_mod_add_multiples_vanish(at as int, len as int);
    }
    if run < len && !exists|p: u64| #[trigger]
        live.contains_key(p) && (p - at) % (len as int) == run {
        assert(clear_of(live, at as int, len as int, run + 1));
    }
}

}
