//! The live set: what is referenced, by position and sealing hash.
//!
//! Rebuilt from the committed index at open and maintained by deltas afterward. It is the reap's
//! oracle: asked once per scanned position, it answers by one lookup.
use vstd::prelude::*;
use crate::block::same32;
use crate::hamt;
use crate::hamt::Delta;
use crate::keep;
use crate::tract::Liveness;

verus! {

/// A hash map from positions to hashes.
#[verifier::external_body]
pub struct LiveMap {
    map: hashbrown::HashMap<u64, [u8; 32]>,
}

/// The entries of a map.
pub uninterp spec fn live_entries(m: LiveMap) -> Map<u64, Seq<u8>>;

/// Whether a set has `n` elements.
pub open spec fn has_size(s: Set<u64>, n: nat) -> bool {
    s.finite() && s.len() == n
}

impl LiveMap {
    /// `hashbrown::HashMap::new`: a map without entries.
    #[verifier::external_body]
    fn new() -> (m: Self)
        ensures
            live_entries(m).dom() == Set::<u64>::empty(),
    {
        LiveMap { map: hashbrown::HashMap::new() }
    }

    /// `hashbrown::HashMap::get`: the hash under a position, if there is one.
    #[verifier::external_body]
    fn get(&self, lba: u64) -> (r: Option<[u8; 32]>)
        ensures
            r is Some == live_entries(*self).contains_key(lba),
            r matches Some(h) ==> live_entries(*self)[lba] == h@,
    {
        self.map.get(&lba).copied()
    }

    /// `hashbrown::HashMap::insert`: puts a hash under a position, over what was there.
    #[verifier::external_body]
    fn insert(&mut self, lba: u64, hp: [u8; 32])
        ensures
            live_entries(*final(self)) == live_entries(*old(self)).insert(lba, hp@),
    {
        self.map.insert(lba, hp);
    }

    /// `hashbrown::HashMap::remove`: takes the entry of a position out.
    #[verifier::external_body]
    fn remove(&mut self, lba: u64)
        ensures
            live_entries(*final(self)) == live_entries(*old(self)).remove(lba),
    {
        self.map.remove(&lba);
    }

    /// `hashbrown::HashMap::len`: the number of entries.
    #[verifier::external_body]
    fn len(&self) -> (n: usize)
        ensures
            has_size(live_entries(*self).dom(), n as nat),
    {
        self.map.len()
    }

    /// `hashbrown::HashMap::keys`: every position that has an entry, in no particular order.
    #[verifier::external_body]
    fn keys(&self) -> (r: Vec<u64>)
        ensures
            forall|p: u64| #[trigger] r@.contains(p) == live_entries(*self).contains_key(p),
    {
        self.map.keys().copied().collect()
    }
}

/// The vault's knowledge of what is referenced: tract position to sealing hash.
pub struct LiveSet {
    map: LiveMap,
}

impl View for LiveSet {
    type V = Map<u64, Seq<u8>>;

    closed spec fn view(&self) -> Map<u64, Seq<u8>> {
        live_entries(self.map)
    }
}

impl Default for LiveSet {
    fn default() -> (s: Self)
        ensures
            s@ == Map::<u64, Seq<u8>>::empty(),
    {
        let s = LiveSet { map: LiveMap::new() };
        assert(s@ =~= Map::<u64, Seq<u8>>::empty());
        s
    }
}

impl LiveSet {
    /// A live set of the entries given, the later ones over the earlier.
    pub(crate) fn from_marks(marks: &Vec<(u64, [u8; 32])>) -> (s: Self)
        ensures
            s@ == keep::filled(Map::<u64, Seq<u8>>::empty(), hamt::marks_view(marks@)),
    {
        let mut s = LiveSet::default();
        s.add_all(marks);
        s
    }

    fn add_all(&mut self, marks: &Vec<(u64, [u8; 32])>)
        ensures
            final(self)@ == keep::filled(old(self)@, hamt::marks_view(marks@)),
    {
        let ghost m0 = self@;
        let ghost all = hamt::marks_view(marks@);
        let mut i: usize = 0;
        assert(all.take(0) =~= Seq::<(u64, Seq<u8>)>::empty());
        while i < marks.len()
            invariant
                i <= marks@.len(),
                all == hamt::marks_view(marks@),
                self@ == keep::filled(m0, all.take(i as int)),
            decreases marks@.len() - i,
        {
            let e: (u64, [u8; 32]) = marks[i];
            self.map.insert(e.0, e.1);
            proof {
                let next = all.take(i + 1);
                assert(next.drop_last() =~= all.take(i as int));
                assert(next.last() == (e.0, e.1@));
            }
            i = i + 1;
        }
        assert(all.take(i as int) =~= all);
    }

    /// Brings the set up to date: what was removed goes, if it is still what was removed; then what
    /// was added comes.
    pub fn apply(&mut self, delta: Delta)
        ensures
            final(self)@ == keep::applied(
                old(self)@,
                hamt::marks_view(delta.added@),
                hamt::marks_view(delta.removed@),
            ),
    {
        let ghost m0 = self@;
        let ghost all = hamt::marks_view(delta.removed@);
        let mut i: usize = 0;
        assert(all.take(0) =~= Seq::<(u64, Seq<u8>)>::empty());
        while i < delta.removed.len()
            invariant
                i <= delta.removed@.len(),
                all == hamt::marks_view(delta.removed@),
                self@ == keep::thinned(m0, all.take(i as int)),
            decreases delta.removed@.len() - i,
        {
            let e: (u64, [u8; 32]) = delta.removed[i];
            proof {
                let next = all.take(i + 1);
                assert(next.drop_last() =~= all.take(i as int));
                assert(next.last() == (e.0, e.1@));
            }
            if let Some(h) = self.map.get(e.0) {
                if same32(&h, &e.1) {
                    self.map.remove(e.0);
                }
            }
            i = i + 1;
        }
        assert(all.take(i as int) =~= all);
        self.add_all(&delta.added);
    }

    pub fn len(&self) -> (n: usize)
        ensures
            has_size(self@.dom(), n as nat),
    {
        self.map.len()
    }

    pub fn is_empty(&self) -> (r: bool)
        ensures
            r == (self@ == Map::<u64, Seq<u8>>::empty()),
    {
        let n: usize = self.map.len();
        proof {
            if n == 0 {
                assert(self@ =~= Map::<u64, Seq<u8>>::empty());
            } else {
                assert(self@.dom() != Set::<u64>::empty());
            }
        }
        n == 0
    }

    /// Whether a position is referenced at all.
    pub(crate) fn has(&self, lba: u64) -> (r: bool)
        ensures
            r == self@.contains_key(lba),
    {
        self.map.get(lba).is_some()
    }

    /// Every referenced position.
    pub(crate) fn positions(&self) -> (r: Vec<u64>)
        ensures
            forall|p: u64| #[trigger] r@.contains(p) == self@.contains_key(p),
    {
        self.map.keys()
    }
}

impl Liveness for LiveSet {
    open spec fn holds(&self, lba: u64, hp: Seq<u8>) -> bool {
        self@.contains_key(lba) && self@[lba] == hp
    }

    fn is_live(&self, lba: u64, hp: &[u8; 32]) -> (r: bool) {
        match self.map.get(lba) {
            Some(h) => same32(&h, hp),
            None => false,
        }
    }
}

/// A hash map from owners to the furrows of theirs that were met: where, and which.
#[verifier::external_body]
pub struct Owners {
    map: hashbrown::HashMap<[u8; 32], Vec<(u64, u64)>>,
}

/// The groups of a map of owners.
pub uninterp spec fn owner_groups(o: Owners) -> Map<Seq<u8>, Seq<(u64, u64)>>;

/// The furrows that were met of one owner.
pub open spec fn group_of(g: Map<Seq<u8>, Seq<(u64, u64)>>, k: Seq<u8>) -> Seq<(u64, u64)> {
    if g.contains_key(k) {
        g[k]
    } else {
        Seq::<(u64, u64)>::empty()
    }
}

/// Whether a list of groups has one of `k`.
pub open spec fn is_named(r: Seq<([u8; 32], Vec<(u64, u64)>)>, k: Seq<u8>) -> bool {
    exists|i: int| 0 <= i < r.len() && (#[trigger] r[i]).0@ == k
}

/// How many furrows the owners of a list have together.
pub open spec fn weight(g: Map<Seq<u8>, Seq<(u64, u64)>>, ks: Seq<Seq<u8>>) -> nat
    decreases ks.len(),
{
    if ks.len() == 0 {
        0
    } else {
        weight(g, ks.drop_last()) + group_of(g, ks.last()).len()
    }
}

/// Whether owners, each taken once, have at most `n` furrows together.
pub open spec fn no_heavier(g: Map<Seq<u8>, Seq<(u64, u64)>>, n: nat) -> bool {
    forall|ks: Seq<Seq<u8>>| ks.no_duplicates() ==> #[trigger] weight(g, ks) <= n
}

/// Without owners there are no furrows.
pub(crate) proof fn lemma_weightless(g: Map<Seq<u8>, Seq<(u64, u64)>>)
    requires
        g.dom() == Set::<Seq<u8>>::empty(),
    ensures
        no_heavier(g, 0),
{
    assert forall|ks: Seq<Seq<u8>>| ks.no_duplicates() implies #[trigger] weight(g, ks) <= 0 by {
        lemma_weight_none(g, ks);
    }
}

proof fn lemma_weight_none(g: Map<Seq<u8>, Seq<(u64, u64)>>, ks: Seq<Seq<u8>>)
    requires
        g.dom() == Set::<Seq<u8>>::empty(),
    ensures
        weight(g, ks) == 0,
    decreases ks.len(),
{
    if ks.len() > 0 {
        lemma_weight_none(g, ks.drop_last());
        assert(!g.dom().contains(ks.last()));
    }
}

/// One furrow more makes owners heavier by one at most.
pub(crate) proof fn lemma_weight_push(
    g: Map<Seq<u8>, Seq<(u64, u64)>>,
    k: Seq<u8>,
    x: (u64, u64),
    n: nat,
)
    requires
        no_heavier(g, n),
    ensures
        no_heavier(g.insert(k, group_of(g, k).push(x)), n + 1),
{
    let h = g.insert(k, group_of(g, k).push(x));
    assert forall|ks: Seq<Seq<u8>>| ks.no_duplicates() implies #[trigger] weight(h, ks) <= n
        + 1 by {
        lemma_weight_step(g, k, x, ks);
        assert(weight(g, ks) <= n);
    }
}

proof fn lemma_weight_step(
    g: Map<Seq<u8>, Seq<(u64, u64)>>,
    k: Seq<u8>,
    x: (u64, u64),
    ks: Seq<Seq<u8>>,
)
    requires
        ks.no_duplicates(),
    ensures
        ({
            let h = g.insert(k, group_of(g, k).push(x));
            &&& weight(h, ks) <= weight(g, ks) + 1
            &&& !ks.contains(k) ==> weight(h, ks) == weight(g, ks)
        }),
    decreases ks.len(),
{
    if ks.len() > 0 {
        let less = ks.drop_last();
        assert(less.no_duplicates()) by {
            assert forall|i: int, j: int|
                0 <= i < less.len() && 0 <= j < less.len() && i != j implies less[i]
                != less[j] by {
                assert(ks[i] != ks[j]);
            }
        }
        lemma_weight_step(g, k, x, less);
        assert(ks.contains(ks.last())) by {
            assert(ks[ks.len() - 1] == ks.last());
        }
        if less.contains(k) {
            let i = choose|i: int| 0 <= i < less.len() && less[i] == k;
            assert(ks[i] != ks[ks.len() - 1]);
            assert(ks[i] == k);
        }
    }
}

impl Owners {
    /// `hashbrown::HashMap::new`: no owners.
    #[verifier::external_body]
    pub(crate) fn new() -> (o: Self)
        ensures
            owner_groups(o).dom() == Set::<Seq<u8>>::empty(),
    {
        Owners { map: hashbrown::HashMap::new() }
    }

    /// `hashbrown::HashMap::entry` and `Entry::or_default`: puts a furrow behind the others of its
    /// owner, which start out empty.
    #[verifier::external_body]
    pub(crate) fn push(&mut self, key: [u8; 32], item: (u64, u64))
        ensures
            owner_groups(*final(self)) == owner_groups(*old(self)).insert(
                key@,
                group_of(owner_groups(*old(self)), key@).push(item),
            ),
    {
        self.map.entry(key).or_default().push(item);
    }

    /// `hashbrown::HashMap::into_iter`: every owner once, with its group, in no particular order.
    #[verifier::external_body]
    pub(crate) fn into_groups(self) -> (r: Vec<([u8; 32], Vec<(u64, u64)>)>)
        ensures
            forall|i: int|
                0 <= i < r@.len() ==> owner_groups(self).contains_pair(
                    (#[trigger] r@[i]).0@,
                    r@[i].1@,
                ),
            forall|k: Seq<u8>| owner_groups(self).contains_key(k) ==> #[trigger] is_named(r@, k),
            forall|i: int, j: int|
                0 <= i < j < r@.len() ==> (#[trigger] r@[i]).0@ != (#[trigger] r@[j]).0@,
    {
        self.map.into_iter().collect()
    }
}

}
