//! What a vault stands on: its mathematical view, what it answers, what of it is durable, and what
//! keeps the durable part safe until the next commit.
use vstd::prelude::*;
use vstd::arithmetic::div_mod::*;
use vstd::arithmetic::power2::*;
use crate::error::ErrorView;
use crate::hamt;
use crate::hamt::Index;
use crate::keep;
use crate::root::RootView;
use crate::seal;
use crate::spine::SpineView;
use crate::tract;
use crate::tract::Tract;
use crate::trie;

verus! {

/// The mathematical view of a vault.
pub struct VaultView {
    /// What reads show.
    pub disk: Seq<Seq<u8>>,
    /// Whether the device that decides is reliable.
    pub sure: bool,
    /// Whether the first device is reliable, and the second, if there is one, holds the same blocks.
    pub twin: bool,
    /// How many blocks the device that decides can be extended to.
    pub limit: nat,
    /// Where the spine's ring begins.
    pub start: u64,
    /// The ring exponent.
    pub exponent: u8,
    /// The head, and its slot.
    pub top: Option<(u64, SpineView)>,
    pub tract: Tract,
    /// Up to where appends leave the committed index alone.
    pub shield: u64,
    pub index: Index,
    pub live: Map<u64, Seq<u8>>,
    /// The newest root entry, on the migrating layout.
    pub root: Option<RootView>,
}

/// The values that an index leads to, by key.
pub open spec fn book(t: Seq<Seq<u8>>, ix: Index) -> Map<Seq<u8>, Seq<u8>> {
    Map::new(
        |k: Seq<u8>| k.len() == 32 && (ix.path(t, k).found matches Ok(Some(_))),
        |k: Seq<u8>| ix.path(t, k).found->Ok_0->0,
    )
}

/// The index that a spine entry commits to.
pub open spec fn index_of(e: SpineView) -> Index {
    hamt::committed_index(e.hamt, e.hamtat)
}

/// The values that a spine entry commits to, in a tract that begins at `base`.
pub open spec fn committed(disk: Seq<Seq<u8>>, base: int, e: SpineView) -> Map<Seq<u8>, Seq<u8>> {
    book(tract::ground(disk, base, e.tract as nat), index_of(e))
}

/// Whether no path of an index leads past the first `n` positions.
pub open spec fn within(t: Seq<Seq<u8>>, ix: Index, n: int) -> bool {
    forall|k: Seq<u8>, p: u64|
        k.len() == 32 && (#[trigger] ix.path(t, k).reads.contains(p)) ==> p < n
}

impl VaultView {
    /// The blocks of the tract.
    pub open spec fn ground(self) -> Seq<Seq<u8>> {
        self.tract.on(self.disk)
    }

    /// The committed head.
    pub open spec fn head(self) -> SpineView {
        (self.top->0).1
    }

    /// The number of the ring's slots.
    pub open spec fn slots(self) -> int {
        pow2(self.exponent as nat) as int
    }

    /// What the vault answers, key by key.
    pub open spec fn contents(self) -> Map<Seq<u8>, Seq<u8>> {
        book(self.ground(), self.index)
    }

    /// What the committed head answers, key by key.
    pub open spec fn durable(self) -> Map<Seq<u8>, Seq<u8>> {
        committed(self.disk, self.tract.base as int, self.head())
    }

    /// Whether the parts fit together: the regions lie side by side on the disk, there is a head,
    /// and appends stop at the shield.
    pub open spec fn well(self) -> bool {
        &&& self.exponent < 64
        &&& self.start + self.slots() <= self.tract.base
        &&& self.tract.wf()
        &&& self.tract.base + self.tract.len <= self.disk.len()
        &&& self.top is Some
        &&& self.head().wf()
        &&& self.index.wf()
        &&& self.tract.fence_limit matches Some(f) && f <= self.shield
        &&& self.tract.plow <= self.shield
        &&& self.root matches Some(r) ==> {
            &&& r.sane()
            &&& r.ring == self.exponent
            &&& r.band() == self.tract.base
            &&& 4 <= self.start
        }
    }

    /// Whether the index is in working order, and the live set, brought up to date, knows every
    /// block that it leads to.
    pub open spec fn good(self) -> bool {
        &&& keep::fit(
            self.ground(),
            self.index,
            self.tract.plow as int,
            self.tract.reap + self.tract.len,
        )
        &&& keep::covered(self.ground(), self.index, self.live)
    }

    /// Whether the committed index is in working order, and appends cannot reach it.
    pub open spec fn guarded(self) -> bool {
        &&& self.head().tract <= self.tract.len
        &&& within(self.ground(), index_of(self.head()), self.head().tract as int)
        &&& keep::fit(
            self.ground(),
            index_of(self.head()),
            self.tract.plow as int,
            self.shield as int,
        )
    }

    /// Whether a vault is in working order.
    pub open spec fn hale(self) -> bool {
        self.good() && self.guarded()
    }

    /// Whether the index is the committed one.
    pub open spec fn settled(self) -> bool {
        self.index == index_of(self.head()) && self.head().tract == self.tract.len
    }
}

/// What every operation keeps of a vault.
pub open spec fn kept(v0: VaultView, v1: VaultView) -> bool {
    &&& v1.well()
    &&& v1.sure == v0.sure
    &&& v0.twin ==> v1.twin
    &&& v1.limit == v0.limit
    &&& v1.exponent == v0.exponent
    &&& v0.head().gen <= v1.head().gen
    &&& v1.tract.base == v0.tract.base
    &&& v1.tract.len >= v0.tract.len
    &&& v1.root is Some == v0.root is Some
}

/// What an operation that puts nothing in and takes nothing out does: a vault in working order stays
/// so; what it answers is what it answered, or only what was durable; and what is durable is what
/// was, or what it answered.
pub open spec fn tended(v0: VaultView, v1: VaultView) -> bool {
    &&& kept(v0, v1)
    &&& v0.hale() ==> {
        &&& v1.hale()
        &&& v1.contents() == v0.contents() || v1.contents() == v0.durable()
        &&& v1.durable() == v0.durable() || v1.durable() == v0.contents()
    }
}

pub proof fn lemma_tended_twice(v0: VaultView, v1: VaultView, v2: VaultView)
    requires
        tended(v0, v1),
        tended(v1, v2),
    ensures
        tended(v0, v2),
{
}

pub proof fn lemma_book_same(t0: Seq<Seq<u8>>, ix0: Index, t1: Seq<Seq<u8>>, ix1: Index)
    requires
        keep::same_answers(t0, ix0, t1, ix1),
    ensures
        book(t1, ix1) == book(t0, ix0),
{
    assert forall|k: Seq<u8>| k.len() == 32 implies ix1.path(t1, k).found == ix0.path(
        t0,
        k,
    ).found by {}
    assert(book(t1, ix1) =~= book(t0, ix0));
}

pub proof fn lemma_book_put(
    t0: Seq<Seq<u8>>,
    ix0: Index,
    t1: Seq<Seq<u8>>,
    ix1: Index,
    key: Seq<u8>,
    value: Seq<u8>,
)
    requires
        key.len() == 32,
        keep::same_answers_but(t0, ix0, t1, ix1, key),
        ix1.path(t1, key).found == Ok::<Option<Seq<u8>>, ErrorView>(Some(value)),
    ensures
        book(t1, ix1) == book(t0, ix0).insert(key, value),
{
    assert forall|k: Seq<u8>| k.len() == 32 && k != key implies ix1.path(t1, k).found == ix0.path(
        t0,
        k,
    ).found by {}
    assert(book(t1, ix1) =~= book(t0, ix0).insert(key, value));
}

pub proof fn lemma_book_cut(
    t0: Seq<Seq<u8>>,
    ix0: Index,
    t1: Seq<Seq<u8>>,
    ix1: Index,
    key: Seq<u8>,
)
    requires
        key.len() == 32,
        keep::same_answers_but(t0, ix0, t1, ix1, key),
        ix1.path(t1, key).found == Ok::<Option<Seq<u8>>, ErrorView>(None),
    ensures
        book(t1, ix1) == book(t0, ix0).remove(key),
{
    assert forall|k: Seq<u8>| k.len() == 32 && k != key implies ix1.path(t1, k).found == ix0.path(
        t0,
        k,
    ).found by {}
    assert(book(t1, ix1) =~= book(t0, ix0).remove(key));
}

/// The paths of an index that stays within the first `n` positions of a tract are those over these
/// positions alone.
pub proof fn lemma_ground_longer(disk: Seq<Seq<u8>>, base: int, n: nat, len: nat, ix: Index)
    requires
        n <= len,
        ix.wf(),
        within(tract::ground(disk, base, len), ix, n as int),
    ensures
        forall|k: Seq<u8>|
            k.len() == 32 ==> #[trigger] ix.path(tract::ground(disk, base, n), k) == ix.path(
                tract::ground(disk, base, len),
                k,
            ),
        book(tract::ground(disk, base, n), ix) == book(tract::ground(disk, base, len), ix),
{
    let a = tract::ground(disk, base, len);
    let b = tract::ground(disk, base, n);
    assert forall|k: Seq<u8>| k.len() == 32 implies #[trigger] ix.path(b, k) == ix.path(a, k) by {
        assert forall|p: u64| #[trigger] ix.path(a, k).reads.contains(p) implies p < n by {}
        assert(trie::same_at(a, b, ix.path(a, k).reads));
        trie::law_path_depends_on_its_reads(a, b, ix.arena, ix.arena, ix.root, k, 0);
    }
    lemma_book_same(a, ix, b, ix);
}

/// What appends change leaves the committed index alone.
pub proof fn lemma_guard_step(v0: VaultView, v1: VaultView)
    requires
        v0.well(),
        v0.guarded(),
        v1.tract.plowed(&v0.tract),
        tract::kept_around(
            v0.disk,
            v1.disk,
            v0.tract.base as int,
            v0.tract.len as int,
        ),
        tract::kept_outside(
            v0.ground(),
            v1.ground(),
            v0.tract.plow as int,
            v0.tract.reach(),
        ),
        v1.top == v0.top,
        v1.shield == v0.shield,
    ensures
        v1.guarded(),
        v1.durable() == v0.durable(),
        v1.tract.plow <= v1.shield,
{
    let c = index_of(v0.head());
    let t0 = v0.ground();
    let t1 = v1.ground();
    let from = v0.tract.plow as int;
    assert(v0.tract.reach() <= v0.shield);
    keep::lemma_undisturbed(t0, t1, c, from, v0.tract.reach(), v0.shield as int);
    assert(keep::sound(t1, c)) by {
        assert forall|k: Seq<u8>| k.len() == 32 implies (#[trigger] c.path(t1, k)).sound() by {
            assert(c.path(t0, k).sound());
        }
    }
    assert forall|k: Seq<u8>, p: u64|
        k.len() == 32 && (#[trigger] c.path(t1, k).reads.contains(p)) implies p < v0.head().tract
        && p < t1.len() && !tract::in_strip(
        p as int,
        v1.tract.plow as int,
        v0.shield as int,
        t1.len() as int,
    ) by {
        assert(c.path(t0, k).reads.contains(p));
        lemma_strip_later(
            p as int,
            from,
            v1.tract.plow as int,
            v0.shield as int,
            t1.len() as int,
        );
    }
    lemma_book_same(t0, c, t1, c);
    lemma_ground_longer(
        v0.disk,
        v0.tract.base as int,
        v0.head().tract as nat,
        v0.tract.len as nat,
        c,
    );
    lemma_ground_longer(
        v1.disk,
        v0.tract.base as int,
        v0.head().tract as nat,
        v0.tract.len as nat,
        c,
    );
}

/// A position outside a strip is outside what is left of it when its beginning moves on.
pub proof fn lemma_strip_later(p: int, from: int, mid: int, to: int, len: int)
    requires
        0 <= p < len,
        from <= mid,
        !tract::in_strip(p, from, to, len),
    ensures
        !tract::in_strip(p, mid, to, len),
{
    lemma_mod_bound(p - from, len);
    lemma_mod_bound(p - mid, len);
    if to - from <= len {
        if mid <= to && tract::in_strip(p, mid, to, len) {
            tract::lemma_strip_tail(p, from, mid, to, len);
        }
    }
}

/// The paths of an index stay as they are when the tract gets longer.
pub proof fn lemma_ground_wider(disk: Seq<Seq<u8>>, base: int, n: nat, len: nat, ix: Index)
    requires
        n <= len,
        ix.wf(),
        within(tract::ground(disk, base, n), ix, n as int),
    ensures
        forall|k: Seq<u8>|
            k.len() == 32 ==> #[trigger] ix.path(tract::ground(disk, base, len), k) == ix.path(
                tract::ground(disk, base, n),
                k,
            ),
        book(tract::ground(disk, base, n), ix) == book(tract::ground(disk, base, len), ix),
{
    let a = tract::ground(disk, base, n);
    let b = tract::ground(disk, base, len);
    assert forall|k: Seq<u8>| k.len() == 32 implies #[trigger] ix.path(b, k) == ix.path(a, k) by {
        assert forall|p: u64| #[trigger] ix.path(a, k).reads.contains(p) implies p < n by {}
        assert(trie::same_at(a, b, ix.path(a, k).reads));
        trie::law_path_depends_on_its_reads(a, b, ix.arena, ix.arena, ix.root, k, 0);
    }
    lemma_book_same(a, ix, b, ix);
}

/// A disk that got longer tells of the tract what it told.
pub proof fn lemma_disk_longer(v0: VaultView, v1: VaultView)
    requires
        v0.well(),
        v0.disk.len() <= v1.disk.len(),
        forall|i: int| 0 <= i < v0.disk.len() ==> #[trigger] v1.disk[i] == v0.disk[i],
        v0.twin ==> v1.twin,
        v1 == (VaultView { disk: v1.disk, twin: v1.twin, ..v0 }),
    ensures
        v1.well(),
        v1.ground() == v0.ground(),
        v1.good() == v0.good(),
        v1.guarded() == v0.guarded(),
        v1.contents() == v0.contents(),
        v0.head().tract <= v0.tract.len ==> v1.durable() == v0.durable(),
        tended(v0, v1),
{
    assert(v1.ground() =~= v0.ground());
    if v0.head().tract <= v0.tract.len {
        assert(tract::ground(v1.disk, v0.tract.base as int, v0.head().tract as nat)
            =~= tract::ground(v0.disk, v0.tract.base as int, v0.head().tract as nat));
    }
}

/// Where a tract that grew begins to append: at its first new block.
pub proof fn lemma_new_ground(p: int, plow: int, n: int, len: int)
    requires
        0 <= p < n,
        n < len,
        plow % len == n,
        plow >= n,
    ensures
        !tract::in_strip(p, plow, plow + (len - n), len),
{
    lemma_fundamental_div_mod(plow, len);
    let q = plow / len;
    assert(p - plow == (-q - 1) * len + (p - n + len)) by (nonlinear_arith)
        requires
            plow == len * q + n,
    ;
    lemma_fundamental_div_mod_converse(p - plow, len, -q - 1, p - n + len);
}

/// An index in working order over a tract is so over the longer one, appends going to the new
/// blocks.
pub proof fn lemma_fit_wider(
    disk: Seq<Seq<u8>>,
    base: int,
    n: nat,
    len: nat,
    ix: Index,
    plow: int,
    to: int,
)
    requires
        n < len,
        ix.wf(),
        keep::sound(tract::ground(disk, base, n), ix),
        within(tract::ground(disk, base, n), ix, n as int),
        plow % (len as int) == n,
        plow >= n,
        to <= plow + (len - n),
    ensures
        keep::fit(tract::ground(disk, base, len), ix, plow, to),
        within(tract::ground(disk, base, len), ix, n as int),
        forall|m: Map<u64, Seq<u8>>|
            keep::covered(tract::ground(disk, base, n), ix, m) ==> #[trigger] keep::covered(
                tract::ground(disk, base, len),
                ix,
                m,
            ),
{
    let a = tract::ground(disk, base, n);
    let b = tract::ground(disk, base, len);
    lemma_ground_wider(disk, base, n, len, ix);
    assert forall|k: Seq<u8>| k.len() == 32 implies (#[trigger] ix.path(b, k)).sound() by {
        assert(ix.path(a, k).sound());
    }
    assert forall|k: Seq<u8>, p: u64|
        k.len() == 32 && (#[trigger] ix.path(b, k).reads.contains(p)) implies p < n && p < b.len()
        && !tract::in_strip(p as int, plow, to, b.len() as int) by {
        assert(ix.path(a, k).reads.contains(p));
        lemma_new_ground(p as int, plow, n as int, len as int);
    }
    assert forall|m: Map<u64, Seq<u8>>| keep::covered(a, ix, m) implies #[trigger] keep::covered(
        b,
        ix,
        m,
    ) by {
        let x = keep::applied(m, ix.added, ix.removed);
        assert forall|k: Seq<u8>, p: u64|
            k.len() == 32 && (#[trigger] ix.path(b, k).reads.contains(p)) implies p < b.len()
            && seal::hp_of(b[p as int]) is Some && x.contains_key(p) && Some(x[p]) == seal::hp_of(
            b[p as int],
        ) by {
            assert(ix.path(a, k).reads.contains(p));
            assert(keep::knows(a, ix, x));
            assert(b[p as int] == a[p as int]);
        }
    }
}

}
