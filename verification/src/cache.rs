//! The memoizing kernel wrapper: assigns integer identities to blocks by
//! content, caches solved 2x2 assemblies in a bounded LRU keyed by the four
//! input identities, and garbage-collects identities that the cache no
//! longer references.

use vstd::prelude::*;
use vstd::arithmetic::power2::pow2;
use crate::sim::{Block, Kernel, KernelResult};

verus! {

#[verifier::external_type_specification]
#[verifier::external_body]
#[verifier::reject_recursive_types(K)]
#[verifier::reject_recursive_types(V)]
#[verifier::reject_recursive_types(S)]
pub struct ExLruCache<K, V, S>(lru::LruCache<K, V, S>);

/// The 4-tuple of input block identities that keys the solutions cache.
pub type IdQuad = (usize, usize, usize, usize);

/// The bounded solutions cache: key 4-tuple to output identity.
pub type SolutionsLru = lru::LruCache<IdQuad, usize>;

/// What the solutions cache holds: a map from the 4-tuple of input block
/// identities to the output block identity.
pub uninterp spec fn lru_contents(
    c: SolutionsLru,
) -> Map<IdQuad, usize>;

/// The empty solutions map.
pub open spec fn no_solutions() -> Map<IdQuad, usize> {
    Map::empty()
}

/// The fixed capacity the cache was created with.
pub uninterp spec fn lru_capacity(c: SolutionsLru) -> nat;

/// Relies on `lru::LruCache::new`: builds an empty cache that holds at most
/// `cap` entries.
#[verifier::external_body]
fn lru_new(cap: usize) -> (r: SolutionsLru)
    requires
        cap >= 1,
    ensures
        lru_contents(r) == no_solutions(),
        lru_capacity(r) == cap,
{
    lru::LruCache::new(core::num::NonZeroUsize::new(cap).unwrap())
}

/// Relies on `lru::LruCache::get`: returns the entry for `k` if present,
/// and moves it to most-recently-used, which leaves the contents unchanged.
#[verifier::external_body]
fn lru_get(
    c: &mut SolutionsLru,
    k: IdQuad,
) -> (r: Option<usize>)
    ensures
        lru_contents(*final(c)) == lru_contents(*old(c)),
        lru_capacity(*final(c)) == lru_capacity(*old(c)),
        match r {
            Option::Some(v) => lru_contents(*old(c)).contains_pair(k, v),
            Option::None => !lru_contents(*old(c)).dom().contains(k),
        },
{
    c.get(&k).copied()
}

/// Relies on `lru::LruCache::put`: inserts or updates the entry for `k`,
/// returning the value it replaces; if a new entry would exceed the
/// capacity, some (the least-recently-used) entry is evicted first.
#[verifier::external_body]
fn lru_put(
    c: &mut SolutionsLru,
    k: IdQuad,
    v: usize,
) -> (r: Option<usize>)
    ensures
        lru_capacity(*final(c)) == lru_capacity(*old(c)),
        lru_contents(*old(c)).dom().contains(k) ==> lru_contents(*final(c)) == lru_contents(
            *old(c),
        ).insert(k, v) && r == Option::Some(lru_contents(*old(c))[k]),
        !lru_contents(*old(c)).dom().contains(k) && lru_contents(*old(c)).len() != lru_capacity(
            *old(c),
        ) ==> lru_contents(*final(c)) == lru_contents(*old(c)).insert(k, v) && r is None,
        !lru_contents(*old(c)).dom().contains(k) && lru_contents(*old(c)).len() == lru_capacity(
            *old(c),
        ) ==> r is None && exists|ke: IdQuad|
            #[trigger] lru_contents(*old(c)).dom().contains(ke) && lru_contents(*final(c))
                == lru_contents(*old(c)).remove(ke).insert(k, v),
{
    c.put(k, v)
}

/// Relies on `lru::LruCache::len`: the number of entries.
#[verifier::external_body]
fn lru_len(c: &SolutionsLru) -> (r: usize)
    ensures
        r == lru_contents(*c).len(),
{
    c.len()
}

/// Relies on `lru::LruCache::iter`: lists every entry (in recency order,
/// on which this contract is silent).
#[verifier::external_body]
fn lru_entries(c: &SolutionsLru) -> (r: Vec<(IdQuad, usize)>)
    ensures
        forall|i: int|
            0 <= i < r@.len() ==> lru_contents(*c).contains_pair(
                (#[trigger] r@[i]).0,
                r@[i].1,
            ),
        forall|k: IdQuad|
            #[trigger] lru_contents(*c).dom().contains(k) ==> exists|i: int|
                0 <= i < r@.len() && (#[trigger] r@[i]).0 == k,
{
    c.iter().map(|(k, v)| (*k, *v)).collect()
}

/// Capacity of the solutions cache, in entries.
pub const SOLUTIONS_CAPACITY: usize = 8888;

/// Identity-table size beyond which a cache hit triggers garbage collection.
pub const GC_THRESHOLD: usize = 10000;

/// Whether the solutions entry `(k, v)` mentions the identity `id`.
pub open spec fn quad_mentions(k: IdQuad, v: usize, id: usize) -> bool {
    k.0 == id || k.1 == id || k.2 == id || k.3 == id || v == id
}

/// Whether any listed entry mentions `id`.
pub open spec fn in_entries(es: Seq<(IdQuad, usize)>, id: usize) -> bool {
    exists|t: int| 0 <= t < es.len() && quad_mentions((#[trigger] es[t]).0, es[t].1, id)
}

/// Whether two blocks hold the same cells.
fn blocks_eq(a: &Block, b: &Block) -> (r: bool)
    ensures
        r <==> a@ == b@,
{
    let av = a.data();
    let bv = b.data();
    if av.len() != bv.len() {
        return false;
    }
    let n: usize = av.len();
    let mut i: usize = 0;
    while i < n
        invariant
            i <= n,
            n == av@.len(),
            n == bv@.len(),
            av@ == a@,
            bv@ == b@,
            forall|j: int| 0 <= j < i ==> av@[j] == bv@[j],
        decreases n - i,
    {
        if av[i] != bv[i] {
            return false;
        }
        i = i + 1;
    }
    proof {
        assert(a@ =~= b@);
    }
    true
}

/// Scan the listed entries for a mention of `id`.
fn id_in_entries(entries: &Vec<(IdQuad, usize)>, id: usize) -> (r: bool)
    ensures
        r == in_entries(entries@, id),
{
    let n: usize = entries.len();
    let mut i: usize = 0;
    while i < n
        invariant
            i <= n,
            n == entries@.len(),
            forall|t: int| 0 <= t < i ==> !quad_mentions((#[trigger] entries@[t]).0, entries@[t].1, id),
        decreases n - i,
    {
        let ((a, b, c, d), v) = entries[i];
        if a == id || b == id || c == id || d == id || v == id {
            return true;
        }
        i = i + 1;
    }
    false
}

/// The memoizing wrapper: assigns each distinct block content a small
/// integer identity, and caches the wrapped kernel's outputs in a bounded
/// LRU keyed by the 4-tuple of input identities.  It realizes exactly the
/// wrapped kernel's rule.
pub struct KernelCache<K: Kernel> {
    solutions: SolutionsLru,
    values: Vec<(usize, Block)>,
    wrap: K,
    hits: usize,
    next_idx: usize,
}

impl<K: Kernel> KernelCache<K> {
    pub closed spec fn spec_wrap(&self) -> K {
        self.wrap
    }

    pub closed spec fn spec_hits(&self) -> nat {
        self.hits as nat
    }

    /// The identity table: pairs of identity and recorded block content.
    pub closed spec fn spec_values(&self) -> Seq<(usize, Block)> {
        self.values@
    }

    /// The solutions cache, as a map.
    pub closed spec fn spec_solutions(&self) -> Map<IdQuad, usize> {
        lru_contents(self.solutions)
    }

    pub closed spec fn spec_next_idx(&self) -> nat {
        self.next_idx as nat
    }

    /// `id` has an entry in the identity table.
    pub open spec fn has_id(&self, id: usize) -> bool {
        exists|i: int|
            0 <= i < self.spec_values().len() && (#[trigger] self.spec_values()[i]).0 == id
    }

    /// The block content recorded for `id`.
    pub open spec fn content_of(&self, id: usize) -> Seq<bool> {
        (self.spec_values()[choose|i: int|
            0 <= i < self.spec_values().len() && (#[trigger] self.spec_values()[i]).0 == id].1)@
    }

    /// Identities appear in the table in strictly increasing order.
    pub open spec fn ids_strictly_sorted(&self) -> bool {
        forall|i: int, j: int|
            0 <= i < j < self.spec_values().len() ==> (#[trigger] self.spec_values()[i]).0 < (
            #[trigger] self.spec_values()[j]).0
    }

    /// Identities appear in assignment order, each below the next free one.
    pub open spec fn ids_increasing(&self) -> bool {
        &&& self.ids_strictly_sorted()
        &&& forall|i: int|
            0 <= i < self.spec_values().len() ==> (#[trigger] self.spec_values()[i]).0
                < self.spec_next_idx()
    }

    /// Distinct identities record distinct block contents.
    pub open spec fn contents_unique(&self) -> bool {
        forall|i: int, j: int|
            0 <= i < j < self.spec_values().len() ==> ((#[trigger] self.spec_values()[i]).1)@ != ((
            #[trigger] self.spec_values()[j]).1)@
    }

    /// A solutions entry is sound: all five identities are recorded and the
    /// output content is the wrapped rule applied to the input contents.
    pub open spec fn solution_entry_ok(&self, k: IdQuad, v: usize) -> bool {
        &&& self.has_id(k.0) && self.has_id(k.1) && self.has_id(k.2) && self.has_id(k.3)
        &&& self.has_id(v)
        &&& self.content_of(v) == self.spec_wrap().spec_exec(
            self.content_of(k.0),
            self.content_of(k.1),
            self.content_of(k.2),
            self.content_of(k.3),
        )
    }

    /// `id` appears somewhere in the solutions cache.
    pub open spec fn referenced(&self, id: usize) -> bool {
        exists|k: IdQuad, v: usize|
            #[trigger] self.spec_solutions().contains_pair(k, v) && quad_mentions(k, v, id)
    }

    /// Every live identity is referenced by the solutions cache: the state a
    /// garbage collection leaves behind.  (Opaque: reveal it, or use
    /// `lemma_fully_collected_unfold`, to draw on the quantifier.)
    #[verifier::opaque]
    pub open spec fn fully_collected(&self) -> bool {
        forall|id: usize| #[trigger] self.has_id(id) ==> self.referenced(id)
    }

    /// Some identity records this block content.
    pub open spec fn knows_content(&self, s: Seq<bool>) -> bool {
        exists|i: int|
            0 <= i < self.spec_values().len() && ((#[trigger] self.spec_values()[i]).1)@ == s
    }

    /// The identity recorded for a known block content.
    pub open spec fn content_id(&self, s: Seq<bool>) -> usize {
        (self.spec_values()[choose|i: int|
            0 <= i < self.spec_values().len() && ((#[trigger] self.spec_values()[i]).1)@ == s]).0
    }

    /// Whether a 2x2 assembly of these block contents probes an existing
    /// solutions entry: each content already has an identity, and the
    /// identity 4-tuple is a cached key.
    pub open spec fn probe_is_hit(
        &self,
        nw: Seq<bool>,
        ne: Seq<bool>,
        sw: Seq<bool>,
        se: Seq<bool>,
    ) -> bool {
        &&& self.knows_content(nw) && self.knows_content(ne) && self.knows_content(sw)
            && self.knows_content(se)
        &&& self.spec_solutions().dom().contains(
            (self.content_id(nw), self.content_id(ne), self.content_id(sw), self.content_id(se)),
        )
    }

    /// The content recorded for an identity is the one at its table index.
    proof fn lemma_content_at(&self, id: usize, i: int)
        requires
            self.ids_strictly_sorted(),
            0 <= i < self.spec_values().len(),
            (self.spec_values()[i]).0 == id,
        ensures
            self.has_id(id),
            self.content_of(id) == (self.spec_values()[i].1)@,
    {
        assert(self.has_id(id));
        let j = choose|j: int|
            0 <= j < self.spec_values().len() && (#[trigger] self.spec_values()[j]).0 == id;
        if i < j {
            assert((self.spec_values()[i]).0 < (self.spec_values()[j]).0);
        }
        if j < i {
            assert((self.spec_values()[j]).0 < (self.spec_values()[i]).0);
        }
    }

    /// The identity recorded for a content is the one at its table index.
    proof fn lemma_content_id_at(&self, s: Seq<bool>, i: int)
        requires
            self.contents_unique(),
            0 <= i < self.spec_values().len(),
            ((self.spec_values()[i]).1)@ == s,
        ensures
            self.knows_content(s),
            self.content_id(s) == (self.spec_values()[i]).0,
    {
        assert(self.knows_content(s));
        let j = choose|j: int|
            0 <= j < self.spec_values().len() && ((#[trigger] self.spec_values()[j]).1)@ == s;
        if i < j {
            assert(((self.spec_values()[i]).1)@ != ((self.spec_values()[j]).1)@);
        }
        if j < i {
            assert(((self.spec_values()[j]).1)@ != ((self.spec_values()[i]).1)@);
        }
    }

    /// `self`'s identity table extends `base`'s: the old entries are
    /// unchanged, and every new entry's identity is at least `base`'s next
    /// free one.
    spec fn extends(&self, base: KernelCache<K>) -> bool {
        &&& self.spec_values().len() >= base.spec_values().len()
        &&& forall|t: int|
            0 <= t < base.spec_values().len() ==> (#[trigger] self.spec_values()[t])
                == base.spec_values()[t]
        &&& forall|t: int|
            base.spec_values().len() <= t < self.spec_values().len() ==> (
            #[trigger] self.spec_values()[t]).0 >= base.spec_next_idx()
    }

    /// Extension is transitive (given the next-free identity grows).
    proof fn lemma_extends_trans(a: &KernelCache<K>, b: &KernelCache<K>, c: &KernelCache<K>)
        requires
            b.extends(*a),
            c.extends(*b),
            b.spec_next_idx() >= a.spec_next_idx(),
        ensures
            c.extends(*a),
    {
        assert forall|t: int|
            a.spec_values().len() <= t < c.spec_values().len() implies (
        #[trigger] c.spec_values()[t]).0 >= a.spec_next_idx() by {
            if t < b.spec_values().len() {
                assert(c.spec_values()[t] == b.spec_values()[t]);
                if t >= a.spec_values().len() {
                    assert(b.spec_values()[t].0 >= a.spec_next_idx());
                }
            }
        }
    }

    /// A content known to `base` stays known, under the same identity, in
    /// any extension.
    proof fn lemma_known_content_preserved(&self, base: &KernelCache<K>, s: Seq<bool>)
        requires
            self.extends(*base),
            self.contents_unique(),
            base.contents_unique(),
            base.knows_content(s),
        ensures
            self.knows_content(s),
            self.content_id(s) == base.content_id(s),
    {
        let i = choose|i: int|
            0 <= i < base.spec_values().len() && ((#[trigger] base.spec_values()[i]).1)@ == s;
        base.lemma_content_id_at(s, i);
        assert(self.spec_values()[i] == base.spec_values()[i]);
        self.lemma_content_id_at(s, i);
    }

    /// A content whose identity predates `base`'s next free one was already
    /// known to `base`, under the same identity.
    proof fn lemma_low_id_content_is_old(&self, base: &KernelCache<K>, s: Seq<bool>)
        requires
            self.extends(*base),
            self.contents_unique(),
            base.contents_unique(),
            self.knows_content(s),
            self.content_id(s) < base.spec_next_idx(),
        ensures
            base.knows_content(s),
            base.content_id(s) == self.content_id(s),
    {
        let i = choose|i: int|
            0 <= i < self.spec_values().len() && ((#[trigger] self.spec_values()[i]).1)@ == s;
        self.lemma_content_id_at(s, i);
        if i >= base.spec_values().len() {
            assert((self.spec_values()[i]).0 >= base.spec_next_idx());
        }
        assert(base.spec_values()[i] == self.spec_values()[i]);
        base.lemma_content_id_at(s, i);
    }

    /// Every live identity is below the next free one.
    proof fn lemma_id_bound(&self, id: usize)
        requires
            self.ids_increasing(),
            self.has_id(id),
        ensures
            id < self.spec_next_idx(),
    {
        let i = choose|i: int|
            0 <= i < self.spec_values().len() && (#[trigger] self.spec_values()[i]).0 == id;
    }

    /// Identity-table facts carry over between states with the same table.
    proof fn lemma_same_values(&self, other: &KernelCache<K>, id: usize)
        requires
            self.spec_values() == other.spec_values(),
            other.ids_strictly_sorted(),
            other.has_id(id),
        ensures
            self.has_id(id),
            self.content_of(id) == other.content_of(id),
    {
        assert forall|i: int, j: int| 0 <= i < j < self.spec_values().len() implies (
        #[trigger] self.spec_values()[i]).0 < (#[trigger] self.spec_values()[j]).0 by {
            assert(self.spec_values()[i] == other.spec_values()[i]);
            assert(self.spec_values()[j] == other.spec_values()[j]);
        }
        let i = choose|i: int|
            0 <= i < other.spec_values().len() && (#[trigger] other.spec_values()[i]).0 == id;
        assert(self.spec_values()[i] == other.spec_values()[i]);
        self.lemma_content_at(id, i);
        other.lemma_content_at(id, i);
    }

    /// Solutions soundness carries over between states with the same
    /// identity table whose wrapped kernels realize the same rule.
    proof fn lemma_entry_ok_transfer(&self, other: &KernelCache<K>, k: IdQuad, v: usize)
        requires
            self.spec_values() == other.spec_values(),
            other.ids_strictly_sorted(),
            other.solution_entry_ok(k, v),
            forall|a: Seq<bool>, b: Seq<bool>, c: Seq<bool>, d: Seq<bool>|
                (#[trigger] self.spec_wrap().spec_exec(a, b, c, d)) == other.spec_wrap().spec_exec(
                    a,
                    b,
                    c,
                    d,
                ),
        ensures
            self.solution_entry_ok(k, v),
    {
        self.lemma_same_values(other, k.0);
        self.lemma_same_values(other, k.1);
        self.lemma_same_values(other, k.2);
        self.lemma_same_values(other, k.3);
        self.lemma_same_values(other, v);
    }

    /// The whole invariant carries over between states with the same tables
    /// whose wrapped kernels realize the same rule.
    proof fn lemma_wf_transfer(&self, other: &KernelCache<K>)
        requires
            other.wf(),
            self.spec_values() == other.spec_values(),
            self.spec_next_idx() == other.spec_next_idx(),
            self.wrap.wf(),
            self.wrap.spec_order() == other.wrap.spec_order(),
            forall|a: Seq<bool>, b: Seq<bool>, c: Seq<bool>, d: Seq<bool>|
                (#[trigger] self.spec_wrap().spec_exec(a, b, c, d)) == other.spec_wrap().spec_exec(
                    a,
                    b,
                    c,
                    d,
                ),
            lru_contents(self.solutions) == lru_contents(other.solutions),
            lru_capacity(self.solutions) == lru_capacity(other.solutions),
        ensures
            self.wf(),
    {
        let vs = self.spec_values();
        assert forall|i: int, j: int| 0 <= i < j < vs.len() implies (#[trigger] vs[i]).0 < (
        #[trigger] vs[j]).0 by {
            assert(vs[i] == other.spec_values()[i]);
            assert(vs[j] == other.spec_values()[j]);
        }
        assert forall|i: int| 0 <= i < vs.len() implies (#[trigger] vs[i]).0
            < self.spec_next_idx() by {
            assert(vs[i] == other.spec_values()[i]);
        }
        assert forall|i: int, j: int| 0 <= i < j < vs.len() implies ((#[trigger] vs[i]).1)@ != ((
        #[trigger] vs[j]).1)@ by {
            assert(vs[i] == other.spec_values()[i]);
            assert(vs[j] == other.spec_values()[j]);
        }
        assert forall|i: int| 0 <= i < vs.len() implies ((#[trigger] vs[i]).1)@.len() == pow2(
            self.wrap.spec_order(),
        ) * pow2(self.wrap.spec_order()) by {
            assert(vs[i] == other.spec_values()[i]);
        }
        assert forall|k: IdQuad, v: usize| #[trigger] lru_contents(self.solutions).contains_pair(
            k,
            v,
        ) implies self.solution_entry_ok(k, v) by {
            assert(lru_contents(other.solutions).contains_pair(k, v));
            assert(other.solution_entry_ok(k, v));
            self.lemma_entry_ok_transfer(other, k, v);
        }
    }

    /// Build a memoizing wrapper around `wrap` with empty tables.
    pub fn new(wrap: K) -> (r: KernelCache<K>)
        requires
            wrap.wf(),
        ensures
            r.wf(),
            r.spec_wrap() == wrap,
            r.spec_hits() == 0,
            r.spec_order() == wrap.spec_order(),
            r.spec_solutions() == no_solutions(),
            r.spec_values().len() == 0,
            r.spec_solutions().len() == 0,
            r.spec_next_idx() == 0,
    {
        let solutions = lru_new(SOLUTIONS_CAPACITY);
        let r = KernelCache { solutions, values: Vec::new(), wrap, hits: 0, next_idx: 0 };
        proof {
            assert(lru_contents(r.solutions).dom() =~= Set::empty());
        }
        r
    }

    /// Number of cache hits so far.
    pub fn hits(&self) -> (r: usize)
        ensures
            r == self.spec_hits(),
    {
        self.hits
    }

    /// Number of entries in the solutions cache.
    pub fn solutions_len(&self) -> (r: usize)
        ensures
            r == self.spec_solutions().len(),
    {
        lru_len(&self.solutions)
    }

    /// Number of identities in the identity table.
    pub fn values_len(&self) -> (r: usize)
        ensures
            r == self.spec_values().len(),
    {
        self.values.len()
    }

    /// Find the identity assigned to this block content, assigning the next
    /// free identity if it has none yet.
    fn lookup_or_assign(&mut self, block: Block) -> (id: usize)
        requires
            old(self).wf(),
            old(self).spec_next_idx() < usize::MAX,
            block@.len() == pow2(old(self).spec_order()) * pow2(old(self).spec_order()),
        ensures
            final(self).wf(),
            final(self).spec_wrap() == old(self).spec_wrap(),
            final(self).spec_solutions() == old(self).spec_solutions(),
            final(self).spec_hits() == old(self).spec_hits(),
            old(self).spec_next_idx() <= final(self).spec_next_idx() <= old(self).spec_next_idx()
                + 1,
            forall|w: usize|
                #[trigger] old(self).has_id(w) ==> final(self).has_id(w) && final(self).content_of(
                    w,
                ) == old(self).content_of(w),
            final(self).has_id(id),
            final(self).content_of(id) == block@,
            final(self).knows_content(block@),
            final(self).content_id(block@) == id,
            old(self).knows_content(block@) ==> *final(self) == *old(self) && id == old(
                self,
            ).content_id(block@),
            !old(self).knows_content(block@) ==> id == old(self).spec_next_idx(),
            final(self).extends(*old(self)),
    {
        let ghost g0 = *old(self);
        let n: usize = self.values.len();
        let mut i: usize = 0;
        while i < n
            invariant
                i <= n,
                *self == g0,
                g0.wf(),
                n == g0.spec_values().len(),
                forall|j: int| 0 <= j < i ==> ((#[trigger] g0.spec_values()[j]).1)@ != block@,
            decreases n - i,
        {
            let hit = blocks_eq(&self.values[i].1, &block);
            if hit {
                let id = self.values[i].0;
                proof {
                    self.lemma_content_at(id, i as int);
                    self.lemma_content_id_at(block@, i as int);
                }
                return id;
            }
            i = i + 1;
        }
        let id = self.next_idx;
        self.next_idx = self.next_idx + 1;
        self.values.push((id, block));
        proof {
            let ghost vs = self.spec_values();
            let ghost last = vs.len() - 1;
            assert(vs == g0.spec_values().push((id, vs[last].1)));
            assert(self.ids_increasing()) by {
                assert forall|p: int, q: int| 0 <= p < q < vs.len() implies (#[trigger] vs[p]).0 < (
                #[trigger] vs[q]).0 by {
                    if q < last {
                        assert(g0.spec_values()[p].0 < g0.spec_values()[q].0);
                    } else {
                        assert(g0.spec_values()[p].0 < g0.spec_next_idx());
                    }
                }
            }
            assert(self.contents_unique()) by {
                assert forall|p: int, q: int| 0 <= p < q < vs.len() implies ((
                #[trigger] vs[p]).1)@ != ((#[trigger] vs[q]).1)@ by {
                    if q < last {
                        assert(((g0.spec_values()[p]).1)@ != ((g0.spec_values()[q]).1)@);
                    } else {
                        assert(((g0.spec_values()[p]).1)@ != block@);
                    }
                }
            }
            self.lemma_content_at(id, last);
            assert(!g0.knows_content(block@));
            self.lemma_content_id_at(block@, last);
            assert forall|w: usize| #[trigger] g0.has_id(w) implies self.has_id(w)
                && self.content_of(w) == g0.content_of(w) by {
                let wi = choose|j: int|
                    0 <= j < g0.spec_values().len() && (#[trigger] g0.spec_values()[j]).0 == w;
                self.lemma_content_at(w, wi);
                g0.lemma_content_at(w, wi);
            }
            assert forall|k: IdQuad, v: usize| #[trigger] lru_contents(
                self.solutions,
            ).contains_pair(k, v) implies self.solution_entry_ok(k, v) by {
                assert(g0.solution_entry_ok(k, v));
                assert(g0.has_id(k.0) && g0.has_id(k.1) && g0.has_id(k.2) && g0.has_id(k.3)
                    && g0.has_id(v));
            }
        }
        id
    }

    /// The block content recorded for `id`.
    fn get_value(&self, id: usize) -> (r: Block)
        requires
            self.wf(),
            self.has_id(id),
        ensures
            r@ == self.content_of(id),
    {
        let n: usize = self.values.len();
        let mut i: usize = 0;
        while i < n
            invariant
                i <= n,
                n == self.spec_values().len(),
                self.ids_increasing(),
                self.has_id(id),
                forall|j: int| 0 <= j < i ==> (#[trigger] self.spec_values()[j]).0 != id,
            decreases n - i,
        {
            if self.values[i].0 == id {
                proof {
                    self.lemma_content_at(id, i as int);
                }
                return self.values[i].1.clone();
            }
            i = i + 1;
        }
        proof {
            let wi = choose|j: int|
                0 <= j < self.spec_values().len() && (#[trigger] self.spec_values()[j]).0 == id;
            assert(false);
        }
        Block::from_data(Vec::new())
    }

    /// Drop every identity that the solutions cache no longer references.
    fn gc(&mut self)
        requires
            old(self).wf(),
        ensures
            final(self).wf(),
            final(self).spec_wrap() == old(self).spec_wrap(),
            final(self).spec_solutions() == old(self).spec_solutions(),
            final(self).spec_hits() == old(self).spec_hits(),
            final(self).spec_next_idx() == old(self).spec_next_idx(),
            forall|id: usize|
                #![trigger final(self).has_id(id), old(self).has_id(id)]
                final(self).has_id(id) ==> old(self).has_id(id) && old(self).referenced(id)
                    && final(self).content_of(id) == old(self).content_of(id),
            forall|id: usize|
                old(self).has_id(id) && #[trigger] old(self).referenced(id)
                    ==> final(self).has_id(id),
            final(self).fully_collected(),
    {
        let ghost g0 = *old(self);
        let entries = lru_entries(&self.solutions);
        let n: usize = self.values.len();
        let mut kept: Vec<(usize, Block)> = Vec::new();
        let ghost idxmap: Seq<int> = Seq::empty();
        let mut i: usize = 0;
        while i < n
            invariant
                i <= n,
                *self == g0,
                g0.wf(),
                n == g0.spec_values().len(),
                forall|t: int|
                    0 <= t < entries@.len() ==> g0.spec_solutions().contains_pair(
                        (#[trigger] entries@[t]).0,
                        entries@[t].1,
                    ),
                forall|k: IdQuad|
                    #[trigger] g0.spec_solutions().dom().contains(k) ==> exists|t: int|
                        0 <= t < entries@.len() && (#[trigger] entries@[t]).0 == k,
                idxmap.len() == kept@.len(),
                forall|t: int|
                    0 <= t < kept@.len() ==> 0 <= #[trigger] idxmap[t] < i && (kept@[t]).0
                        == g0.spec_values()[idxmap[t]].0 && ((kept@[t]).1)@ == (g0.spec_values()[
                        idxmap[t]].1)@ && in_entries(entries@, (kept@[t]).0),
                forall|t1: int, t2: int| 0 <= t1 < t2 < idxmap.len() ==> #[trigger] idxmap[t1]
                    < #[trigger] idxmap[t2],
                forall|j: int|
                    0 <= j < i && in_entries(entries@, (#[trigger] g0.spec_values()[j]).0)
                        ==> exists|t: int|
                        0 <= t < kept@.len() && #[trigger] idxmap[t] == j,
            decreases n - i,
        {
            let id = self.values[i].0;
            if id_in_entries(&entries, id) {
                let b = self.values[i].1.clone();
                let ghost kept0 = kept@;
                let ghost idx0 = idxmap;
                kept.push((id, b));
                proof {
                    idxmap = idxmap.push(i as int);
                    let last = idxmap.len() - 1;
                    assert(idxmap[last] == i as int);
                    assert((kept@[last]).0 == g0.spec_values()[i as int].0);
                    assert(((kept@[last]).1)@ == (g0.spec_values()[i as int].1)@);
                    assert forall|t: int| 0 <= t < kept@.len() implies 0 <= #[trigger] idxmap[t]
                        < i + 1 && (kept@[t]).0 == g0.spec_values()[idxmap[t]].0 && ((
                    kept@[t]).1)@ == (g0.spec_values()[idxmap[t]].1)@ && in_entries(
                        entries@,
                        (kept@[t]).0,
                    ) by {
                        if t < last {
                            assert(idxmap[t] == idx0[t]);
                            assert(kept@[t] == kept0[t]);
                        }
                    }
                    assert forall|j: int|
                        0 <= j < i + 1 && in_entries(
                            entries@,
                            (#[trigger] g0.spec_values()[j]).0,
                        ) implies exists|t: int|
                        0 <= t < kept@.len() && #[trigger] idxmap[t] == j by {
                        if j < i {
                            let t0 = choose|t: int|
                                0 <= t < kept0.len() && #[trigger] idx0[t] == j;
                            assert(idxmap[t0] == j);
                        } else {
                            assert(idxmap[last] == j);
                        }
                    }
                }
            }
            i = i + 1;
        }
        self.values = kept;
        proof {
            Self::lemma_gc_bridge(&g0, entries@);
            self.lemma_gc_ids(&g0, entries@, idxmap);
            self.lemma_gc_wf(&g0, idxmap);
            self.lemma_retained_are_referenced(&g0);
        }
    }

    /// A state whose live identities are all referenced by a solutions map
    /// it shares is fully collected.
    proof fn lemma_retained_are_referenced(&self, g0: &KernelCache<K>)
        requires
            self.spec_solutions() == g0.spec_solutions(),
            forall|id: usize| #[trigger] self.has_id(id) ==> g0.referenced(id),
        ensures
            self.fully_collected(),
    {
        reveal(KernelCache::fully_collected);
        assert forall|id: usize| #[trigger] self.has_id(id) implies self.referenced(id) by {
            assert(g0.referenced(id));
            let (k, v) = choose|k: IdQuad, v: usize|
                #[trigger] g0.spec_solutions().contains_pair(k, v) && quad_mentions(k, v, id);
            assert(self.spec_solutions().contains_pair(k, v));
        }
    }

    /// The listed entries mention exactly the identities that the
    /// solutions cache references.
    proof fn lemma_gc_bridge(g0: &KernelCache<K>, es: Seq<(IdQuad, usize)>)
        requires
            forall|t: int|
                0 <= t < es.len() ==> g0.spec_solutions().contains_pair(
                    (#[trigger] es[t]).0,
                    es[t].1,
                ),
            forall|k: IdQuad|
                #[trigger] g0.spec_solutions().dom().contains(k) ==> exists|t: int|
                    0 <= t < es.len() && (#[trigger] es[t]).0 == k,
        ensures
            forall|id: usize| #[trigger] in_entries(es, id) <==> g0.referenced(id),
    {
        assert forall|id: usize| #[trigger] in_entries(es, id) implies g0.referenced(id) by {
            let t = choose|t: int|
                0 <= t < es.len() && quad_mentions((#[trigger] es[t]).0, es[t].1, id);
            assert(g0.spec_solutions().contains_pair(es[t].0, es[t].1));
        }
        assert forall|id: usize| #[trigger] g0.referenced(id) implies in_entries(es, id) by {
            let (k, v) = choose|k: IdQuad, v: usize|
                #[trigger] g0.spec_solutions().contains_pair(k, v) && quad_mentions(k, v, id);
            let t = choose|t: int| 0 <= t < es.len() && (#[trigger] es[t]).0 == k;
            assert(g0.spec_solutions().contains_pair(es[t].0, es[t].1));
            assert(es[t].1 == v);
            assert(quad_mentions(es[t].0, es[t].1, id));
        }
    }

    /// How the collected table relates to the old one: it holds exactly the
    /// referenced identities, with their contents unchanged.
    proof fn lemma_gc_ids(&self, g0: &KernelCache<K>, es: Seq<(IdQuad, usize)>, idx: Seq<int>)
        requires
            self.next_idx == g0.next_idx,
            g0.ids_increasing(),
            idx.len() == self.spec_values().len(),
            forall|t: int|
                0 <= t < self.spec_values().len() ==> 0 <= #[trigger] idx[t]
                    < g0.spec_values().len() && (self.spec_values()[t]).0 == g0.spec_values()[
                    idx[t]].0 && ((self.spec_values()[t]).1)@ == (g0.spec_values()[idx[t]].1)@
                    && in_entries(es, (self.spec_values()[t]).0),
            forall|t1: int, t2: int| 0 <= t1 < t2 < idx.len() ==> #[trigger] idx[t1]
                < #[trigger] idx[t2],
            forall|j: int|
                0 <= j < g0.spec_values().len() && in_entries(
                    es,
                    (#[trigger] g0.spec_values()[j]).0,
                ) ==> exists|t: int| 0 <= t < idx.len() && #[trigger] idx[t] == j,
            forall|id: usize| #[trigger] in_entries(es, id) <==> g0.referenced(id),
        ensures
            self.ids_increasing(),
            forall|id: usize| #[trigger] self.has_id(id) <==> g0.has_id(id) && g0.referenced(id),
            forall|id: usize|
                #[trigger] self.has_id(id) ==> self.content_of(id) == g0.content_of(id),
    {
        let vs = self.spec_values();
        assert forall|t1: int, t2: int| 0 <= t1 < t2 < vs.len() implies (#[trigger] vs[t1]).0 < (
        #[trigger] vs[t2]).0 by {
            assert(g0.spec_values()[idx[t1]].0 < g0.spec_values()[idx[t2]].0);
        }
        assert forall|t: int| 0 <= t < vs.len() implies (#[trigger] vs[t]).0
            < self.spec_next_idx() by {
            assert(g0.spec_values()[idx[t]].0 < g0.spec_next_idx());
        }
        assert forall|id: usize| #[trigger] self.has_id(id) implies g0.has_id(id)
            && g0.referenced(id) && self.content_of(id) == g0.content_of(id) by {
            let t = choose|t: int| 0 <= t < vs.len() && (#[trigger] vs[t]).0 == id;
            self.lemma_content_at(id, t);
            g0.lemma_content_at(id, idx[t]);
            assert(in_entries(es, id));
        }
        assert forall|id: usize| g0.has_id(id) && #[trigger] g0.referenced(id) implies self.has_id(
            id,
        ) by {
            let j = choose|j: int|
                0 <= j < g0.spec_values().len() && (#[trigger] g0.spec_values()[j]).0 == id;
            assert(in_entries(es, g0.spec_values()[j].0));
            let t = choose|t: int| 0 <= t < idx.len() && #[trigger] idx[t] == j;
            assert((vs[t]).0 == id);
        }
    }

    /// The collected table satisfies the full invariant.
    proof fn lemma_gc_wf(&self, g0: &KernelCache<K>, idx: Seq<int>)
        requires
            self.wrap == g0.wrap,
            self.solutions == g0.solutions,
            self.next_idx == g0.next_idx,
            g0.wf(),
            self.ids_increasing(),
            idx.len() == self.spec_values().len(),
            forall|t: int|
                0 <= t < self.spec_values().len() ==> 0 <= #[trigger] idx[t]
                    < g0.spec_values().len() && (self.spec_values()[t]).0 == g0.spec_values()[
                    idx[t]].0 && ((self.spec_values()[t]).1)@ == (g0.spec_values()[idx[t]].1)@,
            forall|id: usize| #[trigger] self.has_id(id) <==> g0.has_id(id) && g0.referenced(id),
            forall|id: usize|
                #[trigger] self.has_id(id) ==> self.content_of(id) == g0.content_of(id),
        ensures
            self.wf(),
    {
        let vs = self.spec_values();
        assert forall|t1: int, t2: int| 0 <= t1 < t2 < vs.len() implies ((#[trigger] vs[t1]).1)@
            != ((#[trigger] vs[t2]).1)@ by {
            assert((vs[t1]).0 < (vs[t2]).0);
            if idx[t1] < idx[t2] {
                assert((g0.spec_values()[idx[t1]].1)@ != (g0.spec_values()[idx[t2]].1)@);
            }
            if idx[t2] < idx[t1] {
                assert((g0.spec_values()[idx[t2]].1)@ != (g0.spec_values()[idx[t1]].1)@);
            }
            if idx[t1] == idx[t2] {
                assert((vs[t1]).0 == (vs[t2]).0);
            }
        }
        assert forall|t: int| 0 <= t < vs.len() implies ((#[trigger] vs[t]).1)@.len() == pow2(
            self.wrap.spec_order(),
        ) * pow2(self.wrap.spec_order()) by {
            assert(((g0.spec_values()[idx[t]]).1)@.len() == pow2(g0.wrap.spec_order()) * pow2(
                g0.wrap.spec_order(),
            ));
        }
        assert forall|k: IdQuad, v: usize| #[trigger] lru_contents(self.solutions).contains_pair(
            k,
            v,
        ) implies self.solution_entry_ok(k, v) by {
            assert(g0.spec_solutions().contains_pair(k, v));
            assert(g0.solution_entry_ok(k, v));
            assert(quad_mentions(k, v, k.0) && quad_mentions(k, v, k.1) && quad_mentions(k, v, k.2)
                && quad_mentions(k, v, k.3) && quad_mentions(k, v, v));
            assert(g0.referenced(k.0) && g0.referenced(k.1) && g0.referenced(k.2) && g0.referenced(
                k.3,
            ) && g0.referenced(v));
            assert(self.has_id(k.0) && self.content_of(k.0) == g0.content_of(k.0));
            assert(self.has_id(k.1) && self.content_of(k.1) == g0.content_of(k.1));
            assert(self.has_id(k.2) && self.content_of(k.2) == g0.content_of(k.2));
            assert(self.has_id(k.3) && self.content_of(k.3) == g0.content_of(k.3));
            assert(self.has_id(v) && self.content_of(v) == g0.content_of(v));
        }
    }

    /// Answer a probe hit: bump the hit counter, garbage-collect an
    /// oversized identity table, and clone the cached output block.
    fn on_hit(&mut self, key: IdQuad, vid: usize) -> (r: Block)
        requires
            old(self).wf(),
            old(self).spec_solutions().contains_pair(key, vid),
        ensures
            final(self).wf(),
            final(self).spec_wrap() == old(self).spec_wrap(),
            final(self).spec_next_idx() == old(self).spec_next_idx(),
            final(self).spec_solutions() == old(self).spec_solutions(),
            final(self).spec_hits() == (if old(self).spec_hits() < usize::MAX {
                old(self).spec_hits() + 1
            } else {
                old(self).spec_hits()
            }),
            old(self).spec_values().len() > GC_THRESHOLD ==> final(self).fully_collected(),
            r@ == old(self).spec_wrap().spec_exec(
                old(self).content_of(key.0),
                old(self).content_of(key.1),
                old(self).content_of(key.2),
                old(self).content_of(key.3),
            ),
    {
        let ghost g0 = *old(self);
        proof {
            assert(g0.solution_entry_ok(key, vid));
        }
        if self.hits < usize::MAX {
            self.hits = self.hits + 1;
        }
        proof {
            self.lemma_wf_transfer(&g0);
        }
        let ghost g1 = *self;
        self.maybe_gc(key, vid);
        let out = self.get_value(vid);
        proof {
            g1.lemma_same_values(&g0, vid);
            assert(out@ == g0.content_of(vid));
            assert(g0.solution_entry_ok(key, vid));
        }
        out
    }

    /// Collect the identity table if it has outgrown its threshold; the
    /// entry for the probe that hit survives with its content.
    fn maybe_gc(&mut self, key: IdQuad, vid: usize)
        requires
            old(self).wf(),
            old(self).spec_solutions().contains_pair(key, vid),
        ensures
            final(self).wf(),
            final(self).spec_wrap() == old(self).spec_wrap(),
            final(self).spec_next_idx() == old(self).spec_next_idx(),
            final(self).spec_solutions() == old(self).spec_solutions(),
            final(self).spec_hits() == old(self).spec_hits(),
            final(self).has_id(vid),
            final(self).content_of(vid) == old(self).content_of(vid),
            old(self).spec_values().len() > GC_THRESHOLD ==> final(self).fully_collected(),
    {
        let ghost g1 = *old(self);
        proof {
            assert(g1.solution_entry_ok(key, vid));
        }
        if self.values.len() > GC_THRESHOLD {
            self.gc();
            proof {
                assert(quad_mentions(key, vid, vid));
                assert(g1.referenced(vid));
                assert(g1.has_id(vid));
                assert(self.has_id(vid));
                assert(self.content_of(vid) == g1.content_of(vid));
            }
        }
    }

    /// Answer a probe miss: ask the wrapped kernel, record its output under
    /// a fresh or existing identity, and insert the solved entry (evicting
    /// the least-recently-used entry if the cache is full).
    fn on_miss(&mut self, key: IdQuad, nw: Block, ne: Block, sw: Block, se: Block) -> (r: Block)
        requires
            old(self).wf(),
            old(self).spec_next_idx() < usize::MAX,
            nw@.len() == pow2(old(self).spec_order()) * pow2(old(self).spec_order()),
            ne@.len() == pow2(old(self).spec_order()) * pow2(old(self).spec_order()),
            sw@.len() == pow2(old(self).spec_order()) * pow2(old(self).spec_order()),
            se@.len() == pow2(old(self).spec_order()) * pow2(old(self).spec_order()),
            old(self).has_id(key.0) && old(self).content_of(key.0) == nw@,
            old(self).has_id(key.1) && old(self).content_of(key.1) == ne@,
            old(self).has_id(key.2) && old(self).content_of(key.2) == sw@,
            old(self).has_id(key.3) && old(self).content_of(key.3) == se@,
        ensures
            final(self).wf(),
            final(self).spec_order() == old(self).spec_order(),
            forall|a: Seq<bool>, b: Seq<bool>, c: Seq<bool>, d: Seq<bool>|
                (#[trigger] final(self).spec_wrap().spec_exec(a, b, c, d)) == old(
                    self,
                ).spec_wrap().spec_exec(a, b, c, d),
            final(self).spec_hits() == old(self).spec_hits(),
            final(self).spec_next_idx() >= old(self).spec_next_idx(),
            r@ == old(self).spec_wrap().spec_exec(nw@, ne@, sw@, se@),
    {
        let ghost g0 = *old(self);
        let ghost s_nw = nw@;
        let ghost s_ne = ne@;
        let ghost s_sw = sw@;
        let ghost s_se = se@;
        let (soln, _tag) = self.wrap.exec(nw, ne, sw, se);
        proof {
            self.lemma_wf_transfer(&g0);
            self.wrap.lemma_exec_len(s_nw, s_ne, s_sw, s_se);
        }
        let ghost g1 = *self;
        proof {
            g1.lemma_same_values(&g0, key.0);
            g1.lemma_same_values(&g0, key.1);
            g1.lemma_same_values(&g0, key.2);
            g1.lemma_same_values(&g0, key.3);
        }
        let e = self.lookup_or_assign(soln.clone());
        proof {
            assert(self.has_id(key.0) && self.content_of(key.0) == s_nw);
            assert(self.has_id(key.1) && self.content_of(key.1) == s_ne);
            assert(self.has_id(key.2) && self.content_of(key.2) == s_sw);
            assert(self.has_id(key.3) && self.content_of(key.3) == s_se);
        }
        let ghost g2 = *self;
        let _evicted = lru_put(&mut self.solutions, key, e);
        proof {
            let m0 = lru_contents(g2.solutions);
            let m1 = lru_contents(self.solutions);
            if m0.dom().contains(key) {
                vstd::set::axiom_set_insert_len(m0.dom(), key);
                assert(m1.dom() =~= m0.dom());
            } else if m0.len() != lru_capacity(g2.solutions) {
                vstd::set::axiom_set_insert_finite(m0.dom(), key);
                vstd::set::axiom_set_insert_len(m0.dom(), key);
                assert(m1.dom() =~= m0.dom().insert(key));
            } else {
                let ke = choose|ke: IdQuad|
                    #[trigger] m0.dom().contains(ke) && m1 == m0.remove(ke).insert(key, e);
                vstd::set::axiom_set_remove_finite(m0.dom(), ke);
                vstd::set::axiom_set_remove_len(m0.dom(), ke);
                vstd::set::axiom_set_insert_finite(m0.dom().remove(ke), key);
                vstd::set::axiom_set_insert_len(m0.dom().remove(ke), key);
                assert(m1.dom() =~= m0.dom().remove(ke).insert(key));
            }
            assert forall|k: IdQuad, v: usize| #[trigger] m1.contains_pair(
                k,
                v,
            ) implies self.solution_entry_ok(k, v) by {
                if k == key {
                    assert(v == e);
                    self.lemma_same_values(&g2, e);
                    self.lemma_same_values(&g2, key.0);
                    self.lemma_same_values(&g2, key.1);
                    self.lemma_same_values(&g2, key.2);
                    self.lemma_same_values(&g2, key.3);
                    assert(self.content_of(e) == soln@);
                    assert(self.content_of(key.0) == s_nw && self.content_of(key.1) == s_ne
                        && self.content_of(key.2) == s_sw && self.content_of(key.3) == s_se);
                } else {
                    assert(m0.contains_pair(k, v));
                    assert(g2.solution_entry_ok(k, v));
                    self.lemma_entry_ok_transfer(&g2, k, v);
                }
            }
        }
        soln
    }

    /// Run the wrapped rule through the memo tables: look up or assign the
    /// four input identities, probe the solutions cache, and on a miss ask
    /// the wrapped kernel and record its answer.  On a hit the counter is
    /// incremented (saturating), and an oversized identity table is garbage
    /// collected.
    ///
    /// Cache transparency: hit or miss, the result is exactly what the
    /// wrapped kernel's rule yields for these inputs.  While the identity
    /// space has headroom, the counter grows by one exactly when the four
    /// contents' identity 4-tuple was already cached (`probe_is_hit`).
    #[verifier::rlimit(100)]
    #[verifier::spinoff_prover]
    pub fn exec_cached(&mut self, nw: Block, ne: Block, sw: Block, se: Block) -> (r: (
        Block,
        KernelResult,
    ))
        requires
            old(self).wf(),
            nw@.len() == pow2(old(self).spec_order()) * pow2(old(self).spec_order()),
            ne@.len() == pow2(old(self).spec_order()) * pow2(old(self).spec_order()),
            sw@.len() == pow2(old(self).spec_order()) * pow2(old(self).spec_order()),
            se@.len() == pow2(old(self).spec_order()) * pow2(old(self).spec_order()),
        ensures
            final(self).wf(),
            final(self).spec_order() == old(self).spec_order(),
            forall|a: Seq<bool>, b: Seq<bool>, c: Seq<bool>, d: Seq<bool>|
                (#[trigger] final(self).spec_exec(a, b, c, d)) == old(self).spec_exec(a, b, c, d),
            r.0@ == old(self).spec_wrap().spec_exec(nw@, ne@, sw@, se@),
            r.1 == KernelResult::NewBlock,
            final(self).spec_hits() >= old(self).spec_hits(),
            final(self).spec_next_idx() >= old(self).spec_next_idx(),
            final(self).spec_solutions().len() <= SOLUTIONS_CAPACITY,
            old(self).spec_next_idx() + 8 < usize::MAX ==> final(self).spec_hits() == (if old(
                self,
            ).probe_is_hit(nw@, ne@, sw@, se@) && old(self).spec_hits() < usize::MAX {
                old(self).spec_hits() + 1
            } else {
                old(self).spec_hits()
            }),
            old(self).spec_next_idx() + 8 < usize::MAX && old(self).probe_is_hit(nw@, ne@, sw@, se@)
                && old(self).spec_values().len() > GC_THRESHOLD ==> final(self).fully_collected(),
    {
        let ghost g0 = *old(self);
        if self.next_idx >= usize::MAX - 8 {
            // The identity space is exhausted; answer directly, bypassing
            // the tables.
            let (out, _tag) = self.wrap.exec(nw, ne, sw, se);
            proof {
                self.lemma_wf_transfer(&g0);
            }
            return (out, KernelResult::NewBlock);
        }
        let ghost s_nw = nw@;
        let ghost s_ne = ne@;
        let ghost s_sw = sw@;
        let ghost s_se = se@;
        let a = self.lookup_or_assign(nw.clone());
        let ghost t1 = *self;
        let b = self.lookup_or_assign(ne.clone());
        let ghost t2 = *self;
        let c = self.lookup_or_assign(sw.clone());
        let ghost t3 = *self;
        let d = self.lookup_or_assign(se.clone());
        let ghost t4 = *self;
        proof {
            assert(self.content_of(a) == s_nw);
            assert(self.content_of(b) == s_ne);
            assert(self.content_of(c) == s_sw);
            assert(self.content_of(d) == s_se);
            Self::lemma_extends_trans(&g0, &t1, &t2);
            Self::lemma_extends_trans(&g0, &t2, &t3);
            Self::lemma_extends_trans(&g0, &t3, &t4);
            t4.lemma_known_content_preserved(&t1, s_nw);
            t4.lemma_known_content_preserved(&t2, s_ne);
            t4.lemma_known_content_preserved(&t3, s_sw);
            assert(t4.knows_content(s_nw) && t4.content_id(s_nw) == a);
            assert(t4.knows_content(s_ne) && t4.content_id(s_ne) == b);
            assert(t4.knows_content(s_sw) && t4.content_id(s_sw) == c);
            assert(t4.knows_content(s_se) && t4.content_id(s_se) == d);
        }
        let key = (a, b, c, d);
        let ghost g4 = *self;
        let hit = lru_get(&mut self.solutions, key);
        proof {
            self.lemma_wf_transfer(&g4);
            self.lemma_same_values(&g4, a);
            self.lemma_same_values(&g4, b);
            self.lemma_same_values(&g4, c);
            self.lemma_same_values(&g4, d);
            // The probe hits exactly when the four contents were already
            // known to the pre-call state under a cached key.
            if g0.probe_is_hit(s_nw, s_ne, s_sw, s_se) {
                t4.lemma_known_content_preserved(&g0, s_nw);
                t4.lemma_known_content_preserved(&g0, s_ne);
                t4.lemma_known_content_preserved(&g0, s_sw);
                t4.lemma_known_content_preserved(&g0, s_se);
                assert(key == (
                    g0.content_id(s_nw),
                    g0.content_id(s_ne),
                    g0.content_id(s_sw),
                    g0.content_id(s_se),
                ));
                assert(hit is Some);
            }
            if hit is Some {
                assert(g0.spec_solutions().contains_pair(key, hit.unwrap()));
                assert(g0.solution_entry_ok(key, hit.unwrap()));
                g0.lemma_id_bound(key.0);
                g0.lemma_id_bound(key.1);
                g0.lemma_id_bound(key.2);
                g0.lemma_id_bound(key.3);
                t4.lemma_low_id_content_is_old(&g0, s_nw);
                t4.lemma_low_id_content_is_old(&g0, s_ne);
                t4.lemma_low_id_content_is_old(&g0, s_sw);
                t4.lemma_low_id_content_is_old(&g0, s_se);
                assert(g0.probe_is_hit(s_nw, s_ne, s_sw, s_se));
            }
        }
        match hit {
            Option::Some(vid) => {
                proof {
                    assert(t4 == g0);
                    assert(self.spec_values() == g0.spec_values() && self.spec_hits()
                        == g0.spec_hits() && self.spec_next_idx() == g0.spec_next_idx());
                }
                let out = self.on_hit(key, vid);
                (out, KernelResult::NewBlock)
            },
            Option::None => {
                let out = self.on_miss(key, nw, ne, sw, se);
                (out, KernelResult::NewBlock)
            },
        }
    }
}

impl<K: Kernel> Kernel for KernelCache<K> {
    /// The tables are sound: identities are unique, contents are unique and
    /// correctly sized, and every solutions entry records exactly what the
    /// wrapped rule yields for its inputs, within the fixed capacity.
    closed spec fn wf(&self) -> bool {
        &&& self.wrap.wf()
        &&& self.ids_increasing()
        &&& self.contents_unique()
        &&& (forall|i: int|
            0 <= i < self.values@.len() ==> ((#[trigger] self.values@[i]).1)@.len() == pow2(
                self.wrap.spec_order(),
            ) * pow2(self.wrap.spec_order()))
        &&& lru_capacity(self.solutions) == SOLUTIONS_CAPACITY
        &&& lru_contents(self.solutions).dom().finite()
        &&& lru_contents(self.solutions).len() <= SOLUTIONS_CAPACITY
        &&& (forall|k: IdQuad, v: usize|
            #[trigger] lru_contents(self.solutions).contains_pair(k, v)
                ==> self.solution_entry_ok(k, v))
    }

    closed spec fn spec_order(&self) -> nat {
        self.wrap.spec_order()
    }

    /// The wrapper realizes exactly the wrapped kernel's rule.
    open spec fn spec_exec(&self, nw: Seq<bool>, ne: Seq<bool>, sw: Seq<bool>, se: Seq<bool>) -> Seq<
        bool,
    > {
        self.spec_wrap().spec_exec(nw, ne, sw, se)
    }

    proof fn lemma_wf_bounds(&self) {
        self.wrap.lemma_wf_bounds();
    }

    proof fn lemma_exec_len(&self, nw: Seq<bool>, ne: Seq<bool>, sw: Seq<bool>, se: Seq<bool>) {
        self.wrap.lemma_exec_len(nw, ne, sw, se);
    }

    fn order(&self) -> (r: usize) {
        self.wrap.order()
    }

    /// The trait-level entry point carries the memoizer's own guarantees
    /// too: an exact tag, transparency to the wrapped rule, the saturating
    /// hit count (exact while the identity space has headroom), monotone
    /// identity assignment, the capacity bound, and a fully collected table
    /// after a hit that triggered garbage collection.
    fn exec(&mut self, nw: Block, ne: Block, sw: Block, se: Block) -> (r: (Block, KernelResult))
        ensures
            r.0@ == old(self).spec_wrap().spec_exec(nw@, ne@, sw@, se@),
            r.1 == KernelResult::NewBlock,
            final(self).spec_hits() >= old(self).spec_hits(),
            final(self).spec_next_idx() >= old(self).spec_next_idx(),
            final(self).spec_solutions().len() <= SOLUTIONS_CAPACITY,
            old(self).spec_next_idx() + 8 < usize::MAX ==> final(self).spec_hits() == (if old(
                self,
            ).probe_is_hit(nw@, ne@, sw@, se@) && old(self).spec_hits() < usize::MAX {
                old(self).spec_hits() + 1
            } else {
                old(self).spec_hits()
            }),
            old(self).spec_next_idx() + 8 < usize::MAX && old(self).probe_is_hit(nw@, ne@, sw@, se@)
                && old(self).spec_values().len() > GC_THRESHOLD ==> final(self).fully_collected(),
    {
        self.exec_cached(nw, ne, sw, se)
    }
}

/// Cache transparency: wrapping a kernel with the memoizer yields the same
/// rule — the same output block for every input assembly.
pub proof fn lemma_cache_transparent<K: Kernel>(
    c: &KernelCache<K>,
    nw: Seq<bool>,
    ne: Seq<bool>,
    sw: Seq<bool>,
    se: Seq<bool>,
)
    ensures
        c.spec_exec(nw, ne, sw, se) == c.spec_wrap().spec_exec(nw, ne, sw, se),
{
}

/// Reachability: every identity that the solutions cache mentions — as a
/// key component or as an output — has an entry in the identity table.
pub proof fn lemma_solutions_reachable<K: Kernel>(c: &KernelCache<K>, k: IdQuad, v: usize)
    requires
        c.wf(),
        c.spec_solutions().contains_pair(k, v),
    ensures
        c.has_id(k.0) && c.has_id(k.1) && c.has_id(k.2) && c.has_id(k.3) && c.has_id(v),
{
}

/// The identity table is one-to-one: identities are strictly sorted (hence
/// unique) and no two of them record the same block content.
pub proof fn lemma_table_one_to_one<K: Kernel>(c: &KernelCache<K>)
    requires
        c.wf(),
    ensures
        c.ids_strictly_sorted(),
        c.contents_unique(),
{
}

/// Identities are assigned monotonically: every live identity lies below
/// the next free one (which starts at zero and never decreases).
pub proof fn lemma_live_id_bound<K: Kernel>(c: &KernelCache<K>, id: usize)
    requires
        c.wf(),
        c.has_id(id),
    ensures
        id < c.spec_next_idx(),
{
    let i = choose|i: int|
        0 <= i < c.spec_values().len() && (#[trigger] c.spec_values()[i]).0 == id;
}

/// Each live identity's recorded content is known under exactly that
/// identity.
pub proof fn lemma_id_to_content<K: Kernel>(c: &KernelCache<K>, id: usize)
    requires
        c.wf(),
        c.has_id(id),
    ensures
        c.knows_content(c.content_of(id)),
        c.content_id(c.content_of(id)) == id,
{
    let i = choose|i: int|
        0 <= i < c.spec_values().len() && (#[trigger] c.spec_values()[i]).0 == id;
    c.lemma_content_at(id, i);
    c.lemma_content_id_at(c.content_of(id), i);
}

/// Each known content's identity is live and records exactly that content:
/// with `lemma_id_to_content`, live identities and known contents
/// correspond one to one.
pub proof fn lemma_content_to_id<K: Kernel>(c: &KernelCache<K>, s: Seq<bool>)
    requires
        c.wf(),
        c.knows_content(s),
    ensures
        c.has_id(c.content_id(s)),
        c.content_of(c.content_id(s)) == s,
{
    let i = choose|i: int|
        0 <= i < c.spec_values().len() && ((#[trigger] c.spec_values()[i]).1)@ == s;
    c.lemma_content_id_at(s, i);
    c.lemma_content_at(c.spec_values()[i].0, i);
}

/// Distinct live identities record distinct block contents.
pub proof fn lemma_distinct_ids_distinct_contents<K: Kernel>(
    c: &KernelCache<K>,
    id1: usize,
    id2: usize,
)
    requires
        c.wf(),
        c.has_id(id1),
        c.has_id(id2),
        id1 != id2,
    ensures
        c.content_of(id1) != c.content_of(id2),
{
    let i1 = choose|i: int|
        0 <= i < c.spec_values().len() && (#[trigger] c.spec_values()[i]).0 == id1;
    let i2 = choose|i: int|
        0 <= i < c.spec_values().len() && (#[trigger] c.spec_values()[i]).0 == id2;
    c.lemma_content_at(id1, i1);
    c.lemma_content_at(id2, i2);
    if i1 < i2 {
        assert(((c.spec_values()[i1]).1)@ != ((c.spec_values()[i2]).1)@);
    }
    if i2 < i1 {
        assert(((c.spec_values()[i2]).1)@ != ((c.spec_values()[i1]).1)@);
    }
}

/// What a fully collected table means: every live identity is referenced by
/// the solutions cache — no unreachable identity remains.
pub proof fn lemma_fully_collected_unfold<K: Kernel>(c: &KernelCache<K>, id: usize)
    requires
        c.fully_collected(),
        c.has_id(id),
    ensures
        c.referenced(id),
{
    reveal(KernelCache::fully_collected);
}

} // verus!
