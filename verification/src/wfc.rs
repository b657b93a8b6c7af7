use vstd::prelude::*;
use crate::domain::{Domain, count_true, mask_below};
use crate::entropy::{entropy_key, entropy_num, domain_total, sum_weights, MAX_WEIGHT_TOTAL};
use crate::freq::{
    BuildError, FrequencyTable, occ_count, lemma_sum_weights_le_sum_counts, masked_total,
    weighted_pick,
};

verus! {

/// Relies on rand::random_range over `0..n`: a uniform draw below `n` from
/// the thread's generator; it panics only on an empty range, which the
/// precondition excludes.
#[verifier::external_body]
fn rand_below(n: u64) -> (r: u64)
    requires
        1 <= n,
    ensures
        r < n,
{
    rand::random_range(0..n)
}

/// A fault found while observing.
#[derive(Clone, Debug, PartialEq, Eq)]
pub enum StepError {
    /// Propagation emptied the listed locations' possibility sets.
    Contradiction(Vec<(usize, usize)>),
    /// No undetermined location remains to collapse.
    NothingToCollapse,
}

/// An adjacency rule bound to one item: when that item is possible at a
/// location, the rule emits pairs of a neighboring location and an item
/// permitted there.  Grid adjacency, graphs, and rotation-aware tile sets
/// all implement this one contract.
pub trait Relation: Sized {
    /// The pairs the rule emits at `at`.
    spec fn spec_related(&self, at: (usize, usize)) -> Seq<((usize, usize), usize)>;

    /// Computes the emitted pairs.
    fn related(&self, at: (usize, usize)) -> (out: Vec<((usize, usize), usize)>)
        ensures
            out@ == self.spec_related(at),
    ;
}

/// The sum of the sizes of the first `i` domains.
pub open spec fn total_sizes(doms: Seq<Domain>, i: int) -> int
    decreases i,
{
    if i <= 0 {
        0
    } else {
        total_sizes(doms, i - 1) + count_true(doms[i - 1]@)
    }
}

/// How many of the first `i` domains are determined (hold exactly one item).
pub open spec fn n_determined(doms: Seq<Domain>, i: int) -> int
    decreases i,
{
    if i <= 0 {
        0
    } else {
        n_determined(doms, i - 1) + (if count_true(doms[i - 1]@) == 1 {
            1int
        } else {
            0int
        })
    }
}

pub proof fn lemma_total_sizes_nonneg(doms: Seq<Domain>, i: int)
    ensures
        total_sizes(doms, i) >= 0,
    decreases i,
{
    if i > 0 {
        lemma_total_sizes_nonneg(doms, i - 1);
    }
}

pub proof fn lemma_total_sizes_update(doms: Seq<Domain>, j: int, d: Domain, i: int)
    requires
        0 <= j < doms.len(),
        i <= doms.len(),
    ensures
        total_sizes(doms.update(j, d), i) == total_sizes(doms, i) + (if j < i {
            count_true(d@) - count_true(doms[j]@)
        } else {
            0
        }),
    decreases i,
{
    if i > 0 {
        lemma_total_sizes_update(doms, j, d, i - 1);
    }
}

/// Comparing entropy keys as fractions is transitive: if `a_j/t_j` lies
/// strictly below `a_b/t_b`, which lies at or below `a_q/t_q`, then
/// `a_j/t_j` lies strictly below `a_q/t_q`.
proof fn lemma_key_trans(a_j: int, t_j: int, a_b: int, t_b: int, a_q: int, t_q: int)
    requires
        a_j * t_b < a_b * t_j,
        a_b * t_q <= a_q * t_b,
        t_j >= 1,
        t_b >= 1,
        t_q >= 1,
        a_j >= 0,
        a_b >= 0,
        a_q >= 0,
    ensures
        a_j * t_q < a_q * t_j,
{
    assert((a_j * t_b) * t_q < (a_b * t_j) * t_q) by (nonlinear_arith)
        requires
            a_j * t_b < a_b * t_j,
            t_q >= 1;
    assert((a_b * t_q) * t_j <= (a_q * t_b) * t_j) by (nonlinear_arith)
        requires
            a_b * t_q <= a_q * t_b,
            t_j >= 1;
    assert((a_b * t_j) * t_q == (a_b * t_q) * t_j) by (nonlinear_arith);
    assert((a_j * t_q) * t_b < (a_q * t_j) * t_b) by (nonlinear_arith)
        requires
            (a_j * t_b) * t_q < (a_q * t_b) * t_j;
    assert(a_j * t_q < a_q * t_j) by (nonlinear_arith)
        requires
            (a_j * t_q) * t_b < (a_q * t_j) * t_b,
            t_b >= 1;
}

/// Some rule in `rels` emits the pair `(n, t)` at source location `src`.
pub open spec fn rels_emit<R: Relation>(
    rels: Seq<R>,
    src: (usize, usize),
    n: (usize, usize),
    t: int,
) -> bool {
    exists|k: int, p: int|
        {
            &&& 0 <= k < rels.len()
            &&& 0 <= p < rels[k].spec_related(src).len()
            &&& (#[trigger] rels[k].spec_related(src)[p]).0 == n
            &&& rels[k].spec_related(src)[p].1 == t
        }
}

/// Some rule in `rels` emits some pair targeting `n` at source `src`.
pub open spec fn rels_target<R: Relation>(rels: Seq<R>, src: (usize, usize), n: (usize, usize)) -> bool {
    exists|k: int, p: int|
        {
            &&& 0 <= k < rels.len()
            &&& 0 <= p < rels[k].spec_related(src).len()
            &&& (#[trigger] rels[k].spec_related(src)[p]).0 == n
        }
}

/// Pair `(n, t)` occurs in a list of emitted effects.
pub open spec fn pair_in(s: Seq<((usize, usize), usize)>, n: (usize, usize), t: int) -> bool {
    exists|p: int| 0 <= p < s.len() && (#[trigger] s[p]).0 == n && s[p].1 == t
}

/// Some pair targeting location `n` occurs in a list of emitted effects.
pub open spec fn loc_in_pairs(s: Seq<((usize, usize), usize)>, n: (usize, usize)) -> bool {
    exists|p: int| 0 <= p < s.len() && (#[trigger] s[p]).0 == n
}

/// Index `x` occurs in the list.
pub open spec fn idx_listed(s: Seq<usize>, x: int) -> bool {
    exists|k: int| 0 <= k < s.len() && s[k] == x
}

/// An index stays listed when the list grows at the end.
proof fn lemma_idx_listed_grow(s1: Seq<usize>, s2: Seq<usize>, x: int)
    requires
        s1.len() <= s2.len(),
        forall|k: int| 0 <= k < s1.len() ==> s2[k] == s1[k],
        idx_listed(s1, x),
    ensures
        idx_listed(s2, x),
{
    let k = choose|k: int| 0 <= k < s1.len() && s1[k] == x;
    assert(s2[k] == s1[k]);
}

/// Location `l` occurs in the list.
pub open spec fn loc_listed(s: Seq<(usize, usize)>, l: (usize, usize)) -> bool {
    exists|k: int| 0 <= k < s.len() && s[k] == l
}

/// A location stays listed when the list grows at the end.
proof fn lemma_loc_listed_grow(s1: Seq<(usize, usize)>, s2: Seq<(usize, usize)>, l: (usize, usize))
    requires
        s1.len() <= s2.len(),
        forall|k: int| 0 <= k < s1.len() ==> s2[k] == s1[k],
        loc_listed(s1, l),
    ensures
        loc_listed(s2, l),
{
    let k = choose|k: int| 0 <= k < s1.len() && s1[k] == l;
    assert(s2[k] == s1[k]);
}

/// A pair stays listed when the list grows at the end.
proof fn lemma_pair_in_grow(
    s1: Seq<((usize, usize), usize)>,
    s2: Seq<((usize, usize), usize)>,
    n: (usize, usize),
    t: int,
)
    requires
        s1.len() <= s2.len(),
        forall|p: int| 0 <= p < s1.len() ==> s2[p] == s1[p],
        pair_in(s1, n, t),
    ensures
        pair_in(s2, n, t),
{
    let p = choose|p: int| 0 <= p < s1.len() && (#[trigger] s1[p]).0 == n && s1[p].1 == t;
    assert(s2[p] == s1[p]);
    assert((s2[p]).0 == n && s2[p].1 == t);
}

/// Whether index `x` occurs in the vector.
fn idx_in(v: &Vec<usize>, x: usize) -> (r: bool)
    ensures
        r == idx_listed(v@, x as int),
{
    let n = v.len();
    let mut k: usize = 0;
    while k < n
        invariant
            k <= n,
            n == v@.len(),
            forall|q: int| 0 <= q < k ==> v@[q] != x,
        decreases n - k,
    {
        if v[k] == x {
            return true;
        }
        k = k + 1;
    }
    false
}

/// The index of location `x` in the vector, if any.
fn loc_pos(v: &Vec<(usize, usize)>, x: (usize, usize)) -> (r: Option<usize>)
    ensures
        r matches Some(q) ==> q < v@.len() && v@[q as int] == x,
        r is None ==> forall|q: int| 0 <= q < v@.len() ==> v@[q] != x,
{
    let n = v.len();
    let mut k: usize = 0;
    while k < n
        invariant
            k <= n,
            n == v@.len(),
            forall|q: int| 0 <= q < k ==> v@[q] != x,
        decreases n - k,
    {
        let e = v[k];
        if e.0 == x.0 && e.1 == x.1 {
            return Some(k);
        }
        k = k + 1;
    }
    None
}

/// Folds a list of emitted pairs into one membership mask per distinct
/// target location: bit `t` of a target's mask is set exactly when some
/// pair `(target, t)` with `t` inside the universe was emitted.
fn build_effect_masks(pairs: &Vec<((usize, usize), usize)>, m: usize) -> (r: (
    Vec<(usize, usize)>,
    Vec<Vec<bool>>,
))
    ensures
        r.0@.len() == r.1@.len(),
        forall|q: int| 0 <= q < r.1@.len() ==> (#[trigger] r.1@[q])@.len() == m,
        forall|q1: int, q2: int| 0 <= q1 < r.0@.len() && 0 <= q2 < r.0@.len() && q1 != q2
            ==> r.0@[q1] != r.0@[q2],
        forall|q: int, t: int|
            0 <= q < r.0@.len() && 0 <= t < m ==> ((#[trigger] r.1@[q]@[t]) <==> pair_in(
                pairs@,
                r.0@[q],
                t,
            )),
        forall|p: int| 0 <= p < pairs@.len() ==> loc_listed(r.0@, (#[trigger] pairs@[p]).0),
        forall|q: int| 0 <= q < r.0@.len() ==> loc_in_pairs(pairs@, #[trigger] r.0@[q]),
{
    let np = pairs.len();
    let mut eff_locs: Vec<(usize, usize)> = Vec::new();
    let mut p: usize = 0;
    while p < np
        invariant
            p <= np,
            np == pairs@.len(),
            forall|q1: int, q2: int|
                0 <= q1 < eff_locs@.len() && 0 <= q2 < eff_locs@.len() && q1 != q2
                    ==> eff_locs@[q1] != eff_locs@[q2],
            forall|p2: int| 0 <= p2 < p ==> loc_listed(eff_locs@, (#[trigger] pairs@[p2]).0),
            forall|q: int| 0 <= q < eff_locs@.len() ==> loc_in_pairs(pairs@, #[trigger] eff_locs@[q]),
        decreases np - p,
    {
        let target = pairs[p].0;
        let ghost prev = eff_locs@;
        match loc_pos(&eff_locs, target) {
            Some(q0) => {
                proof {
                    assert(eff_locs@[q0 as int] == target);
                }
            },
            None => {
                eff_locs.push(target);
                proof {
                    assert(eff_locs@[eff_locs@.len() - 1] == target);
                    assert(loc_in_pairs(pairs@, target)) by {
                        assert((pairs@[p as int]).0 == target);
                    }
                    assert forall|p2: int| 0 <= p2 < p implies loc_listed(
                        eff_locs@,
                        (#[trigger] pairs@[p2]).0,
                    ) by {
                        lemma_loc_listed_grow(prev, eff_locs@, (pairs@[p2]).0);
                    }
                }
            },
        }
        proof {
            assert(loc_listed(eff_locs@, (pairs@[p as int]).0));
        }
        p = p + 1;
    }
    let nq = eff_locs.len();
    let mut eff_masks: Vec<Vec<bool>> = Vec::new();
    let mut q: usize = 0;
    while q < nq
        invariant
            q <= nq,
            np == pairs@.len(),
            nq == eff_locs@.len(),
            forall|p2: int| 0 <= p2 < np ==> loc_listed(eff_locs@, (#[trigger] pairs@[p2]).0),
            forall|q2: int| 0 <= q2 < eff_locs@.len() ==> loc_in_pairs(
                pairs@,
                #[trigger] eff_locs@[q2],
            ),
            forall|q1: int, q2: int|
                0 <= q1 < eff_locs@.len() && 0 <= q2 < eff_locs@.len() && q1 != q2
                    ==> eff_locs@[q1] != eff_locs@[q2],
            eff_masks@.len() == q,
            forall|q2: int| 0 <= q2 < q ==> (#[trigger] eff_masks@[q2])@.len() == m,
            forall|q2: int, t: int|
                0 <= q2 < q && 0 <= t < m ==> ((#[trigger] eff_masks@[q2]@[t]) <==> pair_in(
                    pairs@,
                    eff_locs@[q2],
                    t,
                )),
        decreases nq - q,
    {
        let target = eff_locs[q];
        let mut mask: Vec<bool> = Vec::new();
        let mut t: usize = 0;
        while t < m
            invariant
                t <= m,
                mask@.len() == t,
                forall|t2: int| 0 <= t2 < t ==> !(#[trigger] mask@[t2]),
            decreases m - t,
        {
            mask.push(false);
            t = t + 1;
        }
        let mut p: usize = 0;
        while p < np
            invariant
                p <= np,
                np == pairs@.len(),
                mask@.len() == m,
                forall|t2: int|
                    0 <= t2 < m ==> ((#[trigger] mask@[t2]) <==> pair_in(
                        pairs@.take(p as int),
                        target,
                        t2,
                    )),
            decreases np - p,
        {
            let ghost prefix = pairs@.take(p as int);
            let e = pairs[p];
            if e.0.0 == target.0 && e.0.1 == target.1 && e.1 < m {
                mask.set(e.1, true);
            }
            proof {
                let next = pairs@.take(p + 1);
                assert(next.drop_last() =~= prefix);
                assert(next.last() == pairs@[p as int]);
                assert forall|t2: int| 0 <= t2 < m implies ((#[trigger] mask@[t2]) <==> pair_in(
                    next,
                    target,
                    t2,
                )) by {
                    if pair_in(next, target, t2) {
                        let w = choose|w: int|
                            0 <= w < next.len() && (#[trigger] next[w]).0 == target && next[w].1
                                == t2;
                        if w < p {
                            assert(prefix[w] == next[w]);
                            assert(pair_in(prefix, target, t2));
                        }
                    }
                    if mask@[t2] {
                        if !(pairs@[p as int].0 == target && pairs@[p as int].1 == t2) {
                            assert(pair_in(prefix, target, t2));
                            let w = choose|w: int|
                                0 <= w < prefix.len() && (#[trigger] prefix[w]).0 == target
                                    && prefix[w].1 == t2;
                            assert(next[w] == prefix[w]);
                            assert(pair_in(next, target, t2));
                        } else {
                            assert(pair_in(next, target, t2));
                        }
                    }
                }
            }
            p = p + 1;
        }
        proof {
            assert(pairs@.take(np as int) =~= pairs@);
        }
        eff_masks.push(mask);
        q = q + 1;
    }
    (eff_locs, eff_masks)
}

/// The generic collapse engine: a possibility store over a fixed set of
/// locations, a frequency model over an item universe, per-item adjacency
/// rules, and a cache of entropy keys guiding which location collapses next.
///
/// Locations are pairs of coordinates; items are indices `0 .. m` into the
/// universe, whose size `m` is the length of the relation table.
pub struct WaveFunctionCollapse<R> {
    locs: Vec<(usize, usize)>,
    domains: Vec<Domain>,
    relations: Vec<Vec<R>>,
    frequencies: FrequencyTable,
    entropy_cache: Vec<(u64, u64)>,
}

impl<R: Relation> WaveFunctionCollapse<R> {
    /// The number of tracked locations.
    pub closed spec fn spec_n(self) -> int {
        self.locs@.len() as int
    }

    /// The size of the item universe.
    pub closed spec fn spec_m(self) -> int {
        self.relations@.len() as int
    }

    /// The location at store index `j`.
    pub closed spec fn loc_at(self, j: int) -> (usize, usize) {
        self.locs@[j]
    }

    /// The possibility mask of the location at store index `j`.
    pub closed spec fn dom_at(self, j: int) -> Seq<bool> {
        self.domains@[j]@
    }

    /// Whether item `i` is still possible at store index `j`.
    pub open spec fn possible(self, j: int, i: int) -> bool {
        self.dom_at(j)[i]
    }

    /// The size of the possibility set at store index `j`.
    pub open spec fn size_at(self, j: int) -> nat {
        count_true(self.dom_at(j))
    }

    /// The occurrence counts of the frequency model.
    pub closed spec fn freq_at(self, i: int) -> int {
        self.frequencies@[i] as int
    }

    /// The total occurrence count of the frequency model.
    pub closed spec fn freq_total(self) -> int {
        self.frequencies.spec_total()
    }

    /// The relation lists, indexed by item.
    pub closed spec fn rels_at(self, i: int) -> Seq<R> {
        self.relations@[i]@
    }

    /// The occurrence counts of the frequency model, as one sequence.
    pub closed spec fn freq_seq(self) -> Seq<u64> {
        self.frequencies@
    }

    /// The number of determined locations.
    pub closed spec fn spec_num_determined(self) -> int {
        n_determined(self.domains@, self.spec_n())
    }

    /// Whether `l` is a tracked location.
    pub open spec fn tracks(self, l: (usize, usize)) -> bool {
        exists|j: int| 0 <= j < self.spec_n() && self.loc_at(j) == l
    }

    /// The entropy cache entry of an undetermined location is its exact
    /// entropy key.
    pub closed spec fn cache_ok_at(self, j: int) -> bool {
        self.size_at(j) > 1 ==> {
            &&& self.entropy_cache@[j].0 == entropy_num(self.dom_at(j), self.frequencies@)
            &&& self.entropy_cache@[j].1 == domain_total(self.dom_at(j), self.frequencies@)
        }
    }

    /// Well-formedness of everything but the entropy cache.
    spec fn store_ok(self) -> bool {
        &&& self.frequencies.inv()
        &&& self.frequencies@.len() == self.relations@.len()
        &&& self.domains@.len() == self.locs@.len()
        &&& self.entropy_cache@.len() == self.locs@.len()
        &&& forall|j: int| 0 <= j < self.spec_n() ==> (#[trigger] self.domains@[j]).inv()
        &&& forall|j: int| 0 <= j < self.spec_n() ==> (#[trigger] self.domains@[j])@.len()
            == self.spec_m()
        &&& forall|j1: int, j2: int|
            0 <= j1 < self.spec_n() && 0 <= j2 < self.spec_n() && j1 != j2
                ==> self.loc_at(j1) != self.loc_at(j2)
    }

    /// Well-formedness of the whole engine.
    pub closed spec fn wf(self) -> bool {
        &&& self.store_ok()
        &&& forall|j: int| 0 <= j < self.spec_n() ==> #[trigger] self.cache_ok_at(j)
    }

    /// Under possibility mask `d` at the location of store index `j`, some
    /// still-possible item emits `(n, t)`: item `t` is permitted at `n`.
    pub open spec fn allows(self, j: int, d: Seq<bool>, n: (usize, usize), t: int) -> bool {
        exists|i: int|
            0 <= i < self.spec_m() && d[i] && #[trigger] rels_emit(
                self.rels_at(i),
                self.loc_at(j),
                n,
                t,
            )
    }

    /// Under possibility mask `d` at the location of store index `j`, some
    /// still-possible item emits some restriction on location `n`.
    pub open spec fn targets(self, j: int, d: Seq<bool>, n: (usize, usize)) -> bool {
        exists|i: int|
            0 <= i < self.spec_m() && d[i] && #[trigger] rels_target(
                self.rels_at(i),
                self.loc_at(j),
                n,
            )
    }

    /// The pair of store indices `j -> j2` is arc-consistent: if the items
    /// possible at `j` restrict `j2` at all, then everything possible at
    /// `j2` is permitted by some item possible at `j`.
    pub open spec fn arc_ok(self, j: int, j2: int) -> bool {
        self.targets(j, self.dom_at(j), self.loc_at(j2)) ==> forall|t: int|
            0 <= t < self.spec_m() && #[trigger] self.possible(j2, t) ==> self.allows(
                j,
                self.dom_at(j),
                self.loc_at(j2),
                t,
            )
    }

    /// Every item that disappeared between the entry state `o` and `self`
    /// is accounted for by propagation: some source location, at a
    /// possibility set lying between its final and entry sets, restricted
    /// the removed item's cell without permitting the item.  Rules and
    /// locations agree between the two states.
    pub open spec fn removals_supported(self, o: Self) -> bool {
        forall|j: int, t: int|
            0 <= j < self.spec_n() && 0 <= t < self.spec_m() && o.possible(j, t) && !(
            #[trigger] self.possible(j, t)) ==> exists|j2: int, d: Seq<bool>|
                {
                    &&& 0 <= j2 < self.spec_n()
                    &&& #[trigger] mask_below(self.dom_at(j2), d)
                    &&& mask_below(d, o.dom_at(j2))
                    &&& o.targets(j2, d, o.loc_at(j))
                    &&& !o.allows(j2, d, o.loc_at(j), t)
                }
    }

    /// Facts that every well-formed engine offers its callers: the store
    /// and frequency shapes, the two views of the frequency model agreeing,
    /// every weight positive, and every domain's total weight inside the
    /// arithmetic bound — enough to apply the public entropy lemmas to
    /// `shannon_entropy_at`'s result.
    pub proof fn lemma_wf(self)
        requires
            self.wf(),
        ensures
            self.spec_m() >= 1,
            forall|j: int| 0 <= j < self.spec_n() ==> #[trigger] self.dom_at(j).len()
                == self.spec_m(),
            self.freq_seq().len() == self.spec_m(),
            forall|i: int| 0 <= i < self.spec_m() ==> #[trigger] self.freq_at(i)
                == self.freq_seq()[i],
            forall|i: int| 0 <= i < self.spec_m() ==> #[trigger] self.freq_seq()[i] >= 1,
            1 <= self.freq_total() <= MAX_WEIGHT_TOTAL,
            self.freq_total() == crate::freq::sum_counts(self.freq_seq(), self.spec_m()),
            forall|j: int| 0 <= j < self.spec_n() ==> #[trigger] domain_total(
                self.dom_at(j),
                self.freq_seq(),
            ) <= self.freq_total(),
    {
        self.frequencies.lemma_inv();
        assert forall|j: int| 0 <= j < self.spec_n() implies #[trigger] self.dom_at(j).len()
            == self.spec_m() by {
            assert(self.domains@[j]@.len() == self.spec_m());
        }
        assert forall|i: int| 0 <= i < self.spec_m() implies #[trigger] self.freq_seq()[i]
            >= 1 by {
            assert(self.frequencies@[i] >= 1);
        }
        assert forall|j: int| 0 <= j < self.spec_n() implies #[trigger] domain_total(
            self.dom_at(j),
            self.freq_seq(),
        ) <= self.freq_total() by {
            assert(self.dom_at(j).len() == self.spec_m());
            lemma_sum_weights_le_sum_counts(self.dom_at(j), self.freq_seq(), self.spec_m());
        }
    }

    /// A non-contradicted location's entropy key is zero exactly when the
    /// location is determined: one item left means no uncertainty, two or
    /// more mean some.
    pub proof fn lemma_entropy_zero_iff_determined(self, j: int)
        requires
            self.wf(),
            0 <= j < self.spec_n(),
            self.size_at(j) >= 1,
        ensures
            entropy_num(self.dom_at(j), self.freq_seq()) == 0 <==> self.size_at(j) == 1,
    {
        self.lemma_wf();
        vstd::arithmetic::power2::lemma2_to64();
        vstd::arithmetic::power2::lemma2_to64_rest();
        if self.size_at(j) == 1 {
            crate::entropy::lemma_entropy_zero_singleton(self.dom_at(j), self.freq_seq());
        } else {
            crate::entropy::lemma_entropy_pos(self.dom_at(j), self.freq_seq());
        }
    }

    /// Distinct store indices hold distinct locations, so a location
    /// determines its index: repeated queries at one location read one
    /// store entry.
    pub proof fn lemma_loc_injective(self, j1: int, j2: int)
        requires
            self.wf(),
            0 <= j1 < self.spec_n(),
            0 <= j2 < self.spec_n(),
            j1 != j2,
        ensures
            self.loc_at(j1) != self.loc_at(j2),
    {
    }

    /// How many of the first `i` locations are determined, counted over
    /// the public view of the store.
    pub open spec fn determined_upto(self, i: int) -> int
        decreases i,
    {
        if i <= 0 {
            0
        } else {
            self.determined_upto(i - 1) + (if self.size_at(i - 1) == 1 {
                1int
            } else {
                0int
            })
        }
    }

    proof fn lemma_num_determined_upto(self, i: int)
        ensures
            n_determined(self.domains@, i) == self.determined_upto(i),
        decreases i,
    {
        if i > 0 {
            self.lemma_num_determined_upto(i - 1);
        }
    }

    /// The determined count that `num_complete` reports is the number of
    /// locations whose possibility set holds exactly one item.
    pub proof fn lemma_num_determined(self)
        ensures
            self.spec_num_determined() == self.determined_upto(self.spec_n()),
    {
        self.lemma_num_determined_upto(self.spec_n());
    }

    /// Builds an engine from the tracked locations, the multiset of item
    /// occurrences, and the relation table.  The universe has one item per
    /// entry of the relation table; item `i` occurs `count(i)` times among
    /// `items` and gets frequency weight `count(i) / items.len()`.
    ///
    /// Every location starts with the full universe possible.  Construction
    /// fails exactly on an empty universe, an occurrence outside the
    /// universe, an item that never occurs, or a duplicate location.
    pub fn new(locations: Vec<(usize, usize)>, items: Vec<usize>, relations: Vec<Vec<R>>) -> (r:
        Result<Self, BuildError>)
        requires
            items@.len() <= MAX_WEIGHT_TOTAL,
        ensures
            r is Err <==> (relations@.len() == 0 || (exists|k: int|
                0 <= k < items@.len() && #[trigger] items@[k] >= relations@.len()) || (exists|
                i: int,
            |
                0 <= i < relations@.len() && occ_count(items@, i) == 0) || (exists|
                j1: int,
                j2: int,
            |
                0 <= j1 < j2 < locations@.len() && locations@[j1] == locations@[j2])),
            r matches Err(e) ==> (e == BuildError::EmptyUniverse <==> relations@.len() == 0),
            r matches Err(e) ==> (e == BuildError::DuplicateLocation ==> exists|j1: int, j2: int|
                0 <= j1 < j2 < locations@.len() && locations@[j1] == locations@[j2]),
            r matches Ok(w) ==> {
                &&& w.wf()
                &&& w.spec_n() == locations@.len()
                &&& w.spec_m() == relations@.len()
                &&& forall|j: int| 0 <= j < w.spec_n() ==> #[trigger] w.loc_at(j)
                    == locations@[j]
                &&& forall|j: int, i: int|
                    0 <= j < w.spec_n() && 0 <= i < w.spec_m() ==> #[trigger] w.possible(j, i)
                &&& forall|i: int| 0 <= i < w.spec_m() ==> #[trigger] w.freq_at(i) == occ_count(
                    items@,
                    i,
                )
                &&& w.freq_total() == items@.len()
                &&& forall|i: int| 0 <= i < w.spec_m() ==> #[trigger] w.rels_at(i)
                    == relations@[i]@
            },
    {
        let m = relations.len();
        let ft = match FrequencyTable::from_occurrences(m, &items) {
            Ok(ft) => ft,
            Err(e) => {
                return Err(e);
            },
        };
        Self::assemble(locations, ft, relations)
    }

    /// Builds an engine from the tracked locations, an explicit weight
    /// table, and the relation table: item `i` of the universe gets weight
    /// `counts[i] / sum`.  Every location starts with the full universe
    /// possible.  Construction fails exactly on an empty universe, a weight
    /// table that does not cover the universe item for item, a zero weight,
    /// an overflowing weight sum, or a duplicate location.
    pub fn new_with_counts(
        locations: Vec<(usize, usize)>,
        counts: Vec<u64>,
        relations: Vec<Vec<R>>,
    ) -> (r: Result<Self, BuildError>)
        ensures
            r is Err <==> (relations@.len() == 0 || counts@.len() != relations@.len() || (exists|
                i: int,
            |
                0 <= i < counts@.len() && #[trigger] counts@[i] == 0) || crate::freq::sum_counts(
                counts@,
                counts@.len() as int,
            ) > MAX_WEIGHT_TOTAL || (exists|j1: int, j2: int|
                0 <= j1 < j2 < locations@.len() && locations@[j1] == locations@[j2])),
            r matches Err(e) ==> (e == BuildError::EmptyUniverse <==> relations@.len() == 0),
            r matches Err(e) ==> (e == BuildError::DuplicateLocation ==> exists|j1: int, j2: int|
                0 <= j1 < j2 < locations@.len() && locations@[j1] == locations@[j2]),
            r matches Ok(w) ==> {
                &&& w.wf()
                &&& w.spec_n() == locations@.len()
                &&& w.spec_m() == relations@.len()
                &&& forall|j: int| 0 <= j < w.spec_n() ==> #[trigger] w.loc_at(j)
                    == locations@[j]
                &&& forall|j: int, i: int|
                    0 <= j < w.spec_n() && 0 <= i < w.spec_m() ==> #[trigger] w.possible(j, i)
                &&& forall|i: int| 0 <= i < w.spec_m() ==> #[trigger] w.freq_at(i) == counts@[i]
                &&& w.freq_total() == crate::freq::sum_counts(counts@, counts@.len() as int)
                &&& forall|i: int| 0 <= i < w.spec_m() ==> #[trigger] w.rels_at(i)
                    == relations@[i]@
            },
    {
        let m = relations.len();
        if m == 0 {
            return Err(BuildError::EmptyUniverse);
        }
        if counts.len() != m {
            return Err(BuildError::UnknownItem);
        }
        let ft = match FrequencyTable::from_counts(counts) {
            Ok(ft) => ft,
            Err(e) => {
                return Err(e);
            },
        };
        Self::assemble(locations, ft, relations)
    }

    /// Checks the location set and assembles the engine around a finished
    /// frequency table: every location starts with the full universe
    /// possible and a fresh entropy key.
    fn assemble(locations: Vec<(usize, usize)>, ft: FrequencyTable, relations: Vec<Vec<R>>) -> (r:
        Result<Self, BuildError>)
        requires
            ft.inv(),
            ft@.len() == relations@.len(),
        ensures
            r is Err <==> exists|j1: int, j2: int|
                0 <= j1 < j2 < locations@.len() && locations@[j1] == locations@[j2],
            r matches Err(e) ==> e == BuildError::DuplicateLocation,
            r matches Ok(w) ==> {
                &&& w.wf()
                &&& w.spec_n() == locations@.len()
                &&& w.spec_m() == relations@.len()
                &&& forall|j: int| 0 <= j < w.spec_n() ==> #[trigger] w.loc_at(j)
                    == locations@[j]
                &&& forall|j: int, i: int|
                    0 <= j < w.spec_n() && 0 <= i < w.spec_m() ==> #[trigger] w.possible(j, i)
                &&& w.freq_seq() == ft@
                &&& w.freq_total() == ft.spec_total()
                &&& forall|i: int| 0 <= i < w.spec_m() ==> #[trigger] w.rels_at(i)
                    == relations@[i]@
            },
    {
        let m = relations.len();
        proof {
            ft.lemma_inv();
        }
        let nl = locations.len();
        let mut j1: usize = 0;
        while j1 < nl
            invariant
                j1 <= nl,
                nl == locations@.len(),
                m == relations@.len(),
                m >= 1,
                forall|a: int, b: int| 0 <= a < j1 && a < b < nl ==> locations@[a]
                    != locations@[b],
            decreases nl - j1,
        {
            let mut j2: usize = j1 + 1;
            while j2 < nl
                invariant
                    j1 < j2 <= nl,
                    nl == locations@.len(),
                    m == relations@.len(),
                    m >= 1,
                    forall|b: int| j1 < b < j2 ==> locations@[j1 as int] != locations@[b],
                decreases nl - j2,
            {
                let a = locations[j1];
                let b = locations[j2];
                if a.0 == b.0 && a.1 == b.1 {
                    return Err(BuildError::DuplicateLocation);
                }
                j2 = j2 + 1;
            }
            j1 = j1 + 1;
        }
        let mut domains: Vec<Domain> = Vec::new();
        let mut cache: Vec<(u64, u64)> = Vec::new();
        let mut j: usize = 0;
        while j < nl
            invariant
                j <= nl,
                domains@.len() == j,
                cache@.len() == j,
                ft.inv(),
                ft@.len() == m,
                m >= 1,
                forall|q: int| 0 <= q < j ==> (#[trigger] domains@[q]).inv(),
                forall|q: int| 0 <= q < j ==> (#[trigger] domains@[q])@.len() == m,
                forall|q: int, i: int| 0 <= q < j && 0 <= i < m ==> #[trigger] domains@[q]@[i],
                forall|q: int| 0 <= q < j ==> (#[trigger] cache@[q]).0 == entropy_num(
                    domains@[q]@,
                    ft@,
                ) && cache@[q].1 == domain_total(domains@[q]@, ft@),
            decreases nl - j,
        {
            let d = Domain::full(m);
            proof {
                ft.lemma_inv();
                lemma_sum_weights_le_sum_counts(d@, ft@, m as int);
                crate::domain::lemma_count_le_len(d@);
            }
            let key = entropy_key(d.mask_ref(), ft.counts_ref());
            domains.push(d);
            cache.push(key);
            j = j + 1;
        }
        let w = WaveFunctionCollapse {
            locs: locations,
            domains,
            relations,
            frequencies: ft,
            entropy_cache: cache,
        };
        proof {
            assert forall|q: int| 0 <= q < w.spec_n() implies #[trigger] w.cache_ok_at(q) by {
                assert(w.entropy_cache@[q].0 == entropy_num(w.domains@[q]@, w.frequencies@));
            }
        }
        Ok(w)
    }

    /// Gathers every pair that any still-possible item at store index `l`
    /// emits from `l`'s location: the union, over the items possible at
    /// `l`, of all their rules' emissions.
    fn collect_effects(&self, l: usize) -> (pairs: Vec<((usize, usize), usize)>)
        requires
            self.store_ok(),
            l < self.spec_n(),
        ensures
            forall|p: int| 0 <= p < pairs@.len() ==> self.allows(
                l as int,
                self.dom_at(l as int),
                (#[trigger] pairs@[p]).0,
                pairs@[p].1 as int,
            ),
            forall|n: (usize, usize), t: int|
                #[trigger] self.allows(l as int, self.dom_at(l as int), n, t) ==> pair_in(
                    pairs@,
                    n,
                    t,
                ),
            forall|n: (usize, usize)| #[trigger] self.targets(l as int, self.dom_at(l as int), n)
                ==> loc_in_pairs(pairs@, n),
    {
        let src = self.locs[l];
        let m = self.relations.len();
        let ghost d = self.dom_at(l as int);
        let mut pairs: Vec<((usize, usize), usize)> = Vec::new();
        let mut i: usize = 0;
        while i < m
            invariant
                i <= m,
                self.store_ok(),
                l < self.spec_n(),
                m == self.spec_m(),
                src == self.loc_at(l as int),
                d == self.dom_at(l as int),
                forall|p: int| 0 <= p < pairs@.len() ==> self.allows(
                    l as int,
                    d,
                    (#[trigger] pairs@[p]).0,
                    pairs@[p].1 as int,
                ),
                forall|i2: int, k: int, p2: int|
                    0 <= i2 < i && d[i2] && 0 <= k < self.rels_at(i2).len() && 0 <= p2
                        < self.rels_at(i2)[k].spec_related(src).len() ==> pair_in(
                        pairs@,
                        (#[trigger] self.rels_at(i2)[k].spec_related(src)[p2]).0,
                        self.rels_at(i2)[k].spec_related(src)[p2].1 as int,
                    ),
            decreases m - i,
        {
            proof {
                assert(self.domains@[l as int].inv());
                assert(self.domains@[l as int]@.len() == m);
            }
            if self.domains[l].contains(i) {
                let nk = self.relations[i].len();
                let mut k: usize = 0;
                while k < nk
                    invariant
                        k <= nk,
                        i < m,
                        self.store_ok(),
                        l < self.spec_n(),
                        m == self.spec_m(),
                        src == self.loc_at(l as int),
                        d == self.dom_at(l as int),
                        d[i as int],
                        nk == self.rels_at(i as int).len(),
                        forall|p: int| 0 <= p < pairs@.len() ==> self.allows(
                            l as int,
                            d,
                            (#[trigger] pairs@[p]).0,
                            pairs@[p].1 as int,
                        ),
                        forall|i2: int, k2: int, p2: int|
                            0 <= i2 < i && d[i2] && 0 <= k2 < self.rels_at(i2).len() && 0 <= p2
                                < self.rels_at(i2)[k2].spec_related(src).len() ==> pair_in(
                                pairs@,
                                (#[trigger] self.rels_at(i2)[k2].spec_related(src)[p2]).0,
                                self.rels_at(i2)[k2].spec_related(src)[p2].1 as int,
                            ),
                        forall|k2: int, p2: int|
                            0 <= k2 < k && 0 <= p2 < self.rels_at(i as int)[k2].spec_related(
                                src,
                            ).len() ==> pair_in(
                                pairs@,
                                (#[trigger] self.rels_at(i as int)[k2].spec_related(src)[p2]).0,
                                self.rels_at(i as int)[k2].spec_related(src)[p2].1 as int,
                            ),
                    decreases nk - k,
                {
                    let out = self.relations[i][k].related(src);
                    let no = out.len();
                    let mut p2: usize = 0;
                    while p2 < no
                        invariant
                            p2 <= no,
                            i < m,
                            k < nk,
                            self.store_ok(),
                            l < self.spec_n(),
                            m == self.spec_m(),
                            src == self.loc_at(l as int),
                            d == self.dom_at(l as int),
                            d[i as int],
                            nk == self.rels_at(i as int).len(),
                            out@ == self.rels_at(i as int)[k as int].spec_related(src),
                            no == out@.len(),
                            forall|p: int| 0 <= p < pairs@.len() ==> self.allows(
                                l as int,
                                d,
                                (#[trigger] pairs@[p]).0,
                                pairs@[p].1 as int,
                            ),
                            forall|i2: int, k2: int, p3: int|
                                0 <= i2 < i && d[i2] && 0 <= k2 < self.rels_at(i2).len() && 0 <= p3
                                    < self.rels_at(i2)[k2].spec_related(src).len() ==> pair_in(
                                    pairs@,
                                    (#[trigger] self.rels_at(i2)[k2].spec_related(src)[p3]).0,
                                    self.rels_at(i2)[k2].spec_related(src)[p3].1 as int,
                                ),
                            forall|k2: int, p3: int|
                                0 <= k2 < k && 0 <= p3 < self.rels_at(i as int)[k2].spec_related(
                                    src,
                                ).len() ==> pair_in(
                                    pairs@,
                                    (#[trigger] self.rels_at(i as int)[k2].spec_related(src)[p3]).0,
                                    self.rels_at(i as int)[k2].spec_related(src)[p3].1 as int,
                                ),
                            forall|p3: int| 0 <= p3 < p2 ==> pair_in(
                                pairs@,
                                (#[trigger] out@[p3]).0,
                                out@[p3].1 as int,
                            ),
                        decreases no - p2,
                    {
                        let e = out[p2];
                        let ghost prev = pairs@;
                        pairs.push(e);
                        proof {
                            assert(pairs@[pairs@.len() - 1] == e);
                            assert(self.rels_at(i as int)[k as int].spec_related(src)[p2 as int].0
                                == e.0);
                            assert(rels_emit(self.rels_at(i as int), src, e.0, e.1 as int));
                            assert(self.allows(l as int, d, e.0, e.1 as int));
                            assert forall|p: int| 0 <= p < pairs@.len() implies self.allows(
                                l as int,
                                d,
                                (#[trigger] pairs@[p]).0,
                                pairs@[p].1 as int,
                            ) by {
                                if p < prev.len() {
                                    assert(pairs@[p] == prev[p]);
                                } else {
                                    assert(pairs@[p] == e);
                                }
                            }
                            assert forall|i2: int, k2: int, p3: int|
                                0 <= i2 < i && d[i2] && 0 <= k2 < self.rels_at(i2).len() && 0 <= p3
                                    < self.rels_at(i2)[k2].spec_related(src).len() implies pair_in(
                                pairs@,
                                (#[trigger] self.rels_at(i2)[k2].spec_related(src)[p3]).0,
                                self.rels_at(i2)[k2].spec_related(src)[p3].1 as int,
                            ) by {
                                lemma_pair_in_grow(
                                    prev,
                                    pairs@,
                                    self.rels_at(i2)[k2].spec_related(src)[p3].0,
                                    self.rels_at(i2)[k2].spec_related(src)[p3].1 as int,
                                );
                            }
                            assert forall|k2: int, p3: int|
                                0 <= k2 < k && 0 <= p3 < self.rels_at(i as int)[k2].spec_related(
                                    src,
                                ).len() implies pair_in(
                                pairs@,
                                (#[trigger] self.rels_at(i as int)[k2].spec_related(src)[p3]).0,
                                self.rels_at(i as int)[k2].spec_related(src)[p3].1 as int,
                            ) by {
                                lemma_pair_in_grow(
                                    prev,
                                    pairs@,
                                    self.rels_at(i as int)[k2].spec_related(src)[p3].0,
                                    self.rels_at(i as int)[k2].spec_related(src)[p3].1 as int,
                                );
                            }
                            assert forall|p3: int| 0 <= p3 < p2 + 1 implies pair_in(
                                pairs@,
                                (#[trigger] out@[p3]).0,
                                out@[p3].1 as int,
                            ) by {
                                if p3 < p2 {
                                    lemma_pair_in_grow(
                                        prev,
                                        pairs@,
                                        out@[p3].0,
                                        out@[p3].1 as int,
                                    );
                                } else {
                                    assert(pairs@[pairs@.len() - 1] == out@[p3]);
                                }
                            }
                        }
                        p2 = p2 + 1;
                    }
                    k = k + 1;
                }
            }
            i = i + 1;
        }
        proof {
            assert forall|n: (usize, usize), t: int|
                #[trigger] self.allows(l as int, self.dom_at(l as int), n, t) implies pair_in(
                pairs@,
                n,
                t,
            ) by {
                let i2 = choose|i2: int|
                    0 <= i2 < self.spec_m() && d[i2] && #[trigger] rels_emit(
                        self.rels_at(i2),
                        src,
                        n,
                        t,
                    );
                let (k, p2) = choose|k: int, p2: int|
                    {
                        &&& 0 <= k < self.rels_at(i2).len()
                        &&& 0 <= p2 < self.rels_at(i2)[k].spec_related(src).len()
                        &&& (#[trigger] self.rels_at(i2)[k].spec_related(src)[p2]).0 == n
                        &&& self.rels_at(i2)[k].spec_related(src)[p2].1 == t
                    };
                assert(pair_in(
                    pairs@,
                    self.rels_at(i2)[k].spec_related(src)[p2].0,
                    self.rels_at(i2)[k].spec_related(src)[p2].1 as int,
                ));
            }
            assert forall|n: (usize, usize)|
                #[trigger] self.targets(l as int, self.dom_at(l as int), n) implies loc_in_pairs(
                pairs@,
                n,
            ) by {
                let i2 = choose|i2: int|
                    0 <= i2 < self.spec_m() && d[i2] && #[trigger] rels_target(
                        self.rels_at(i2),
                        src,
                        n,
                    );
                let (k, p2) = choose|k: int, p2: int|
                    {
                        &&& 0 <= k < self.rels_at(i2).len()
                        &&& 0 <= p2 < self.rels_at(i2)[k].spec_related(src).len()
                        &&& (#[trigger] self.rels_at(i2)[k].spec_related(src)[p2]).0 == n
                    };
                assert(pair_in(
                    pairs@,
                    self.rels_at(i2)[k].spec_related(src)[p2].0,
                    self.rels_at(i2)[k].spec_related(src)[p2].1 as int,
                ));
                let w = choose|w: int|
                    0 <= w < pairs@.len() && (#[trigger] pairs@[w]).0 == n && pairs@[w].1
                        == self.rels_at(i2)[k].spec_related(src)[p2].1 as int;
                assert((pairs@[w]).0 == n);
            }
        }
        pairs
    }

    /// The index of a tracked location, if any.
    fn find_loc(&self, target: (usize, usize)) -> (r: Option<usize>)
        ensures
            r matches Some(j) ==> 0 <= j < self.spec_n() && self.loc_at(j as int) == target,
            r is None ==> forall|j: int| 0 <= j < self.spec_n() ==> #[trigger] self.loc_at(j)
                != target,
    {
        let n = self.locs.len();
        let mut j: usize = 0;
        while j < n
            invariant
                j <= n,
                n == self.locs@.len(),
                forall|q: int| 0 <= q < j ==> #[trigger] self.locs@[q] != target,
            decreases n - j,
        {
            let l = self.locs[j];
            if l.0 == target.0 && l.1 == target.1 {
                return Some(j);
            }
            j = j + 1;
        }
        None
    }

    /// The number of tracked locations.
    pub fn n_locations(&self) -> (n: usize)
        ensures
            n == self.spec_n(),
    {
        self.locs.len()
    }

    /// The size of the item universe.
    pub fn n_items(&self) -> (m: usize)
        ensures
            m == self.spec_m(),
    {
        self.relations.len()
    }

    /// The location at store index `j`.
    pub fn location_at(&self, j: usize) -> (l: (usize, usize))
        requires
            j < self.spec_n(),
        ensures
            l == self.loc_at(j as int),
    {
        self.locs[j]
    }

    /// The size of the possibility set at store index `j`.
    pub fn size_at_index(&self, j: usize) -> (s: usize)
        requires
            self.wf(),
            j < self.spec_n(),
        ensures
            s == self.size_at(j as int),
    {
        self.domains[j].size()
    }

    /// Whether item `i` is still possible at store index `j`.
    pub fn possible_at(&self, j: usize, i: usize) -> (r: bool)
        requires
            self.wf(),
            j < self.spec_n(),
            i < self.spec_m(),
        ensures
            r == self.possible(j as int, i as int),
    {
        proof {
            self.lemma_wf();
        }
        self.domains[j].contains(i)
    }

    /// True exactly when every location is determined or contradicted:
    /// no possibility set holds more than one item.
    pub fn is_fully_collapsed(&self) -> (r: bool)
        requires
            self.wf(),
        ensures
            r <==> forall|j: int| 0 <= j < self.spec_n() ==> #[trigger] self.size_at(j) <= 1,
    {
        let n = self.locs.len();
        let mut j: usize = 0;
        while j < n
            invariant
                self.wf(),
                j <= n,
                n == self.spec_n(),
                forall|q: int| 0 <= q < j ==> #[trigger] self.size_at(q) <= 1,
            decreases n - j,
        {
            if self.domains[j].size() > 1 {
                proof {
                    assert(self.size_at(j as int) > 1);
                }
                return false;
            }
            j = j + 1;
        }
        true
    }

    /// The number of determined locations, and the total number of
    /// locations.
    pub fn num_complete(&self) -> (r: (usize, usize))
        requires
            self.wf(),
        ensures
            r.1 == self.spec_n(),
            r.0 == self.spec_num_determined(),
            r.0 == self.determined_upto(self.spec_n()),
    {
        let n = self.locs.len();
        let mut c: usize = 0;
        let mut j: usize = 0;
        while j < n
            invariant
                self.wf(),
                j <= n,
                n == self.spec_n(),
                c == n_determined(self.domains@, j as int),
                c <= j,
            decreases n - j,
        {
            if self.domains[j].size() == 1 {
                c = c + 1;
            }
            j = j + 1;
        }
        proof {
            self.lemma_num_determined();
        }
        (c, n)
    }

    /// Reads the store back per location: the resolved item where the
    /// location is determined, `None` where it is still open or
    /// contradicted.  Usable at any point, also mid-failure.
    pub fn get_partial(&self) -> (out: Vec<((usize, usize), Option<usize>)>)
        requires
            self.wf(),
        ensures
            out@.len() == self.spec_n(),
            forall|j: int| 0 <= j < self.spec_n() ==> (#[trigger] out@[j]).0 == self.loc_at(j),
            forall|j: int| 0 <= j < self.spec_n() ==> ((#[trigger] out@[j]).1 is Some
                <==> self.size_at(j) == 1),
            forall|j: int| 0 <= j < self.spec_n() ==> ((#[trigger] out@[j]).1 matches Some(i)
                ==> i < self.spec_m() && self.possible(j, i as int)),
    {
        let n = self.locs.len();
        let mut out: Vec<((usize, usize), Option<usize>)> = Vec::new();
        let mut j: usize = 0;
        while j < n
            invariant
                self.wf(),
                j <= n,
                n == self.spec_n(),
                out@.len() == j,
                forall|q: int| 0 <= q < j ==> (#[trigger] out@[q]).0 == self.loc_at(q),
                forall|q: int| 0 <= q < j ==> ((#[trigger] out@[q]).1 is Some <==> self.size_at(q)
                    == 1),
                forall|q: int| 0 <= q < j ==> ((#[trigger] out@[q]).1 matches Some(i) ==> i
                    < self.spec_m() && self.possible(q, i as int)),
            decreases n - j,
        {
            proof {
                self.lemma_wf();
            }
            let l = self.locs[j];
            if self.domains[j].size() == 1 {
                match self.domains[j].first_item() {
                    Some(i) => {
                        out.push((l, Some(i)));
                    },
                    None => {
                        proof {
                            assert(false);
                        }
                    },
                }
            } else {
                out.push((l, None));
            }
            j = j + 1;
        }
        out
    }

    /// Yields each location's resolved item.  Fails unless every location
    /// is determined: holds exactly one item.
    pub fn get_collapsed(&self) -> (r: Result<Vec<((usize, usize), usize)>, ()>)
        requires
            self.wf(),
        ensures
            r is Ok <==> forall|j: int| 0 <= j < self.spec_n() ==> #[trigger] self.size_at(j)
                == 1,
            r matches Ok(out) ==> {
                &&& out@.len() == self.spec_n()
                &&& forall|j: int| 0 <= j < self.spec_n() ==> (#[trigger] out@[j]).0
                    == self.loc_at(j)
                &&& forall|j: int| 0 <= j < self.spec_n() ==> (#[trigger] out@[j]).1
                    < self.spec_m() && self.possible(j, out@[j].1 as int)
            },
    {
        let n = self.locs.len();
        let mut out: Vec<((usize, usize), usize)> = Vec::new();
        let mut j: usize = 0;
        while j < n
            invariant
                self.wf(),
                j <= n,
                n == self.spec_n(),
                out@.len() == j,
                forall|q: int| 0 <= q < j ==> #[trigger] self.size_at(q) == 1,
                forall|q: int| 0 <= q < j ==> (#[trigger] out@[q]).0 == self.loc_at(q),
                forall|q: int| 0 <= q < j ==> (#[trigger] out@[q]).1 < self.spec_m()
                    && self.possible(q, out@[q].1 as int),
            decreases n - j,
        {
            proof {
                self.lemma_wf();
            }
            let l = self.locs[j];
            if self.domains[j].size() != 1 {
                proof {
                    assert(self.size_at(j as int) != 1);
                }
                return Err(());
            }
            match self.domains[j].first_item() {
                Some(i) => {
                    out.push((l, i));
                },
                None => {
                    proof {
                        assert(false);
                    }
                },
            }
            j = j + 1;
        }
        Ok(out)
    }

    /// The fields that guide propagation agree between two engine values.
    spec fn same_rules(self, o: Self) -> bool {
        &&& self.spec_n() == o.spec_n()
        &&& self.spec_m() == o.spec_m()
        &&& self.domains@.len() == o.domains@.len()
        &&& forall|j: int| 0 <= j < self.spec_n() ==> #[trigger] self.loc_at(j) == o.loc_at(j)
        &&& forall|i: int| 0 <= i < self.spec_m() ==> #[trigger] self.rels_at(i) == o.rels_at(i)
    }

    /// Well-formedness of the store transfers between equal stores.
    proof fn lemma_store_ok_same(a: Self, b: Self)
        requires
            a.store_ok(),
            b.locs@ == a.locs@,
            b.relations@ == a.relations@,
            b.frequencies == a.frequencies,
            b.domains@ == a.domains@,
            b.entropy_cache@.len() == a.entropy_cache@.len(),
        ensures
            b.store_ok(),
    {
        assert forall|j: int| 0 <= j < b.spec_n() implies (#[trigger] b.domains@[j]).inv() by {
            assert(a.domains@[j].inv());
        }
        assert forall|j: int| 0 <= j < b.spec_n() implies (#[trigger] b.domains@[j])@.len()
            == b.spec_m() by {
            assert(a.domains@[j]@.len() == a.spec_m());
        }
        assert forall|j1: int, j2: int|
            0 <= j1 < b.spec_n() && 0 <= j2 < b.spec_n() && j1 != j2 implies b.loc_at(j1)
            != b.loc_at(j2) by {
            assert(a.loc_at(j1) != a.loc_at(j2));
        }
    }

    /// Arc-consistency of one pair survives when the source's possibility
    /// set is unchanged and the target's has only shrunk.
    proof fn lemma_arc_preserved(a: Self, b: Self, j: int, j2: int)
        requires
            a.same_rules(b),
            0 <= j < a.spec_n(),
            0 <= j2 < a.spec_n(),
            a.dom_at(j).len() == a.spec_m(),
            a.dom_at(j2).len() == a.spec_m(),
            b.dom_at(j) == a.dom_at(j),
            mask_below(b.dom_at(j2), a.dom_at(j2)),
            a.arc_ok(j, j2),
        ensures
            b.arc_ok(j, j2),
    {
        if b.targets(j, b.dom_at(j), b.loc_at(j2)) {
            let i = choose|i: int|
                0 <= i < b.spec_m() && b.dom_at(j)[i] && #[trigger] rels_target(
                    b.rels_at(i),
                    b.loc_at(j),
                    b.loc_at(j2),
                );
            assert(rels_target(a.rels_at(i), a.loc_at(j), a.loc_at(j2)));
            assert(a.targets(j, a.dom_at(j), a.loc_at(j2)));
            assert forall|t: int|
                0 <= t < b.spec_m() && #[trigger] b.possible(j2, t) implies b.allows(
                j,
                b.dom_at(j),
                b.loc_at(j2),
                t,
            ) by {
                assert(b.dom_at(j2)[t]);
                assert(a.dom_at(j2)[t]);
                assert(a.possible(j2, t));
                assert(a.allows(j, a.dom_at(j), a.loc_at(j2), t));
                let i2 = choose|i2: int|
                    0 <= i2 < a.spec_m() && a.dom_at(j)[i2] && #[trigger] rels_emit(
                        a.rels_at(i2),
                        a.loc_at(j),
                        a.loc_at(j2),
                        t,
                    );
                assert(rels_emit(b.rels_at(i2), b.loc_at(j), b.loc_at(j2), t));
                assert(b.allows(j, b.dom_at(j), b.loc_at(j2), t));
            }
        }
    }

    /// The propagation invariant: every settled source — one not queued for
    /// re-checking, not contradicted, not excluded, and either consistent at
    /// entry, freshly shrunk, or the seed of the pass — is arc-consistent
    /// toward every location.
    spec fn prop_settled(self, o: Self, seed: int, wl: Seq<usize>, excl: int) -> bool {
        forall|j: int, j2: int|
            0 <= j < self.spec_n() && 0 <= j2 < self.spec_n() && self.size_at(j) >= 1
                && !idx_listed(wl, j) && j != excl && (o.arc_ok(j, j2) || j == seed || self.dom_at(
                j,
            ) != o.dom_at(j)) ==> #[trigger] self.arc_ok(j, j2)
    }

    /// The entropy key of the location at index `j1` is at most that of the
    /// location at index `j2`: the keys `(a, t)` compare as the fractions
    /// `a / t`, by cross-multiplication.
    pub open spec fn entropy_le(self, j1: int, j2: int) -> bool {
        entropy_num(self.dom_at(j1), self.freq_seq()) * domain_total(
            self.dom_at(j2),
            self.freq_seq(),
        ) <= entropy_num(self.dom_at(j2), self.freq_seq()) * domain_total(
            self.dom_at(j1),
            self.freq_seq(),
        )
    }

    /// Collapses the possibility set at `l` to the single item that the
    /// weighted draw `draw` lands on: items still possible at `l` are laid
    /// out in index order, each covering a span as wide as its frequency
    /// weight, and the span holding `draw` wins.  Deterministic; the
    /// random-draw variant `collapse_at` feeds it a fresh draw.
    pub fn collapse_at_with(&mut self, l: (usize, usize), draw: u64)
        requires
            old(self).wf(),
            old(self).tracks(l),
            forall|j: int| 0 <= j < old(self).spec_n() && old(self).loc_at(j) == l
                ==> draw < domain_total(#[trigger] old(self).dom_at(j), old(self).freq_seq()),
        ensures
            final(self).wf(),
            final(self).spec_n() == old(self).spec_n(),
            final(self).spec_m() == old(self).spec_m(),
            final(self).freq_seq() == old(self).freq_seq(),
            forall|j: int| 0 <= j < final(self).spec_n() ==> #[trigger] final(self).loc_at(j)
                == old(self).loc_at(j),
            forall|i: int| 0 <= i < final(self).spec_m() ==> #[trigger] final(self).rels_at(i)
                == old(self).rels_at(i),
            forall|j: int| 0 <= j < final(self).spec_n() && old(self).loc_at(j) != l
                ==> #[trigger] final(self).dom_at(j) == old(self).dom_at(j),
            forall|j: int| 0 <= j < final(self).spec_n() ==> mask_below(
                #[trigger] final(self).dom_at(j),
                old(self).dom_at(j),
            ),
            forall|j: int| 0 <= j < final(self).spec_n() ==> #[trigger] final(self).size_at(j)
                <= old(self).size_at(j),
            exists|j: int|
                {
                    &&& 0 <= j < old(self).spec_n()
                    &&& #[trigger] old(self).loc_at(j) == l
                    &&& final(self).size_at(j) == 1
                    &&& exists|c: int|
                        {
                            &&& 0 <= c < old(self).spec_m()
                            &&& old(self).possible(j, c)
                            &&& final(self).possible(j, c)
                            &&& sum_weights(old(self).dom_at(j), old(self).freq_seq(), c) <= draw
                                < sum_weights(old(self).dom_at(j), old(self).freq_seq(), c)
                                + old(self).freq_seq()[c]
                        }
                },
    {
        proof {
            self.lemma_wf();
            self.frequencies.lemma_inv();
        }
        let m = self.relations.len();
        match self.find_loc(l) {
            Some(j) => {
                proof {
                    assert(draw < domain_total(self.dom_at(j as int), self.freq_seq()));
                    lemma_sum_weights_le_sum_counts(
                        self.domains@[j as int]@,
                        self.frequencies@,
                        self.spec_m(),
                    );
                }
                let c = weighted_pick(
                    self.domains[j].mask_ref(),
                    self.frequencies.counts_ref(),
                    draw,
                );
                let nd = Domain::singleton(m, c);
                let ghost prev = *self;
                self.domains.set(j, nd);
                proof {
                    assert forall|q: int| 0 <= q < self.spec_n() implies #[trigger] self
                        .cache_ok_at(q) by {
                        if q != j {
                            assert(self.dom_at(q) == prev.dom_at(q));
                            assert(prev.cache_ok_at(q));
                        }
                    }
                    assert forall|q: int| 0 <= q < self.spec_n() implies mask_below(
                        #[trigger] self.dom_at(q),
                        prev.dom_at(q),
                    ) by {
                        if q != j {
                            assert(self.dom_at(q) == prev.dom_at(q));
                        }
                    }
                    assert forall|q1: int, q2: int|
                        0 <= q1 < self.spec_n() && 0 <= q2 < self.spec_n() && q1
                            != q2 implies self.loc_at(q1) != self.loc_at(q2) by {
                        assert(prev.loc_at(q1) != prev.loc_at(q2));
                    }
                    assert(old(self).loc_at(j as int) == l);
                    assert(final(self).size_at(j as int) == 1);
                    assert(final(self).possible(j as int, c as int));
                    assert forall|q2: int| 0 <= q2 < self.spec_n() implies #[trigger] self
                        .size_at(q2) <= prev.size_at(q2) by {
                        crate::domain::lemma_count_mono(self.dom_at(q2), prev.dom_at(q2));
                    }
                }
            },
            None => {
                proof {
                    assert(false);
                }
            },
        }
    }

    /// Collapses the possibility set at `l` to one item drawn at random,
    /// weighted by the frequency model restricted to the set.  Whatever the
    /// draw, the chosen item was possible at `l` before the call and every
    /// other location keeps its possibility set.
    pub fn collapse_at(&mut self, l: (usize, usize))
        requires
            old(self).wf(),
            old(self).tracks(l),
            forall|j: int| 0 <= j < old(self).spec_n() && old(self).loc_at(j) == l
                ==> #[trigger] old(self).size_at(j) >= 1,
        ensures
            final(self).wf(),
            final(self).spec_n() == old(self).spec_n(),
            final(self).spec_m() == old(self).spec_m(),
            final(self).freq_seq() == old(self).freq_seq(),
            forall|j: int| 0 <= j < final(self).spec_n() ==> #[trigger] final(self).loc_at(j)
                == old(self).loc_at(j),
            forall|i: int| 0 <= i < final(self).spec_m() ==> #[trigger] final(self).rels_at(i)
                == old(self).rels_at(i),
            forall|j: int| 0 <= j < final(self).spec_n() && old(self).loc_at(j) != l
                ==> #[trigger] final(self).dom_at(j) == old(self).dom_at(j),
            forall|j: int| 0 <= j < final(self).spec_n() ==> mask_below(
                #[trigger] final(self).dom_at(j),
                old(self).dom_at(j),
            ),
            forall|j: int| 0 <= j < final(self).spec_n() ==> #[trigger] final(self).size_at(j)
                <= old(self).size_at(j),
            exists|j: int|
                {
                    &&& 0 <= j < old(self).spec_n()
                    &&& #[trigger] old(self).loc_at(j) == l
                    &&& final(self).size_at(j) == 1
                    &&& exists|c: int|
                        {
                            &&& 0 <= c < old(self).spec_m()
                            &&& old(self).possible(j, c)
                            &&& final(self).possible(j, c)
                        }
                },
    {
        proof {
            self.lemma_wf();
            self.frequencies.lemma_inv();
        }
        match self.find_loc(l) {
            Some(j) => {
                proof {
                    lemma_sum_weights_le_sum_counts(
                        self.domains@[j as int]@,
                        self.frequencies@,
                        self.spec_m(),
                    );
                    assert(self.size_at(j as int) >= 1);
                    crate::domain::lemma_count_zero(self.dom_at(j as int));
                    let w = choose|i: int|
                        0 <= i < self.dom_at(j as int).len() && self.dom_at(j as int)[i];
                    crate::entropy::lemma_member_le_sum(
                        self.dom_at(j as int),
                        self.freq_seq(),
                        w,
                        self.spec_m(),
                    );
                }
                let t = masked_total(self.domains[j].mask_ref(), self.frequencies.counts_ref());
                let draw = rand_below(t);
                self.collapse_at_with(l, draw);
            },
            None => {
                proof {
                    assert(false);
                }
            },
        }
    }

    /// The store index that the next collapse should use: among the
    /// undetermined locations, the first one with the smallest entropy key.
    /// `None` exactly when no location is undetermined.
    fn next_collapse(&self) -> (r: Option<usize>)
        requires
            self.wf(),
        ensures
            r is None <==> forall|j: int| 0 <= j < self.spec_n() ==> #[trigger] self.size_at(j)
                <= 1,
            r matches Some(j) ==> {
                &&& 0 <= j < self.spec_n()
                &&& self.size_at(j as int) > 1
                &&& forall|j2: int|
                    0 <= j2 < self.spec_n() && #[trigger] self.size_at(j2) > 1
                        ==> self.entropy_le(j as int, j2)
                &&& forall|j2: int|
                    0 <= j2 < j && #[trigger] self.size_at(j2) > 1 ==> !self.entropy_le(
                        j2,
                        j as int,
                    )
            },
    {
        proof {
            self.lemma_wf();
            self.frequencies.lemma_inv();
            assert forall|q: int| 0 <= q < self.spec_n() && #[trigger] self.size_at(q)
                > 1 implies 1 <= domain_total(self.dom_at(q), self.freq_seq()) && entropy_num(
                self.dom_at(q),
                self.freq_seq(),
            ) >= 0 by {
                crate::domain::lemma_count_zero(self.dom_at(q));
                let w = choose|i: int| 0 <= i < self.dom_at(q).len() && self.dom_at(q)[i];
                crate::entropy::lemma_member_le_sum(
                    self.dom_at(q),
                    self.freq_seq(),
                    w,
                    self.spec_m(),
                );
                lemma_sum_weights_le_sum_counts(self.dom_at(q), self.freq_seq(), self.spec_m());
                vstd::arithmetic::power2::lemma2_to64();
                vstd::arithmetic::power2::lemma2_to64_rest();
                crate::entropy::lemma_entropy_nonneg(self.dom_at(q), self.freq_seq());
            }
        }
        let n = self.locs.len();
        let mut best: Option<(usize, (u64, u64))> = None;
        let mut j: usize = 0;
        while j < n
            invariant
                self.wf(),
                j <= n,
                n == self.spec_n(),
                forall|q: int|
                    0 <= q < n && #[trigger] self.size_at(q) > 1 ==> 1 <= domain_total(
                        self.dom_at(q),
                        self.freq_seq(),
                    ) && entropy_num(self.dom_at(q), self.freq_seq()) >= 0,
                best is None ==> forall|q: int| 0 <= q < j ==> #[trigger] self.size_at(q) <= 1,
                best matches Some((bj, bk)) ==> {
                    &&& 0 <= bj < j
                    &&& self.size_at(bj as int) > 1
                    &&& bk.0 == entropy_num(self.dom_at(bj as int), self.freq_seq())
                    &&& bk.1 == domain_total(self.dom_at(bj as int), self.freq_seq())
                    &&& forall|q: int|
                        0 <= q < j && #[trigger] self.size_at(q) > 1 ==> self.entropy_le(
                            bj as int,
                            q,
                        )
                    &&& forall|q: int|
                        0 <= q < bj && #[trigger] self.size_at(q) > 1 ==> !self.entropy_le(
                            q,
                            bj as int,
                        )
                },
            decreases n - j,
        {
            if self.domains[j].size() > 1 {
                proof {
                    assert(self.size_at(j as int) > 1);
                    assert(self.cache_ok_at(j as int));
                }
                let key = self.entropy_cache[j];
                match best {
                    None => {
                        best = Some((j, key));
                    },
                    Some((bj, bk)) => {
                        proof {
                            assert((key.0 as int) * (bk.1 as int)
                                < 0x1_0000_0000_0000_0000_0000_0000_0000_0000) by (nonlinear_arith)
                                requires
                                    (key.0 as int) < 0x1_0000_0000_0000_0000,
                                    (bk.1 as int) < 0x1_0000_0000_0000_0000;
                            assert((bk.0 as int) * (key.1 as int)
                                < 0x1_0000_0000_0000_0000_0000_0000_0000_0000) by (nonlinear_arith)
                                requires
                                    (bk.0 as int) < 0x1_0000_0000_0000_0000,
                                    (key.1 as int) < 0x1_0000_0000_0000_0000;
                        }
                        if (key.0 as u128) * (bk.1 as u128) < (bk.0 as u128) * (key.1 as u128) {
                            proof {
                                let a_j = key.0 as int;
                                let t_j = key.1 as int;
                                let a_b = bk.0 as int;
                                let t_b = bk.1 as int;
                                assert forall|q: int|
                                    0 <= q < j && #[trigger] self.size_at(q)
                                        > 1 implies self.entropy_le(j as int, q)
                                    && !self.entropy_le(q, j as int) by {
                                    let a_q = entropy_num(self.dom_at(q), self.freq_seq());
                                    let t_q = domain_total(self.dom_at(q), self.freq_seq());
                                    assert(self.entropy_le(bj as int, q));
                                    lemma_key_trans(a_j, t_j, a_b, t_b, a_q, t_q);
                                }
                            }
                            best = Some((j, key));
                        }
                    },
                }
            }
            j = j + 1;
        }
        match best {
            None => None,
            Some((bj, _)) => Some(bj),
        }
    }

    /// Propagates the consequences of a change at `start` through the
    /// store: a worklist pass that, for each pending location, restricts
    /// every targeted neighbor to the items some still-possible choice at
    /// the source permits, re-queueing neighbors that shrink, until no more
    /// change occurs.
    ///
    /// On success every location keeps a non-empty possibility set, sets
    /// have only shrunk, and every source that was arc-consistent at entry,
    /// was the seed, or shrank during the pass is arc-consistent at exit.
    /// On failure the full list of locations whose sets became empty is
    /// returned; the engine must then be discarded.
    pub fn propogate(&mut self, start: (usize, usize)) -> (r: Result<(), Vec<(usize, usize)>>)
        requires
            old(self).wf(),
            old(self).tracks(start),
            forall|j: int| 0 <= j < old(self).spec_n() ==> #[trigger] old(self).size_at(j) >= 1,
        ensures
            final(self).wf(),
            final(self).spec_n() == old(self).spec_n(),
            final(self).spec_m() == old(self).spec_m(),
            final(self).freq_seq() == old(self).freq_seq(),
            forall|j: int| 0 <= j < final(self).spec_n() ==> #[trigger] final(self).loc_at(j)
                == old(self).loc_at(j),
            forall|i: int| 0 <= i < final(self).spec_m() ==> #[trigger] final(self).rels_at(i)
                == old(self).rels_at(i),
            forall|j: int| 0 <= j < final(self).spec_n() ==> mask_below(
                #[trigger] final(self).dom_at(j),
                old(self).dom_at(j),
            ),
            forall|j: int| 0 <= j < final(self).spec_n() ==> #[trigger] final(self).size_at(j)
                <= old(self).size_at(j),
            r is Ok ==> forall|j: int| 0 <= j < final(self).spec_n()
                ==> #[trigger] final(self).size_at(j) >= 1,
            r is Ok ==> forall|j: int, j2: int|
                0 <= j < final(self).spec_n() && 0 <= j2 < final(self).spec_n() && (old(
                    self,
                ).arc_ok(j, j2) || old(self).loc_at(j) == start || final(self).dom_at(j) != old(
                    self,
                ).dom_at(j)) ==> #[trigger] final(self).arc_ok(j, j2),
            final(self).removals_supported(*old(self)),
            r matches Err(cs) ==> cs@.len() >= 1,
            r matches Err(cs) ==> forall|j: int|
                0 <= j < final(self).spec_n() ==> ((#[trigger] final(self).size_at(j)) == 0
                    <==> loc_listed(cs@, final(self).loc_at(j))),
            r matches Err(cs) ==> forall|k: int| 0 <= k < cs@.len() ==> final(self).tracks(
                #[trigger] cs@[k],
            ),
    {
        proof {
            self.lemma_wf();
            self.frequencies.lemma_inv();
        }
        let ghost orig = *self;
        let start_idx = match self.find_loc(start) {
            Some(j) => j,
            None => {
                proof {
                    assert(false);
                }
                0
            },
        };
        let n = self.locs.len();
        let m = self.relations.len();
        let mut worklist: Vec<usize> = Vec::new();
        worklist.push(start_idx);
        let mut touched: Vec<usize> = Vec::new();
        touched.push(start_idx);
        let mut contras: Vec<usize> = Vec::new();
        proof {
            assert forall|j: int, j2: int|
                0 <= j < self.spec_n() && 0 <= j2 < self.spec_n() && self.size_at(j) >= 1
                    && !idx_listed(worklist@, j) && j != -1 && (orig.arc_ok(j, j2) || j
                    == start_idx || self.dom_at(j) != orig.dom_at(j)) implies #[trigger] self
                .arc_ok(j, j2) by {
                assert(worklist@[0] == start_idx);
                assert(self.dom_at(j) == orig.dom_at(j));
                assert(j != start_idx);
                assert(orig.domains@[j]@.len() == orig.spec_m());
                assert(orig.domains@[j2]@.len() == orig.spec_m());
                Self::lemma_arc_preserved(orig, *self, j, j2);
            }
            assert forall|j: int, t: int|
                0 <= j < self.spec_n() && 0 <= t < self.spec_m() && orig.possible(j, t) && !(
                #[trigger] self.possible(j, t)) implies exists|j2: int, d: Seq<bool>|
                {
                    &&& 0 <= j2 < self.spec_n()
                    &&& #[trigger] mask_below(self.dom_at(j2), d)
                    &&& mask_below(d, orig.dom_at(j2))
                    &&& orig.targets(j2, d, orig.loc_at(j))
                    &&& !orig.allows(j2, d, orig.loc_at(j), t)
                } by {
                assert(self.possible(j, t) == orig.possible(j, t));
                assert(false);
            }
            assert(self.removals_supported(orig));
        }
        while worklist.len() > 0
            invariant
                self.store_ok(),
                n == self.spec_n(),
                m == self.spec_m(),
                self.locs@ == orig.locs@,
                self.relations@ == orig.relations@,
                self.frequencies == orig.frequencies,
                self.entropy_cache@ == orig.entropy_cache@,
                orig.wf(),
                orig.spec_n() == n,
                orig.spec_m() == m,
                0 <= start_idx < n,
                forall|j: int| 0 <= j < n ==> #[trigger] orig.size_at(j) >= 1,
                forall|j: int| 0 <= j < n ==> mask_below(
                    #[trigger] self.dom_at(j),
                    orig.dom_at(j),
                ),
                forall|k: int| 0 <= k < worklist@.len() ==> #[trigger] worklist@[k] < n,
                forall|k: int| 0 <= k < contras@.len() ==> #[trigger] contras@[k] < n,
                forall|j: int| 0 <= j < n ==> ((#[trigger] self.size_at(j)) == 0 <==> idx_listed(
                    contras@,
                    j,
                )),
                forall|k: int| 0 <= k < touched@.len() ==> #[trigger] touched@[k] < n,
                forall|j: int| 0 <= j < n && self.dom_at(j) != orig.dom_at(j) ==> idx_listed(
                    touched@,
                    j,
                ),
                self.prop_settled(orig, start_idx as int, worklist@, -1),
                self.removals_supported(orig),
            decreases 2 * total_sizes(self.domains@, n as int) + worklist@.len(),
        {
            let ghost pre_pop = worklist@;
            let l = match worklist.pop() {
                Some(x) => x,
                None => {
                    proof {
                        assert(false);
                    }
                    0
                },
            };
            let ghost s_pop = *self;
            let ghost snap = self.dom_at(l as int);
            let ghost wl0 = worklist@;
            let ghost ts0 = total_sizes(self.domains@, n as int);
            let pairs = self.collect_effects(l);
            let (eff_locs, eff_masks) = build_effect_masks(&pairs, m);
            let ne = eff_locs.len();
            proof {
                // Pairs targeting any location cover every target of the
                // snapshot domain.
                assert forall|n2: (usize, usize)|
                    #[trigger] s_pop.targets(l as int, snap, n2) implies loc_listed(
                    eff_locs@,
                    n2,
                ) by {
                    assert(loc_in_pairs(pairs@, n2));
                    let p = choose|p: int| 0 <= p < pairs@.len() && (#[trigger] pairs@[p]).0 == n2;
                    assert(loc_listed(eff_locs@, (pairs@[p]).0));
                }
                assert(mask_below(snap, orig.dom_at(l as int)));
                assert(mask_below(self.dom_at(l as int), snap));
                // Dropping the popped index from the worklist keeps every
                // other settled source settled.
                assert(wl0 == pre_pop.subrange(0, pre_pop.len() - 1));
                assert forall|j: int, j2: int|
                    0 <= j < n && 0 <= j2 < n && self.size_at(j) >= 1 && !idx_listed(wl0, j) && j
                        != l as int && (orig.arc_ok(j, j2) || j == start_idx || self.dom_at(j)
                        != orig.dom_at(j)) implies #[trigger] self.arc_ok(j, j2) by {
                    assert(!idx_listed(pre_pop, j)) by {
                        if idx_listed(pre_pop, j) {
                            let kk = choose|kk: int| 0 <= kk < pre_pop.len() && pre_pop[kk] == j;
                            if kk < pre_pop.len() - 1 {
                                assert(wl0[kk] == pre_pop[kk]);
                                assert(idx_listed(wl0, j));
                            } else {
                                assert(pre_pop[pre_pop.len() - 1] == l);
                            }
                        }
                    }
                }
            }
            let mut q: usize = 0;
            while q < ne
                invariant
                    self.store_ok(),
                    n == self.spec_n(),
                    m == self.spec_m(),
                    self.locs@ == orig.locs@,
                    self.relations@ == orig.relations@,
                    self.frequencies == orig.frequencies,
                    self.entropy_cache@ == orig.entropy_cache@,
                    orig.wf(),
                    orig.spec_n() == n,
                    orig.spec_m() == m,
                    0 <= start_idx < n,
                    q <= ne,
                    l < n,
                    forall|j: int| 0 <= j < n ==> #[trigger] orig.size_at(j) >= 1,
                    forall|j: int| 0 <= j < n ==> mask_below(
                        #[trigger] self.dom_at(j),
                        orig.dom_at(j),
                    ),
                    forall|k: int| 0 <= k < worklist@.len() ==> #[trigger] worklist@[k] < n,
                    forall|k: int| 0 <= k < contras@.len() ==> #[trigger] contras@[k] < n,
                    forall|j: int| 0 <= j < n ==> ((#[trigger] self.size_at(j)) == 0
                        <==> idx_listed(contras@, j)),
                    forall|k: int| 0 <= k < touched@.len() ==> #[trigger] touched@[k] < n,
                    forall|j: int| 0 <= j < n && self.dom_at(j) != orig.dom_at(j) ==> idx_listed(
                        touched@,
                        j,
                    ),
                    s_pop.same_rules(*self),
                    s_pop.spec_n() == n,
                    s_pop.spec_m() == m,
                    snap == s_pop.dom_at(l as int),
                    snap.len() == m,
                    ne == eff_locs@.len(),
                    ne == eff_masks@.len(),
                    forall|q2: int| 0 <= q2 < ne ==> (#[trigger] eff_masks@[q2])@.len() == m,
                    forall|q1: int, q2: int| 0 <= q1 < ne && 0 <= q2 < ne && q1 != q2
                        ==> eff_locs@[q1] != eff_locs@[q2],
                    forall|q2: int, t: int|
                        0 <= q2 < ne && 0 <= t < m ==> ((#[trigger] eff_masks@[q2]@[t])
                            <==> pair_in(pairs@, eff_locs@[q2], t)),
                    forall|p: int| 0 <= p < pairs@.len() ==> s_pop.allows(
                        l as int,
                        snap,
                        (#[trigger] pairs@[p]).0,
                        pairs@[p].1 as int,
                    ),
                    forall|n2: (usize, usize)| #[trigger] s_pop.targets(l as int, snap, n2)
                        ==> loc_listed(eff_locs@, n2),
                    forall|n2: (usize, usize), t2: int|
                        #[trigger] s_pop.allows(l as int, snap, n2, t2) ==> pair_in(
                            pairs@,
                            n2,
                            t2,
                        ),
                    2 * total_sizes(self.domains@, n as int) + worklist@.len() <= 2 * ts0
                        + wl0.len(),
                    self.prop_settled(orig, start_idx as int, worklist@, l as int),
                    self.removals_supported(orig),
                    mask_below(self.dom_at(l as int), snap),
                    mask_below(snap, orig.dom_at(l as int)),
                    forall|q2: int| 0 <= q2 < ne ==> loc_in_pairs(
                        pairs@,
                        #[trigger] eff_locs@[q2],
                    ),
                    forall|j2: int|
                        0 <= j2 < n && (exists|q2: int|
                            0 <= q2 < q && eff_locs@[q2] == #[trigger] self.loc_at(j2)) ==> (
                        forall|t: int|
                            0 <= t < m && #[trigger] self.possible(j2, t) ==> s_pop.allows(
                                l as int,
                                snap,
                                self.loc_at(j2),
                                t,
                            )),
                    self.dom_at(l as int) == snap || idx_listed(worklist@, l as int)
                        || self.size_at(l as int) == 0,
                decreases ne - q,
            {
                let target = eff_locs[q];
                let ghost pre = *self;
                let ghost wl_it = worklist@;
                let ghost touched0 = touched@;
                let ghost contras0 = contras@;
                match self.find_loc(target) {
                    None => {
                        proof {
                            assert forall|j2: int|
                                0 <= j2 < n && (exists|q2: int|
                                    0 <= q2 < q + 1 && eff_locs@[q2] == #[trigger] self.loc_at(
                                        j2,
                                    )) implies (forall|t: int|
                                0 <= t < m && #[trigger] self.possible(j2, t) ==> s_pop.allows(
                                    l as int,
                                    snap,
                                    self.loc_at(j2),
                                    t,
                                )) by {
                                let q2 = choose|q2: int|
                                    0 <= q2 < q + 1 && eff_locs@[q2] == self.loc_at(j2);
                                if q2 == q {
                                    assert(self.loc_at(j2) != target);
                                    assert(false);
                                }
                            }
                        }
                    },
                    Some(j2) => {
                        proof {
                            assert(self.domains@[j2 as int].inv());
                        }
                        let before = self.domains[j2].size();
                        let nd = self.domains[j2].intersected(&eff_masks[q]);
                        let after = nd.size();
                        if after != before {
                            proof {
                                crate::domain::lemma_count_mono(nd@, pre.dom_at(j2 as int));
                            }
                            self.domains.set(j2, nd);
                            touched.push(j2);
                            proof {
                                lemma_total_sizes_update(pre.domains@, j2 as int, nd, n as int);
                            }
                            if after == 0 {
                                contras.push(j2);
                            } else {
                                if !idx_in(&worklist, j2) {
                                    worklist.push(j2);
                                }
                            }
                            proof {
                                let ghost cur = *self;
                                // Frame facts.
                                assert(cur.dom_at(j2 as int) == nd@);
                                assert forall|j: int| 0 <= j < n && j != j2 implies #[trigger] cur
                                    .dom_at(j) == pre.dom_at(j) by {}
                                assert forall|jx: int| 0 <= jx < n implies (#[trigger] cur
                                    .domains@[jx]).inv() && cur.domains@[jx]@.len() == m by {
                                    if jx != j2 {
                                        assert(cur.domains@[jx] == pre.domains@[jx]);
                                        assert(pre.domains@[jx].inv());
                                        assert(pre.domains@[jx]@.len() == m);
                                    }
                                }
                                assert forall|q1: int, q2x: int|
                                    0 <= q1 < n && 0 <= q2x < n && q1 != q2x implies cur.loc_at(
                                    q1,
                                ) != cur.loc_at(q2x) by {
                                    assert(pre.loc_at(q1) != pre.loc_at(q2x));
                                }
                                // The measure drops by at least the shrink.
                                assert(count_true(nd@) < count_true(pre.dom_at(j2 as int)));
                                assert(total_sizes(cur.domains@, n as int) <= total_sizes(
                                    pre.domains@,
                                    n as int,
                                ) - 1);
                                assert(worklist@.len() <= wl_it.len() + 1);
                                // Monotonicity.
                                assert forall|j: int| 0 <= j < n implies mask_below(
                                    #[trigger] cur.dom_at(j),
                                    orig.dom_at(j),
                                ) by {
                                    if j == j2 {
                                        crate::domain::lemma_mask_below_trans(
                                            nd@,
                                            pre.dom_at(j),
                                            orig.dom_at(j),
                                        );
                                    }
                                }
                                // Contradiction list stays exact.
                                assert forall|j: int| 0 <= j < n implies ((#[trigger] cur.size_at(
                                    j,
                                )) == 0 <==> idx_listed(contras@, j)) by {
                                    if j == j2 {
                                        if after == 0 {
                                            assert(contras@ == contras0.push(j2));
                                            assert(contras@[contras@.len() - 1] == j2);
                                            assert(cur.size_at(j) == 0);
                                        } else {
                                            assert(contras@ == contras0);
                                            assert(cur.size_at(j) == after);
                                            assert(pre.size_at(j) == before);
                                            assert(!idx_listed(contras0, j));
                                        }
                                    } else {
                                        assert(cur.dom_at(j) == pre.dom_at(j));
                                        assert(cur.size_at(j) == pre.size_at(j));
                                        assert((pre.size_at(j) == 0) <==> idx_listed(
                                            contras0,
                                            j,
                                        ));
                                        if after == 0 {
                                            assert(contras@ == contras0.push(j2));
                                            if idx_listed(contras@, j) {
                                                let k = choose|k: int|
                                                    0 <= k < contras@.len() && contras@[k] == j;
                                                if k < contras@.len() - 1 {
                                                    assert(contras@[k] == contras0[k]);
                                                    assert(idx_listed(contras0, j));
                                                } else {
                                                    assert(false);
                                                }
                                            }
                                            if cur.size_at(j) == 0 {
                                                assert(idx_listed(contras0, j));
                                                lemma_idx_listed_grow(contras0, contras@, j);
                                            }
                                        } else {
                                            assert(contras@ == contras0);
                                        }
                                    }
                                }
                                // Touched list still covers every change.
                                assert forall|j: int|
                                    0 <= j < n && cur.dom_at(j) != orig.dom_at(
                                        j,
                                    ) implies idx_listed(touched@, j) by {
                                    assert(touched@ == touched0.push(j2));
                                    if j == j2 {
                                        assert(touched@[touched@.len() - 1] == j2);
                                    } else {
                                        assert(pre.dom_at(j) != orig.dom_at(j));
                                        lemma_idx_listed_grow(touched0, touched@, j);
                                    }
                                }
                                // Settled sources stay arc-consistent.
                                assert forall|j: int, j2x: int|
                                    0 <= j < n && 0 <= j2x < n && cur.size_at(j) >= 1
                                        && !idx_listed(worklist@, j) && j != l && (orig.arc_ok(
                                        j,
                                        j2x,
                                    ) || j == start_idx || cur.dom_at(j) != orig.dom_at(
                                        j,
                                    )) implies #[trigger] cur.arc_ok(j, j2x) by {
                                    if j == j2 {
                                        // A shrunk location is re-queued or
                                        // contradicted.
                                        if after == 0 {
                                            assert(cur.size_at(j) == 0);
                                            assert(false);
                                        } else {
                                            assert(idx_listed(worklist@, j)) by {
                                                if worklist@.len() > wl_it.len() {
                                                    assert(worklist@[worklist@.len() - 1] == j2);
                                                } else {
                                                    assert(idx_listed(wl_it, j2 as int));
                                                    lemma_idx_listed_grow(
                                                        wl_it,
                                                        worklist@,
                                                        j2 as int,
                                                    );
                                                }
                                            }
                                            assert(false);
                                        }
                                    } else {
                                        assert(cur.dom_at(j) == pre.dom_at(j));
                                        assert(!idx_listed(wl_it, j)) by {
                                            if idx_listed(wl_it, j) {
                                                lemma_idx_listed_grow(wl_it, worklist@, j);
                                            }
                                        }
                                        assert(pre.arc_ok(j, j2x));
                                        assert(pre.domains@[j]@.len() == m);
                                        assert(pre.domains@[j2x]@.len() == m);
                                        if j2x == j2 {
                                            Self::lemma_arc_preserved(pre, cur, j, j2x);
                                        } else {
                                            assert(cur.dom_at(j2x) == pre.dom_at(j2x));
                                            Self::lemma_arc_preserved(pre, cur, j, j2x);
                                        }
                                    }
                                }
                                // Processed targets of this pass are within
                                // what the snapshot allows.
                                assert forall|j2x: int|
                                    0 <= j2x < n && (exists|q2: int|
                                        0 <= q2 < q + 1 && eff_locs@[q2] == #[trigger] cur.loc_at(
                                            j2x,
                                        )) implies (forall|t: int|
                                    0 <= t < m && #[trigger] cur.possible(j2x, t) ==> s_pop.allows(
                                        l as int,
                                        snap,
                                        cur.loc_at(j2x),
                                        t,
                                    )) by {
                                    let q2 = choose|q2: int|
                                        0 <= q2 < q + 1 && eff_locs@[q2] == cur.loc_at(j2x);
                                    assert forall|t: int|
                                        0 <= t < m && #[trigger] cur.possible(
                                            j2x,
                                            t,
                                        ) implies s_pop.allows(
                                        l as int,
                                        snap,
                                        cur.loc_at(j2x),
                                        t,
                                    ) by {
                                        if j2x == j2 {
                                            assert(eff_locs@[q as int] == cur.loc_at(j2x));
                                            assert(cur.dom_at(j2x)[t]);
                                            assert(eff_masks@[q as int]@[t]);
                                            assert(pair_in(pairs@, eff_locs@[q as int], t));
                                            let p = choose|p: int|
                                                0 <= p < pairs@.len() && (#[trigger] pairs@[p]).0
                                                    == eff_locs@[q as int] && pairs@[p].1 == t;
                                            assert(s_pop.allows(
                                                l as int,
                                                snap,
                                                (pairs@[p]).0,
                                                pairs@[p].1 as int,
                                            ));
                                        } else {
                                            assert(cur.possible(j2x, t) == pre.possible(j2x, t));
                                            if q2 == q {
                                                assert(pre.loc_at(j2x) == target);
                                                assert(pre.loc_at(j2 as int) == target);
                                                assert(j2x == j2 as int);
                                                assert(false);
                                            }
                                            assert(pre.loc_at(j2x) == cur.loc_at(j2x));
                                            assert(exists|q3: int|
                                                0 <= q3 < q && eff_locs@[q3] == pre.loc_at(j2x));
                                            assert(pre.possible(j2x, t));
                                            assert(s_pop.allows(
                                                l as int,
                                                snap,
                                                pre.loc_at(j2x),
                                                t,
                                            ));
                                        }
                                    }
                                }
                                // The popped source's own status.
                                assert(cur.dom_at(l as int) == snap || idx_listed(
                                    worklist@,
                                    l as int,
                                ) || cur.size_at(l as int) == 0) by {
                                    if l as int == j2 as int {
                                        if after == 0 {
                                            assert(cur.size_at(l as int) == 0);
                                        } else {
                                            if worklist@.len() > wl_it.len() {
                                                assert(worklist@[worklist@.len() - 1] == j2);
                                            } else {
                                                assert(idx_listed(wl_it, j2 as int));
                                                lemma_idx_listed_grow(
                                                    wl_it,
                                                    worklist@,
                                                    j2 as int,
                                                );
                                            }
                                        }
                                    } else {
                                        assert(cur.dom_at(l as int) == pre.dom_at(l as int));
                                        if pre.dom_at(l as int) == snap {
                                        } else if pre.size_at(l as int) == 0 {
                                        } else {
                                            assert(idx_listed(wl_it, l as int));
                                            lemma_idx_listed_grow(wl_it, worklist@, l as int);
                                        }
                                    }
                                }
                                // The popped source's set stays inside its
                                // snapshot.
                                assert(mask_below(cur.dom_at(l as int), snap)) by {
                                    if l as int == j2 as int {
                                        crate::domain::lemma_mask_below_trans(
                                            nd@,
                                            pre.dom_at(l as int),
                                            snap,
                                        );
                                    } else {
                                        assert(cur.dom_at(l as int) == pre.dom_at(l as int));
                                    }
                                }
                                // Every removal so far is supported: fresh
                                // ones by the popped source at its
                                // snapshot, earlier ones by their old
                                // witnesses.
                                assert forall|jr: int, t: int|
                                    0 <= jr < n && 0 <= t < m && orig.possible(jr, t) && !(
                                #[trigger] cur.possible(jr, t)) implies exists|
                                    j2x: int,
                                    d: Seq<bool>,
                                |
                                    {
                                        &&& 0 <= j2x < n
                                        &&& #[trigger] mask_below(cur.dom_at(j2x), d)
                                        &&& mask_below(d, orig.dom_at(j2x))
                                        &&& orig.targets(j2x, d, orig.loc_at(jr))
                                        &&& !orig.allows(j2x, d, orig.loc_at(jr), t)
                                    } by {
                                    if jr == j2 as int && pre.possible(jr, t) {
                                        // Freshly removed by this commit.
                                        assert(cur.dom_at(jr)[t] == (pre.dom_at(jr)[t]
                                            && eff_masks@[q as int]@[t]));
                                        assert(!eff_masks@[q as int]@[t]);
                                        assert(!pair_in(pairs@, eff_locs@[q as int], t));
                                        assert(orig.loc_at(jr) == eff_locs@[q as int]);
                                        // The snapshot targets this cell.
                                        assert(loc_in_pairs(pairs@, eff_locs@[q as int]));
                                        let p = choose|p: int|
                                            0 <= p < pairs@.len() && (#[trigger] pairs@[p]).0
                                                == eff_locs@[q as int];
                                        assert(s_pop.allows(
                                            l as int,
                                            snap,
                                            (pairs@[p]).0,
                                            pairs@[p].1 as int,
                                        ));
                                        let i0 = choose|i0: int|
                                            0 <= i0 < m && snap[i0] && #[trigger] rels_emit(
                                                s_pop.rels_at(i0),
                                                s_pop.loc_at(l as int),
                                                (pairs@[p]).0,
                                                pairs@[p].1 as int,
                                            );
                                        assert(s_pop.rels_at(i0) == orig.rels_at(i0));
                                        assert(s_pop.loc_at(l as int) == orig.loc_at(l as int));
                                        let (k0, p0) = choose|k0: int, p0: int|
                                            {
                                                &&& 0 <= k0 < s_pop.rels_at(i0).len()
                                                &&& 0 <= p0 < s_pop.rels_at(i0)[k0].spec_related(
                                                    s_pop.loc_at(l as int),
                                                ).len()
                                                &&& (#[trigger] s_pop.rels_at(
                                                    i0,
                                                )[k0].spec_related(s_pop.loc_at(l as int))[p0]).0
                                                    == (pairs@[p]).0
                                                &&& s_pop.rels_at(i0)[k0].spec_related(
                                                    s_pop.loc_at(l as int),
                                                )[p0].1 == pairs@[p].1 as int
                                            };
                                        assert(rels_target(
                                            orig.rels_at(i0),
                                            orig.loc_at(l as int),
                                            orig.loc_at(jr),
                                        ));
                                        assert(orig.targets(l as int, snap, orig.loc_at(jr)));
                                        assert(!orig.allows(l as int, snap, orig.loc_at(jr), t))
                                            by {
                                            if orig.allows(l as int, snap, orig.loc_at(jr), t) {
                                                let i1 = choose|i1: int|
                                                    0 <= i1 < m && snap[i1] && #[trigger] rels_emit(
                                                        orig.rels_at(i1),
                                                        orig.loc_at(l as int),
                                                        orig.loc_at(jr),
                                                        t,
                                                    );
                                                assert(rels_emit(
                                                    s_pop.rels_at(i1),
                                                    s_pop.loc_at(l as int),
                                                    orig.loc_at(jr),
                                                    t,
                                                ));
                                                assert(s_pop.allows(
                                                    l as int,
                                                    snap,
                                                    orig.loc_at(jr),
                                                    t,
                                                ));
                                                assert(pair_in(pairs@, orig.loc_at(jr), t));
                                                assert(false);
                                            }
                                        }
                                        assert(mask_below(cur.dom_at(l as int), snap));
                                        assert(mask_below(snap, orig.dom_at(l as int)));
                                    } else {
                                        // The removal predates this commit;
                                        // its old witness still serves.
                                        assert(!pre.possible(jr, t));
                                        let (j2w, dw) = choose|j2w: int, dw: Seq<bool>|
                                            {
                                                &&& 0 <= j2w < n
                                                &&& #[trigger] mask_below(pre.dom_at(j2w), dw)
                                                &&& mask_below(dw, orig.dom_at(j2w))
                                                &&& orig.targets(j2w, dw, orig.loc_at(jr))
                                                &&& !orig.allows(j2w, dw, orig.loc_at(jr), t)
                                            };
                                        assert(mask_below(cur.dom_at(j2w), dw)) by {
                                            if j2w == j2 as int {
                                                crate::domain::lemma_mask_below_trans(
                                                    nd@,
                                                    pre.dom_at(j2w),
                                                    dw,
                                                );
                                            } else {
                                                assert(cur.dom_at(j2w) == pre.dom_at(j2w));
                                            }
                                        }
                                    }
                                }
                            }
                        } else {
                            proof {
                                crate::domain::lemma_count_mono(nd@, pre.dom_at(j2 as int));
                                crate::domain::lemma_count_eq_pointwise(
                                    nd@,
                                    pre.dom_at(j2 as int),
                                );
                                assert(nd@ == pre.dom_at(j2 as int));
                                assert forall|j2x: int|
                                    0 <= j2x < n && (exists|q2: int|
                                        0 <= q2 < q + 1 && eff_locs@[q2] == #[trigger] self.loc_at(
                                            j2x,
                                        )) implies (forall|t: int|
                                    0 <= t < m && #[trigger] self.possible(j2x, t)
                                        ==> s_pop.allows(
                                        l as int,
                                        snap,
                                        self.loc_at(j2x),
                                        t,
                                    )) by {
                                    let q2 = choose|q2: int|
                                        0 <= q2 < q + 1 && eff_locs@[q2] == self.loc_at(j2x);
                                    assert forall|t: int|
                                        0 <= t < m && #[trigger] self.possible(
                                            j2x,
                                            t,
                                        ) implies s_pop.allows(
                                        l as int,
                                        snap,
                                        self.loc_at(j2x),
                                        t,
                                    ) by {
                                        if j2x == j2 {
                                            assert(self.dom_at(j2x)[t]);
                                            assert(nd@[t]);
                                            assert(eff_masks@[q as int]@[t]);
                                            assert(pair_in(pairs@, eff_locs@[q as int], t));
                                            let p = choose|p: int|
                                                0 <= p < pairs@.len() && (#[trigger] pairs@[p]).0
                                                    == eff_locs@[q as int] && pairs@[p].1 == t;
                                            assert(s_pop.allows(
                                                l as int,
                                                snap,
                                                (pairs@[p]).0,
                                                pairs@[p].1 as int,
                                            ));
                                        } else {
                                            if q2 == q {
                                                assert(self.loc_at(j2x) == target);
                                                assert(self.loc_at(j2 as int) == target);
                                                assert(false);
                                            }
                                            assert(exists|q3: int|
                                                0 <= q3 < q && eff_locs@[q3] == self.loc_at(
                                                    j2x,
                                                ));
                                            assert(s_pop.allows(
                                                l as int,
                                                snap,
                                                self.loc_at(j2x),
                                                t,
                                            ));
                                        }
                                    }
                                }
                            }
                        }
                    },
                }
                q = q + 1;
            }
            proof {
                // Re-admit the popped source into the settled set.
                let ghost cur = *self;
                assert forall|j: int, j2: int|
                    0 <= j < n && 0 <= j2 < n && cur.size_at(j) >= 1 && !idx_listed(worklist@, j)
                        && j != -1 && (orig.arc_ok(j, j2) || j == start_idx || cur.dom_at(j)
                        != orig.dom_at(j)) implies #[trigger] cur.arc_ok(j, j2) by {
                    if j == l as int {
                        assert(cur.dom_at(l as int) == snap);
                        if cur.targets(j, cur.dom_at(j), cur.loc_at(j2)) {
                            let i = choose|i: int|
                                0 <= i < m && cur.dom_at(j)[i] && #[trigger] rels_target(
                                    cur.rels_at(i),
                                    cur.loc_at(j),
                                    cur.loc_at(j2),
                                );
                            assert(rels_target(s_pop.rels_at(i), s_pop.loc_at(j), s_pop.loc_at(
                                j2,
                            )));
                            assert(s_pop.targets(l as int, snap, s_pop.loc_at(j2)));
                            assert(loc_listed(eff_locs@, cur.loc_at(j2)));
                            let q2 = choose|q2: int|
                                0 <= q2 < eff_locs@.len() && eff_locs@[q2] == cur.loc_at(j2);
                            assert(exists|q3: int|
                                0 <= q3 < eff_locs@.len() && eff_locs@[q3] == cur.loc_at(j2));
                            assert forall|t: int|
                                0 <= t < m && #[trigger] cur.possible(j2, t) implies cur.allows(
                                j,
                                cur.dom_at(j),
                                cur.loc_at(j2),
                                t,
                            ) by {
                                assert(s_pop.allows(l as int, snap, cur.loc_at(j2), t));
                                let i2 = choose|i2: int|
                                    0 <= i2 < m && snap[i2] && #[trigger] rels_emit(
                                        s_pop.rels_at(i2),
                                        s_pop.loc_at(l as int),
                                        cur.loc_at(j2),
                                        t,
                                    );
                                assert(rels_emit(
                                    cur.rels_at(i2),
                                    cur.loc_at(j),
                                    cur.loc_at(j2),
                                    t,
                                ));
                                assert(cur.allows(j, cur.dom_at(j), cur.loc_at(j2), t));
                            }
                        }
                        assert(cur.arc_ok(j, j2));
                    }
                }
                assert(pre_pop.len() == wl0.len() + 1);
                lemma_total_sizes_nonneg(self.domains@, n as int);
            }
        }
        // Refresh the entropy cache of every location the pass touched.
        let ghost done = *self;
        proof {
            assert forall|j: int| 0 <= j < n && #[trigger] self.size_at(j) > 1 implies (self
                .cache_ok_at(j) || (exists|k2: int|
                0 <= k2 < touched@.len() && touched@[k2] == j)) by {
                if self.dom_at(j) == orig.dom_at(j) {
                    assert(orig.cache_ok_at(j));
                    assert(self.entropy_cache@[j] == orig.entropy_cache@[j]);
                    assert(self.cache_ok_at(j));
                } else {
                    assert(idx_listed(touched@, j));
                    let k2 = choose|k2: int| 0 <= k2 < touched@.len() && touched@[k2] == j;
                    assert(0 <= k2 < touched@.len() && touched@[k2] == j);
                }
            }
        }
        let nt = touched.len();
        let mut k: usize = 0;
        while k < nt
            invariant
                k <= nt,
                nt == touched@.len(),
                self.store_ok(),
                n == self.spec_n(),
                m == self.spec_m(),
                self.locs@ == done.locs@,
                self.relations@ == done.relations@,
                self.frequencies == done.frequencies,
                self.domains@ == done.domains@,
                forall|k2: int| 0 <= k2 < touched@.len() ==> #[trigger] touched@[k2] < n,
                forall|j: int|
                    0 <= j < n && #[trigger] self.size_at(j) > 1 ==> (self.cache_ok_at(j) || (
                    exists|k2: int| k <= k2 < touched@.len() && touched@[k2] == j)),
            decreases nt - k,
        {
            let j = touched[k];
            proof {
                assert(self.domains@[j as int].inv());
                self.frequencies.lemma_inv();
                lemma_sum_weights_le_sum_counts(
                    self.domains@[j as int]@,
                    self.frequencies@,
                    m as int,
                );
            }
            if self.domains[j].size() >= 1 {
                let key = entropy_key(self.domains[j].mask_ref(), self.frequencies.counts_ref());
                let ghost prev = *self;
                self.entropy_cache.set(j, key);
                proof {
                    Self::lemma_store_ok_same(prev, *self);
                    assert forall|j3: int|
                        0 <= j3 < n && #[trigger] self.size_at(j3) > 1 implies (self.cache_ok_at(
                        j3,
                    ) || (exists|k2: int| k + 1 <= k2 < touched@.len() && touched@[k2] == j3)) by {
                        if j3 == j as int {
                            assert(self.entropy_cache@[j3].0 == entropy_num(
                                self.dom_at(j3),
                                self.frequencies@,
                            ));
                            assert(self.cache_ok_at(j3));
                        } else {
                            assert(self.entropy_cache@[j3] == prev.entropy_cache@[j3]);
                            if prev.cache_ok_at(j3) {
                                assert(self.cache_ok_at(j3));
                            } else {
                                let k2 = choose|k2: int|
                                    k <= k2 < touched@.len() && touched@[k2] == j3;
                                assert(k2 != k);
                            }
                        }
                    }
                }
            } else {
                proof {
                    assert forall|j3: int|
                        0 <= j3 < n && #[trigger] self.size_at(j3) > 1 implies (self.cache_ok_at(
                        j3,
                    ) || (exists|k2: int| k + 1 <= k2 < touched@.len() && touched@[k2] == j3)) by {
                        if !self.cache_ok_at(j3) {
                            let k2 = choose|k2: int| k <= k2 < touched@.len() && touched@[k2]
                                == j3;
                            assert(k2 != k);
                        }
                    }
                }
            }
            k = k + 1;
        }
        proof {
            assert forall|j: int| 0 <= j < self.spec_n() implies #[trigger] self.cache_ok_at(
                j,
            ) by {
                if self.size_at(j) > 1 {
                    assert(self.cache_ok_at(j));
                }
            }
            assert forall|j: int| 0 <= j < n implies #[trigger] self.loc_at(j) == orig.loc_at(
                j,
            ) by {}
            assert forall|i: int| 0 <= i < m implies #[trigger] self.rels_at(i) == orig.rels_at(
                i,
            ) by {}
            assert forall|j: int| 0 <= j < n implies mask_below(
                #[trigger] self.dom_at(j),
                orig.dom_at(j),
            ) by {
                assert(self.dom_at(j) == done.dom_at(j));
                assert(mask_below(done.dom_at(j), orig.dom_at(j)));
            }
            assert forall|j: int| 0 <= j < n implies #[trigger] self.size_at(j) <= orig.size_at(
                j,
            ) by {
                crate::domain::lemma_count_mono(self.dom_at(j), orig.dom_at(j));
            }
            assert forall|j: int, t: int|
                0 <= j < n && 0 <= t < m && orig.possible(j, t) && !(#[trigger] self.possible(
                    j,
                    t,
                )) implies exists|j2: int, d: Seq<bool>|
                {
                    &&& 0 <= j2 < n
                    &&& #[trigger] mask_below(self.dom_at(j2), d)
                    &&& mask_below(d, orig.dom_at(j2))
                    &&& orig.targets(j2, d, orig.loc_at(j))
                    &&& !orig.allows(j2, d, orig.loc_at(j), t)
                } by {
                assert(self.dom_at(j) == done.dom_at(j));
                assert(!done.possible(j, t));
                let (j2w, dw) = choose|j2w: int, dw: Seq<bool>|
                    {
                        &&& 0 <= j2w < n
                        &&& #[trigger] mask_below(done.dom_at(j2w), dw)
                        &&& mask_below(dw, orig.dom_at(j2w))
                        &&& orig.targets(j2w, dw, orig.loc_at(j))
                        &&& !orig.allows(j2w, dw, orig.loc_at(j), t)
                    };
                assert(self.dom_at(j2w) == done.dom_at(j2w));
                assert(mask_below(self.dom_at(j2w), dw));
            }
            assert(self.removals_supported(orig));
        }
        if contras.len() == 0 {
            proof {
                assert forall|j: int| 0 <= j < n implies #[trigger] self.size_at(j) >= 1 by {
                    assert(self.size_at(j) == done.size_at(j));
                    assert(!idx_listed(contras@, j));
                    assert(done.size_at(j) != 0);
                }
                assert forall|j: int, j2: int|
                    0 <= j < n && 0 <= j2 < n && (orig.arc_ok(j, j2) || orig.loc_at(j) == start
                        || self.dom_at(j) != orig.dom_at(j)) implies #[trigger] self.arc_ok(
                    j,
                    j2,
                ) by {
                    if orig.loc_at(j) == start && j != start_idx {
                        assert(orig.loc_at(j) != orig.loc_at(start_idx as int));
                        assert(false);
                    }
                    assert(done.size_at(j) >= 1) by {
                        assert(!idx_listed(contras@, j));
                    }
                    assert(self.dom_at(j) == done.dom_at(j));
                    assert(done.arc_ok(j, j2));
                    assert(done.domains@[j]@.len() == m);
                    assert(done.domains@[j2]@.len() == m);
                    Self::lemma_arc_preserved(done, *self, j, j2);
                }
            }
            Ok(())
        } else {
            let nc = contras.len();
            let mut out: Vec<(usize, usize)> = Vec::new();
            let mut k2: usize = 0;
            while k2 < nc
                invariant
                    k2 <= nc,
                    nc == contras@.len(),
                    n == self.spec_n(),
                    out@.len() == k2,
                    forall|k3: int| 0 <= k3 < contras@.len() ==> #[trigger] contras@[k3] < n,
                    forall|k3: int| 0 <= k3 < k2 ==> #[trigger] out@[k3] == self.loc_at(
                        contras@[k3] as int,
                    ),
                decreases nc - k2,
            {
                let j = contras[k2];
                out.push(self.locs[j]);
                k2 = k2 + 1;
            }
            proof {
                assert forall|j: int| 0 <= j < n implies ((#[trigger] self.size_at(j)) == 0
                    <==> loc_listed(out@, self.loc_at(j))) by {
                    assert(self.size_at(j) == done.size_at(j));
                    if self.size_at(j) == 0 {
                        assert(done.size_at(j) == 0);
                        assert(idx_listed(contras@, j));
                        let k3 = choose|k3: int| 0 <= k3 < contras@.len() && contras@[k3] == j;
                        assert(out@[k3] == self.loc_at(j));
                    }
                    if loc_listed(out@, self.loc_at(j)) {
                        let k3 = choose|k3: int|
                            0 <= k3 < out@.len() && out@[k3] == self.loc_at(j);
                        let j4 = contras@[k3] as int;
                        assert(done.size_at(j4) == 0) by {
                            assert(contras@[k3] == j4);
                            assert(idx_listed(contras@, j4));
                        }
                        assert(self.size_at(j4) == done.size_at(j4));
                        assert(self.loc_at(j4) == self.loc_at(j));
                        if j4 != j {
                            assert(self.loc_at(j4) != self.loc_at(j));
                            assert(false);
                        }
                    }
                }
                assert forall|k3: int| 0 <= k3 < out@.len() implies self.tracks(
                    #[trigger] out@[k3],
                ) by {
                    let j4 = contras@[k3] as int;
                    assert(out@[k3] == self.loc_at(j4));
                    assert(0 <= j4 < self.spec_n() && self.loc_at(j4) == out@[k3]);
                }
            }
            Err(out)
        }
    }

    /// One full observation step, with the weighted draw injected: selects
    /// the first undetermined location of minimum entropy, collapses it to
    /// the item that `draw` (reduced modulo the location's total weight)
    /// lands on, and propagates the consequences.  Deterministic: the same
    /// engine state and draw always give the same result.
    pub fn observe_with(&mut self, draw: u64) -> (r: Result<(), StepError>)
        requires
            old(self).wf(),
            forall|j: int| 0 <= j < old(self).spec_n() ==> #[trigger] old(self).size_at(j) >= 1,
        ensures
            final(self).wf(),
            final(self).spec_n() == old(self).spec_n(),
            final(self).spec_m() == old(self).spec_m(),
            final(self).freq_seq() == old(self).freq_seq(),
            forall|j: int| 0 <= j < final(self).spec_n() ==> #[trigger] final(self).loc_at(j)
                == old(self).loc_at(j),
            forall|i: int| 0 <= i < final(self).spec_m() ==> #[trigger] final(self).rels_at(i)
                == old(self).rels_at(i),
            forall|j: int| 0 <= j < final(self).spec_n() ==> mask_below(
                #[trigger] final(self).dom_at(j),
                old(self).dom_at(j),
            ),
            forall|j: int| 0 <= j < final(self).spec_n() ==> #[trigger] final(self).size_at(j)
                <= old(self).size_at(j),
            (r matches Err(e) && e is NothingToCollapse) <==> (forall|j: int|
                0 <= j < old(self).spec_n() ==> #[trigger] old(self).size_at(j) <= 1),
            r matches Err(e) && e is NothingToCollapse ==> *final(self) == *old(self),
            !(r matches Err(e) && e is NothingToCollapse) ==> exists|j: int|
                {
                    &&& 0 <= j < old(self).spec_n()
                    &&& #[trigger] old(self).size_at(j) > 1
                    &&& forall|j2: int|
                        0 <= j2 < old(self).spec_n() && #[trigger] old(self).size_at(j2) > 1
                            ==> old(self).entropy_le(j, j2)
                    &&& forall|j2: int|
                        0 <= j2 < j && #[trigger] old(self).size_at(j2) > 1 ==> !old(
                            self,
                        ).entropy_le(j2, j)
                    &&& exists|c: int|
                        {
                            &&& 0 <= c < old(self).spec_m()
                            &&& old(self).possible(j, c)
                            &&& (r is Ok ==> final(self).possible(j, c))
                            &&& (r is Ok ==> final(self).size_at(j) == 1)
                            &&& (forall|t: int|
                                0 <= t < old(self).spec_m() && #[trigger] final(self).possible(
                                    j,
                                    t,
                                ) ==> t == c)
                            &&& (forall|j4: int, t: int|
                                0 <= j4 < old(self).spec_n() && 0 <= t < old(self).spec_m() && (
                                if j4 == j {
                                    t == c
                                } else {
                                    old(self).possible(j4, t)
                                }) && !(#[trigger] final(self).possible(j4, t)) ==> exists|
                                    j2: int,
                                    d: Seq<bool>,
                                |
                                    {
                                        &&& 0 <= j2 < old(self).spec_n()
                                        &&& #[trigger] mask_below(final(self).dom_at(j2), d)
                                        &&& mask_below(d, old(self).dom_at(j2))
                                        &&& old(self).targets(j2, d, old(self).loc_at(j4))
                                        &&& !old(self).allows(j2, d, old(self).loc_at(j4), t)
                                    })
                            &&& sum_weights(old(self).dom_at(j), old(self).freq_seq(), c) <= (
                            draw as int) % domain_total(old(self).dom_at(j), old(self).freq_seq())
                                < sum_weights(old(self).dom_at(j), old(self).freq_seq(), c) + old(
                                self,
                            ).freq_seq()[c]
                        }
                },
            r is Ok ==> forall|j: int| 0 <= j < final(self).spec_n()
                ==> #[trigger] final(self).size_at(j) >= 1,
            r is Ok ==> forall|j: int, j2: int|
                0 <= j < final(self).spec_n() && 0 <= j2 < final(self).spec_n() && (old(
                    self,
                ).arc_ok(j, j2) || final(self).dom_at(j) != old(self).dom_at(j))
                    ==> #[trigger] final(self).arc_ok(j, j2),
            r matches Err(e) ==> (e matches StepError::Contradiction(cs) ==> cs@.len() >= 1
                && (forall|j: int|
                0 <= j < final(self).spec_n() ==> ((#[trigger] final(self).size_at(j)) == 0
                    <==> loc_listed(cs@, final(self).loc_at(j)))) && (forall|k: int|
                0 <= k < cs@.len() ==> final(self).tracks(#[trigger] cs@[k]))),
    {
        proof {
            self.lemma_wf();
            self.frequencies.lemma_inv();
        }
        let ghost o0 = *self;
        match self.next_collapse() {
            None => Err(StepError::NothingToCollapse),
            Some(j) => {
                let l = self.locs[j];
                proof {
                    assert(o0.size_at(j as int) > 1);
                    crate::domain::lemma_count_zero(self.dom_at(j as int));
                    let w = choose|i: int|
                        0 <= i < self.dom_at(j as int).len() && self.dom_at(j as int)[i];
                    crate::entropy::lemma_member_le_sum(
                        self.dom_at(j as int),
                        self.freq_seq(),
                        w,
                        self.spec_m(),
                    );
                    lemma_sum_weights_le_sum_counts(
                        self.domains@[j as int]@,
                        self.frequencies@,
                        self.spec_m(),
                    );
                }
                let t = masked_total(self.domains[j].mask_ref(), self.frequencies.counts_ref());
                let d = draw % t;
                proof {
                    assert(o0.loc_at(j as int) == l);
                    assert(o0.tracks(l));
                    assert forall|j4: int|
                        0 <= j4 < o0.spec_n() && o0.loc_at(j4) == l implies d < domain_total(
                        #[trigger] o0.dom_at(j4),
                        o0.freq_seq(),
                    ) by {
                        if j4 != j as int {
                            assert(o0.loc_at(j4) != o0.loc_at(j as int));
                        }
                    }
                }
                self.collapse_at_with(l, d);
                let ghost mid = *self;
                proof {
                    let jw = choose|jw: int|
                        {
                            &&& 0 <= jw < o0.spec_n()
                            &&& #[trigger] o0.loc_at(jw) == l
                            &&& mid.size_at(jw) == 1
                            &&& exists|c: int|
                                {
                                    &&& 0 <= c < o0.spec_m()
                                    &&& o0.possible(jw, c)
                                    &&& mid.possible(jw, c)
                                    &&& sum_weights(o0.dom_at(jw), o0.freq_seq(), c) <= d
                                        < sum_weights(o0.dom_at(jw), o0.freq_seq(), c)
                                        + o0.freq_seq()[c]
                                }
                        };
                    assert(jw == j as int) by {
                        if jw != j as int {
                            assert(o0.loc_at(jw) != o0.loc_at(j as int));
                        }
                    }
                    assert(mid.size_at(j as int) == 1);
                    assert forall|j4: int| 0 <= j4 < mid.spec_n() implies #[trigger] mid.size_at(
                        j4,
                    ) >= 1 by {
                        if j4 == j as int {
                            assert(mid.size_at(j4) == 1);
                        } else if o0.loc_at(j4) == l {
                            assert(o0.loc_at(j4) != o0.loc_at(j as int));
                            assert(false);
                        } else {
                            assert(mid.dom_at(j4) == o0.dom_at(j4));
                            assert(o0.size_at(j4) >= 1);
                        }
                    }
                    assert(mid.tracks(l)) by {
                        assert(mid.loc_at(j as int) == l);
                    }
                }
                let res = self.propogate(l);
                proof {
                    // The collapsed location's index and chosen item.
                    let jw = choose|jw: int|
                        0 <= jw < o0.spec_n() && #[trigger] o0.loc_at(jw) == l && mid.size_at(jw)
                            == 1 && (exists|c: int|
                            {
                                &&& 0 <= c < o0.spec_m()
                                &&& o0.possible(jw, c)
                                &&& mid.possible(jw, c)
                                &&& sum_weights(o0.dom_at(jw), o0.freq_seq(), c) <= d
                                    < sum_weights(o0.dom_at(jw), o0.freq_seq(), c) + o0.freq_seq(
                                )[c]
                            });
                    assert(jw == j as int) by {
                        if jw != j as int {
                            assert(o0.loc_at(jw) != o0.loc_at(j as int));
                        }
                    }
                    let c = choose|c: int|
                        {
                            &&& 0 <= c < o0.spec_m()
                            &&& o0.possible(j as int, c)
                            &&& mid.possible(j as int, c)
                            &&& sum_weights(o0.dom_at(j as int), o0.freq_seq(), c) <= d
                                < sum_weights(o0.dom_at(j as int), o0.freq_seq(), c)
                                + o0.freq_seq()[c]
                        };
                    if res is Ok {
                        assert(self.possible(j as int, c)) by {
                            assert(self.size_at(j as int) >= 1);
                            crate::domain::lemma_count_zero(self.dom_at(j as int));
                            let w2 = choose|i: int|
                                0 <= i < self.dom_at(j as int).len() && self.dom_at(j as int)[i];
                            assert(mid.dom_at(j as int)[w2]);
                            assert(w2 == c) by {
                                if w2 != c {
                                    crate::domain::lemma_count_two(
                                        mid.dom_at(j as int),
                                        w2,
                                        c,
                                    );
                                }
                            }
                        }
                        assert(self.size_at(j as int) == 1) by {
                            assert(self.size_at(j as int) <= mid.size_at(j as int));
                        }
                    } else {
                        if self.possible(j as int, c) {
                        }
                    }
                    // The collapsed location can only keep the drawn item.
                    assert forall|t: int|
                        0 <= t < o0.spec_m() && #[trigger] self.possible(j as int, t) implies t
                        == c by {
                        assert(mask_below(self.dom_at(j as int), mid.dom_at(j as int)));
                        assert(mid.possible(j as int, t));
                        if t != c {
                            crate::domain::lemma_count_two(mid.dom_at(j as int), t, c);
                        }
                    }
                    // Every removal beyond the collapse itself is supported
                    // by a propagation step, recast over the entry state.
                    assert forall|j4: int, t: int|
                        0 <= j4 < o0.spec_n() && 0 <= t < o0.spec_m() && (if j4 == j as int {
                            t == c
                        } else {
                            o0.possible(j4, t)
                        }) && !(#[trigger] self.possible(j4, t)) implies exists|
                        j2: int,
                        d: Seq<bool>,
                    |
                        {
                            &&& 0 <= j2 < o0.spec_n()
                            &&& #[trigger] mask_below(self.dom_at(j2), d)
                            &&& mask_below(d, o0.dom_at(j2))
                            &&& o0.targets(j2, d, o0.loc_at(j4))
                            &&& !o0.allows(j2, d, o0.loc_at(j4), t)
                        } by {
                        assert(mid.possible(j4, t)) by {
                            if j4 != j as int {
                                assert(o0.loc_at(j4) != o0.loc_at(j as int));
                                assert(mid.dom_at(j4) == o0.dom_at(j4));
                            }
                        }
                        let (j2w, dw) = choose|j2w: int, dw: Seq<bool>|
                            {
                                &&& 0 <= j2w < self.spec_n()
                                &&& #[trigger] mask_below(self.dom_at(j2w), dw)
                                &&& mask_below(dw, mid.dom_at(j2w))
                                &&& mid.targets(j2w, dw, mid.loc_at(j4))
                                &&& !mid.allows(j2w, dw, mid.loc_at(j4), t)
                            };
                        assert(mask_below(mid.dom_at(j2w), o0.dom_at(j2w)));
                        crate::domain::lemma_mask_below_trans(
                            dw,
                            mid.dom_at(j2w),
                            o0.dom_at(j2w),
                        );
                        assert(o0.targets(j2w, dw, o0.loc_at(j4))) by {
                            let i0 = choose|i0: int|
                                0 <= i0 < mid.spec_m() && dw[i0] && #[trigger] rels_target(
                                    mid.rels_at(i0),
                                    mid.loc_at(j2w),
                                    mid.loc_at(j4),
                                );
                            assert(mid.rels_at(i0) == o0.rels_at(i0));
                            assert(mid.loc_at(j2w) == o0.loc_at(j2w));
                            assert(mid.loc_at(j4) == o0.loc_at(j4));
                            assert(rels_target(o0.rels_at(i0), o0.loc_at(j2w), o0.loc_at(j4)));
                        }
                        assert(!o0.allows(j2w, dw, o0.loc_at(j4), t)) by {
                            if o0.allows(j2w, dw, o0.loc_at(j4), t) {
                                let i1 = choose|i1: int|
                                    0 <= i1 < o0.spec_m() && dw[i1] && #[trigger] rels_emit(
                                        o0.rels_at(i1),
                                        o0.loc_at(j2w),
                                        o0.loc_at(j4),
                                        t,
                                    );
                                assert(mid.rels_at(i1) == o0.rels_at(i1));
                                assert(rels_emit(
                                    mid.rels_at(i1),
                                    mid.loc_at(j2w),
                                    mid.loc_at(j4),
                                    t,
                                ));
                                assert(mid.allows(j2w, dw, mid.loc_at(j4), t));
                                assert(false);
                            }
                        }
                    }
                    // Monotonicity composes across the two phases.
                    assert forall|j4: int| 0 <= j4 < self.spec_n() implies mask_below(
                        #[trigger] self.dom_at(j4),
                        o0.dom_at(j4),
                    ) by {
                        crate::domain::lemma_mask_below_trans(
                            self.dom_at(j4),
                            mid.dom_at(j4),
                            o0.dom_at(j4),
                        );
                    }
                    // Arc-consistency carries from entry through both
                    // phases.
                    if res is Ok {
                        assert forall|j4: int, j5: int|
                            0 <= j4 < self.spec_n() && 0 <= j5 < self.spec_n() && (o0.arc_ok(
                                j4,
                                j5,
                            ) || self.dom_at(j4) != o0.dom_at(j4)) implies #[trigger] self.arc_ok(
                            j4,
                            j5,
                        ) by {
                            if o0.arc_ok(j4, j5) && j4 != j as int {
                                assert(mid.dom_at(j4) == o0.dom_at(j4));
                                assert(o0.domains@[j4]@.len() == o0.spec_m());
                                assert(o0.domains@[j5]@.len() == o0.spec_m());
                                Self::lemma_arc_preserved(o0, mid, j4, j5);
                                assert(mid.arc_ok(j4, j5));
                            }
                            if j4 == j as int {
                                assert(mid.loc_at(j4) == l);
                            } else if self.dom_at(j4) != o0.dom_at(j4) {
                                assert(mid.dom_at(j4) == o0.dom_at(j4));
                                assert(self.dom_at(j4) != mid.dom_at(j4));
                            }
                            assert(self.arc_ok(j4, j5));
                        }
                    }
                }
                match res {
                    Ok(()) => Ok(()),
                    Err(cs) => Err(StepError::Contradiction(cs)),
                }
            },
        }
    }

    /// One full observation step: selects the first undetermined location
    /// of minimum entropy, collapses it with a fresh random draw, and
    /// propagates the consequences.
    pub fn observe(&mut self) -> (r: Result<(), StepError>)
        requires
            old(self).wf(),
            forall|j: int| 0 <= j < old(self).spec_n() ==> #[trigger] old(self).size_at(j) >= 1,
        ensures
            final(self).wf(),
            final(self).spec_n() == old(self).spec_n(),
            final(self).spec_m() == old(self).spec_m(),
            final(self).freq_seq() == old(self).freq_seq(),
            forall|j: int| 0 <= j < final(self).spec_n() ==> #[trigger] final(self).loc_at(j)
                == old(self).loc_at(j),
            forall|i: int| 0 <= i < final(self).spec_m() ==> #[trigger] final(self).rels_at(i)
                == old(self).rels_at(i),
            forall|j: int| 0 <= j < final(self).spec_n() ==> mask_below(
                #[trigger] final(self).dom_at(j),
                old(self).dom_at(j),
            ),
            forall|j: int| 0 <= j < final(self).spec_n() ==> #[trigger] final(self).size_at(j)
                <= old(self).size_at(j),
            (r matches Err(e) && e is NothingToCollapse) <==> (forall|j: int|
                0 <= j < old(self).spec_n() ==> #[trigger] old(self).size_at(j) <= 1),
            r matches Err(e) && e is NothingToCollapse ==> *final(self) == *old(self),
            !(r matches Err(e) && e is NothingToCollapse) ==> exists|j: int|
                {
                    &&& 0 <= j < old(self).spec_n()
                    &&& #[trigger] old(self).size_at(j) > 1
                    &&& forall|j2: int|
                        0 <= j2 < old(self).spec_n() && #[trigger] old(self).size_at(j2) > 1
                            ==> old(self).entropy_le(j, j2)
                    &&& forall|j2: int|
                        0 <= j2 < j && #[trigger] old(self).size_at(j2) > 1 ==> !old(
                            self,
                        ).entropy_le(j2, j)
                    &&& exists|c: int|
                        {
                            &&& 0 <= c < old(self).spec_m()
                            &&& old(self).possible(j, c)
                            &&& (r is Ok ==> final(self).possible(j, c))
                            &&& (r is Ok ==> final(self).size_at(j) == 1)
                            &&& (forall|t: int|
                                0 <= t < old(self).spec_m() && #[trigger] final(self).possible(
                                    j,
                                    t,
                                ) ==> t == c)
                            &&& (forall|j4: int, t: int|
                                0 <= j4 < old(self).spec_n() && 0 <= t < old(self).spec_m() && (
                                if j4 == j {
                                    t == c
                                } else {
                                    old(self).possible(j4, t)
                                }) && !(#[trigger] final(self).possible(j4, t)) ==> exists|
                                    j2: int,
                                    d: Seq<bool>,
                                |
                                    {
                                        &&& 0 <= j2 < old(self).spec_n()
                                        &&& #[trigger] mask_below(final(self).dom_at(j2), d)
                                        &&& mask_below(d, old(self).dom_at(j2))
                                        &&& old(self).targets(j2, d, old(self).loc_at(j4))
                                        &&& !old(self).allows(j2, d, old(self).loc_at(j4), t)
                                    })
                        }
                },
            r is Ok ==> forall|j: int| 0 <= j < final(self).spec_n()
                ==> #[trigger] final(self).size_at(j) >= 1,
            r is Ok ==> forall|j: int, j2: int|
                0 <= j < final(self).spec_n() && 0 <= j2 < final(self).spec_n() && (old(
                    self,
                ).arc_ok(j, j2) || final(self).dom_at(j) != old(self).dom_at(j))
                    ==> #[trigger] final(self).arc_ok(j, j2),
            r matches Err(e) ==> (e matches StepError::Contradiction(cs) ==> cs@.len() >= 1
                && (forall|j: int|
                0 <= j < final(self).spec_n() ==> ((#[trigger] final(self).size_at(j)) == 0
                    <==> loc_listed(cs@, final(self).loc_at(j)))) && (forall|k: int|
                0 <= k < cs@.len() ==> final(self).tracks(#[trigger] cs@[k]))),
    {
        let fresh = rand_below(u64::MAX);
        self.observe_with(fresh)
    }

    /// The entropy key of a tracked, non-contradicted location, computed
    /// from the current possibility set: the pair of the entropy numerator
    /// and the total weight (see `entropy_num`).  Stateless; the engine
    /// keeps a cache of these keys for its own selection step.
    pub fn shannon_entropy_at(&self, l: (usize, usize)) -> (r: (u64, u64))
        requires
            self.wf(),
            self.tracks(l),
            forall|j: int| 0 <= j < self.spec_n() && self.loc_at(j) == l
                ==> #[trigger] self.size_at(j) >= 1,
        ensures
            exists|j: int|
                {
                    &&& 0 <= j < self.spec_n()
                    &&& #[trigger] self.loc_at(j) == l
                    &&& r.0 == entropy_num(self.dom_at(j), self.freq_seq())
                    &&& r.1 == domain_total(self.dom_at(j), self.freq_seq())
                },
    {
        proof {
            self.lemma_wf();
            self.frequencies.lemma_inv();
        }
        match self.find_loc(l) {
            Some(j) => {
                proof {
                    lemma_sum_weights_le_sum_counts(
                        self.domains@[j as int]@,
                        self.frequencies@,
                        self.spec_m(),
                    );
                    assert(self.size_at(j as int) >= 1);
                }
                let r = entropy_key(self.domains[j].mask_ref(), self.frequencies.counts_ref());
                proof {
                    assert(self.loc_at(j as int) == l);
                }
                r
            },
            None => {
                proof {
                    assert(false);
                }
                (0, 0)
            },
        }
    }
}

} // verus!
