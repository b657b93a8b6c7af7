use vstd::prelude::*;
use crate::entropy::{sum_weights, MAX_WEIGHT_TOTAL};

verus! {

/// A fault found while building an engine.
#[derive(Clone, Copy, Debug, PartialEq, Eq, Structural)]
pub enum BuildError {
    /// The item universe is empty.
    EmptyUniverse,
    /// An occurrence names an item outside the universe.
    UnknownItem,
    /// An item of the universe never occurs, so its weight would be zero.
    ZeroWeightItem,
    /// The same location was supplied twice.
    DuplicateLocation,
    /// The summed weights exceed what the engine's arithmetic accepts.
    WeightOverflow,
}

/// How many entries of `occ` equal `v`.
pub open spec fn occ_count(occ: Seq<usize>, v: int) -> nat
    decreases occ.len(),
{
    if occ.len() == 0 {
        0
    } else {
        occ_count(occ.drop_last(), v) + (if occ.last() == v {
            1nat
        } else {
            0nat
        })
    }
}

/// The sum of the first `i` entries.
pub open spec fn sum_counts(s: Seq<u64>, i: int) -> int
    decreases i,
{
    if i <= 0 {
        0
    } else {
        sum_counts(s, i - 1) + s[i - 1]
    }
}

pub proof fn lemma_sum_counts_update(s: Seq<u64>, j: int, v: u64, i: int)
    requires
        0 <= j < s.len(),
        i <= s.len(),
    ensures
        sum_counts(s.update(j, v), i) == sum_counts(s, i) + (if j < i {
            v - s[j]
        } else {
            0
        }),
    decreases i,
{
    if i > 0 {
        lemma_sum_counts_update(s, j, v, i - 1);
    }
}

/// A masked sum never exceeds the unmasked sum.
pub proof fn lemma_sum_weights_le_sum_counts(mask: Seq<bool>, counts: Seq<u64>, i: int)
    ensures
        sum_weights(mask, counts, i) <= sum_counts(counts, i),
    decreases i,
{
    if i > 0 {
        lemma_sum_weights_le_sum_counts(mask, counts, i - 1);
    }
}

/// The frequency model: per item of the universe, the number of times it
/// occurred in the construction input.  The weight of item `i` is
/// `counts[i] / total`, a probability since the counts sum to the total.
pub struct FrequencyTable {
    counts: Vec<u64>,
    total: u64,
}

impl View for FrequencyTable {
    type V = Seq<u64>;

    closed spec fn view(&self) -> Seq<u64> {
        self.counts@
    }
}

impl FrequencyTable {
    /// The sum of all occurrence counts.
    pub closed spec fn spec_total(self) -> int {
        self.total as int
    }

    pub closed spec fn inv(self) -> bool {
        &&& self@.len() >= 1
        &&& forall|i: int| 0 <= i < self@.len() ==> #[trigger] self@[i] >= 1
        &&& self.total == sum_counts(self@, self@.len() as int)
        &&& self.total <= MAX_WEIGHT_TOTAL
    }

    /// The invariant, re-stated for callers that only hold the views.
    pub proof fn lemma_inv(self)
        requires
            self.inv(),
        ensures
            self@.len() >= 1,
            forall|i: int| 0 <= i < self@.len() ==> #[trigger] self@[i] >= 1,
            self.spec_total() == sum_counts(self@, self@.len() as int),
            1 <= self.spec_total() <= MAX_WEIGHT_TOTAL,
    {
        assert(self@[0] >= 1);
        assert(sum_counts(self@, 0) == 0);
        assert(sum_counts(self@, 1) == self@[0]);
        lemma_sum_counts_mono(self@, 1, self@.len() as int);
    }

    /// Builds the table from the multiset of item occurrences: item `i` of a
    /// universe of size `m` gets weight `count(i) / total`.
    ///
    /// Fails exactly when the universe is empty, when an occurrence lies
    /// outside the universe, or when some item never occurs.
    pub fn from_occurrences(m: usize, occurrences: &Vec<usize>) -> (r: Result<
        FrequencyTable,
        BuildError,
    >)
        requires
            occurrences@.len() <= MAX_WEIGHT_TOTAL,
        ensures
            r is Err <==> (m == 0 || (exists|k: int|
                0 <= k < occurrences@.len() && #[trigger] occurrences@[k] >= m) || (exists|i: int|
                0 <= i < m && occ_count(occurrences@, i) == 0)),
            r matches Err(e) ==> (e == BuildError::EmptyUniverse <==> m == 0),
            r matches Err(e) ==> (e == BuildError::UnknownItem <==> (m != 0 && exists|k: int|
                0 <= k < occurrences@.len() && #[trigger] occurrences@[k] >= m)),
            r matches Err(e) ==> (e == BuildError::ZeroWeightItem <==> (m != 0 && !(exists|k: int|
                0 <= k < occurrences@.len() && #[trigger] occurrences@[k] >= m) && (exists|i: int|
                0 <= i < m && occ_count(occurrences@, i) == 0))),
            r matches Ok(ft) ==> {
                &&& ft.inv()
                &&& ft@.len() == m
                &&& forall|i: int| 0 <= i < m ==> #[trigger] ft@[i] == occ_count(occurrences@, i)
                &&& ft.spec_total() == occurrences@.len()
            },
    {
        if m == 0 {
            return Err(BuildError::EmptyUniverse);
        }
        let mut counts: Vec<u64> = Vec::new();
        let mut i: usize = 0;
        while i < m
            invariant
                i <= m,
                counts@.len() == i,
                forall|j: int| 0 <= j < i ==> #[trigger] counts@[j] == 0,
                sum_counts(counts@, i as int) == 0,
            decreases m - i,
        {
            let ghost prev = counts@;
            counts.push(0);
            proof {
                lemma_sum_counts_push(prev, 0, i as int + 1);
            }
            i = i + 1;
        }
        let n = occurrences.len();
        let mut k: usize = 0;
        while k < n
            invariant
                k <= n,
                n == occurrences@.len(),
                n <= MAX_WEIGHT_TOTAL,
                counts@.len() == m,
                m >= 1,
                forall|j: int| 0 <= j < k ==> #[trigger] occurrences@[j] < m,
                forall|i2: int| 0 <= i2 < m ==> #[trigger] counts@[i2] == occ_count(
                    occurrences@.take(k as int),
                    i2,
                ),
                sum_counts(counts@, m as int) == k,
            decreases n - k,
        {
            let x = occurrences[k];
            if x >= m {
                return Err(BuildError::UnknownItem);
            }
            let ghost prevc = counts@;
            let cx = counts[x];
            proof {
                lemma_count_le_sum(counts@, x as int, m as int);
            }
            counts.set(x, cx + 1);
            proof {
                lemma_sum_counts_update(prevc, x as int, (cx + 1) as u64, m as int);
                assert forall|i2: int| 0 <= i2 < m implies #[trigger] counts@[i2] == occ_count(
                    occurrences@.take(k + 1),
                    i2,
                ) by {
                    assert(occurrences@.take(k + 1).drop_last() =~= occurrences@.take(k as int));
                    assert(occurrences@.take(k + 1).last() == occurrences@[k as int]);
                }
            }
            k = k + 1;
        }
        proof {
            assert(occurrences@.take(n as int) =~= occurrences@);
        }
        let mut i: usize = 0;
        while i < m
            invariant
                i <= m,
                m >= 1,
                counts@.len() == m,
                n == occurrences@.len(),
                forall|j: int| 0 <= j < n ==> #[trigger] occurrences@[j] < m,
                forall|j: int| 0 <= j < i ==> #[trigger] counts@[j] >= 1,
                forall|i2: int| 0 <= i2 < m ==> #[trigger] counts@[i2] == occ_count(
                    occurrences@,
                    i2,
                ),
            decreases m - i,
        {
            if counts[i] == 0 {
                return Err(BuildError::ZeroWeightItem);
            }
            i = i + 1;
        }
        proof {
            assert forall|i2: int| 0 <= i2 < m implies #[trigger] occ_count(occurrences@, i2)
                >= 1 by {
                assert(counts@[i2] == occ_count(occurrences@, i2));
                assert(counts@[i2] >= 1);
            }
        }
        Ok(FrequencyTable { counts, total: n as u64 })
    }

    /// Builds the table from an explicit weight table: item `i` gets
    /// weight `counts[i] / sum`.  Fails exactly when the universe is
    /// empty, when some item carries weight zero, or when the weights sum
    /// beyond the largest total the engine accepts.
    pub fn from_counts(counts: Vec<u64>) -> (r: Result<FrequencyTable, BuildError>)
        ensures
            r is Err <==> (counts@.len() == 0 || (exists|i: int|
                0 <= i < counts@.len() && #[trigger] counts@[i] == 0) || sum_counts(
                counts@,
                counts@.len() as int,
            ) > MAX_WEIGHT_TOTAL),
            r matches Err(e) ==> (e == BuildError::EmptyUniverse <==> counts@.len() == 0),
            r matches Err(e) ==> (e == BuildError::ZeroWeightItem <==> (counts@.len() != 0
                && exists|i: int| 0 <= i < counts@.len() && #[trigger] counts@[i] == 0)),
            r matches Err(e) ==> (e == BuildError::WeightOverflow <==> (counts@.len() != 0 && !(
            exists|i: int| 0 <= i < counts@.len() && #[trigger] counts@[i] == 0) && sum_counts(
                counts@,
                counts@.len() as int,
            ) > MAX_WEIGHT_TOTAL)),
            r matches Ok(ft) ==> {
                &&& ft.inv()
                &&& ft@ == counts@
                &&& ft.spec_total() == sum_counts(counts@, counts@.len() as int)
            },
    {
        let m = counts.len();
        if m == 0 {
            return Err(BuildError::EmptyUniverse);
        }
        let mut i: usize = 0;
        while i < m
            invariant
                i <= m,
                m == counts@.len(),
                forall|j: int| 0 <= j < i ==> #[trigger] counts@[j] >= 1,
            decreases m - i,
        {
            if counts[i] == 0 {
                return Err(BuildError::ZeroWeightItem);
            }
            i = i + 1;
        }
        let mut total: u64 = 0;
        let mut i: usize = 0;
        while i < m
            invariant
                i <= m,
                m == counts@.len(),
                m >= 1,
                forall|j: int| 0 <= j < m ==> #[trigger] counts@[j] >= 1,
                total == sum_counts(counts@, i as int),
                total <= MAX_WEIGHT_TOTAL,
            decreases m - i,
        {
            let c = counts[i];
            if c > MAX_WEIGHT_TOTAL - total {
                proof {
                    lemma_sum_counts_mono(counts@, i + 1, m as int);
                }
                return Err(BuildError::WeightOverflow);
            }
            total = total + c;
            i = i + 1;
        }
        Ok(FrequencyTable { counts, total })
    }

    /// The number of items in the universe.
    pub fn universe_size(&self) -> (m: usize)
        ensures
            m == self@.len(),
    {
        self.counts.len()
    }

    /// The occurrence count of item `i`.
    pub fn count_of(&self, i: usize) -> (c: u64)
        requires
            i < self@.len(),
        ensures
            c == self@[i as int],
    {
        self.counts[i]
    }

    /// The total of all occurrence counts.
    pub fn total(&self) -> (t: u64)
        ensures
            t == self.spec_total(),
    {
        self.total
    }

    /// Read access to the whole count vector.
    pub fn counts_ref(&self) -> (r: &Vec<u64>)
        ensures
            r@ == self@,
    {
        &self.counts
    }

    /// Weight conservation: the frequency weights `counts[i] / total` sum to
    /// exactly one over the item universe, because the counts sum to the
    /// total.
    pub proof fn lemma_weight_conservation(self)
        requires
            self.inv(),
        ensures
            sum_counts(self@, self@.len() as int) == self.spec_total(),
    {
    }
}

pub proof fn lemma_sum_counts_mono(s: Seq<u64>, i: int, j: int)
    requires
        0 <= i <= j,
    ensures
        sum_counts(s, i) <= sum_counts(s, j),
    decreases j,
{
    if i < j {
        lemma_sum_counts_mono(s, i, j - 1);
    }
}

/// One entry never exceeds the sum from it on.
pub proof fn lemma_count_le_sum(s: Seq<u64>, j: int, i: int)
    requires
        0 <= j < i,
    ensures
        s[j] <= sum_counts(s, i),
    decreases i,
{
    if j == i - 1 {
        lemma_sum_counts_mono(s, 0, j);
    } else {
        lemma_count_le_sum(s, j, i - 1);
    }
}

/// Appending an entry extends the sum by it.
pub proof fn lemma_sum_counts_push(s: Seq<u64>, v: u64, i: int)
    requires
        0 <= i <= s.len() + 1,
    ensures
        sum_counts(s.push(v), i) == if i == s.len() + 1 {
            sum_counts(s, s.len() as int) + v
        } else {
            sum_counts(s, i)
        },
    decreases i,
{
    if i > 0 {
        lemma_sum_counts_push(s, v, i - 1);
    }
}

/// The total weight of the items a mask keeps.
pub fn masked_total(mask: &Vec<bool>, counts: &Vec<u64>) -> (t: u64)
    requires
        mask@.len() == counts@.len(),
        crate::entropy::domain_total(mask@, counts@) <= MAX_WEIGHT_TOTAL,
    ensures
        t == crate::entropy::domain_total(mask@, counts@),
{
    let n = mask.len();
    let mut t: u64 = 0;
    let mut k: usize = 0;
    while k < n
        invariant
            k <= n,
            mask@.len() == n,
            counts@.len() == n,
            t == sum_weights(mask@, counts@, k as int),
            crate::entropy::domain_total(mask@, counts@) <= MAX_WEIGHT_TOTAL,
        decreases n - k,
    {
        proof {
            crate::entropy::lemma_sum_weights_mono(mask@, counts@, k + 1, n as int);
        }
        if mask[k] {
            t = t + counts[k];
        }
        k = k + 1;
    }
    t
}

/// Picks the item that a weighted draw of `r` lands on: items are laid out
/// in index order, each covering a span as wide as its weight, and the item
/// whose span holds `r` is returned.
pub fn weighted_pick(mask: &Vec<bool>, counts: &Vec<u64>, r: u64) -> (i: usize)
    requires
        mask@.len() == counts@.len(),
        r < crate::entropy::domain_total(mask@, counts@),
        crate::entropy::domain_total(mask@, counts@) <= MAX_WEIGHT_TOTAL,
    ensures
        i < mask@.len(),
        mask@[i as int],
        sum_weights(mask@, counts@, i as int) <= r,
        r < sum_weights(mask@, counts@, i as int) + counts@[i as int],
{
    let n = mask.len();
    let mut acc: u64 = 0;
    let mut k: usize = 0;
    while k < n
        invariant
            k <= n,
            mask@.len() == n,
            counts@.len() == n,
            acc == sum_weights(mask@, counts@, k as int),
            acc <= r,
            r < crate::entropy::domain_total(mask@, counts@),
            crate::entropy::domain_total(mask@, counts@) <= MAX_WEIGHT_TOTAL,
        decreases n - k,
    {
        proof {
            crate::entropy::lemma_sum_weights_mono(mask@, counts@, k + 1, n as int);
        }
        if mask[k] {
            let c = counts[k];
            if r < acc + c {
                return k;
            }
            acc = acc + c;
        }
        k = k + 1;
    }
    proof {
        assert(acc == crate::entropy::domain_total(mask@, counts@));
        assert(false);
    }
    0
}

} // verus!
