use vstd::prelude::*;

verus! {

/// Number of `true` entries in a membership mask.
pub open spec fn count_true(s: Seq<bool>) -> nat
    decreases s.len(),
{
    if s.len() == 0 {
        0
    } else {
        count_true(s.drop_last()) + (if s.last() {
            1nat
        } else {
            0nat
        })
    }
}

/// `s1` marks a subset of what `s2` marks.
pub open spec fn mask_below(s1: Seq<bool>, s2: Seq<bool>) -> bool {
    &&& s1.len() == s2.len()
    &&& forall|i: int| 0 <= i < s1.len() ==> (#[trigger] s1[i] ==> s2[i])
}

pub proof fn lemma_count_le_len(s: Seq<bool>)
    ensures
        count_true(s) <= s.len(),
    decreases s.len(),
{
    if s.len() > 0 {
        lemma_count_le_len(s.drop_last());
    }
}

pub proof fn lemma_count_mono(s1: Seq<bool>, s2: Seq<bool>)
    requires
        mask_below(s1, s2),
    ensures
        count_true(s1) <= count_true(s2),
    decreases s1.len(),
{
    if s1.len() > 0 {
        assert(forall|i: int| 0 <= i < s1.len() - 1 ==> (#[trigger] s1.drop_last()[i] ==> s2.drop_last()[i]));
        lemma_count_mono(s1.drop_last(), s2.drop_last());
        assert(s1.last() ==> s2.last());
    }
}

pub proof fn lemma_mask_below_trans(s1: Seq<bool>, s2: Seq<bool>, s3: Seq<bool>)
    requires
        mask_below(s1, s2),
        mask_below(s2, s3),
    ensures
        mask_below(s1, s3),
{
    assert forall|i: int| 0 <= i < s1.len() implies (#[trigger] s1[i] ==> s3[i]) by {
        assert(s1[i] ==> s2[i]);
        assert(s2[i] ==> s3[i]);
    }
}

pub proof fn lemma_count_eq_pointwise(s1: Seq<bool>, s2: Seq<bool>)
    requires
        mask_below(s1, s2),
        count_true(s1) == count_true(s2),
    ensures
        s1 =~= s2,
    decreases s1.len(),
{
    if s1.len() > 0 {
        assert(forall|i: int| 0 <= i < s1.len() - 1 ==> (#[trigger] s1.drop_last()[i] ==> s2.drop_last()[i]));
        lemma_count_mono(s1.drop_last(), s2.drop_last());
        assert(s1.last() ==> s2.last());
        lemma_count_eq_pointwise(s1.drop_last(), s2.drop_last());
        assert(s1.last() == s2.last());
        assert(s1 =~= s1.drop_last().push(s1.last()));
        assert(s2 =~= s2.drop_last().push(s2.last()));
    }
}

pub proof fn lemma_count_zero(s: Seq<bool>)
    ensures
        count_true(s) == 0 <==> (forall|i: int| 0 <= i < s.len() ==> !(#[trigger] s[i])),
    decreases s.len(),
{
    if s.len() > 0 {
        lemma_count_zero(s.drop_last());
        if count_true(s) == 0 {
            assert forall|i: int| 0 <= i < s.len() implies !(#[trigger] s[i]) by {
                if i < s.len() - 1 {
                    assert(!s.drop_last()[i]);
                }
            }
        } else {
            if !s.last() {
                assert(count_true(s.drop_last()) > 0);
                let w = choose|i: int| 0 <= i < s.len() - 1 && s.drop_last()[i];
                assert(s[w]);
            }
        }
    }
}

pub proof fn lemma_count_two(s: Seq<bool>, i: int, j: int)
    requires
        0 <= i < s.len(),
        0 <= j < s.len(),
        i != j,
        s[i],
        s[j],
    ensures
        count_true(s) >= 2,
    decreases s.len(),
{
    let lo = if i < j { i } else { j };
    let hi = if i < j { j } else { i };
    if hi == s.len() - 1 {
        assert(s.last());
        assert(s.drop_last()[lo]);
        lemma_count_pos(s.drop_last(), lo);
    } else {
        assert(s.drop_last()[lo] && s.drop_last()[hi]);
        lemma_count_two(s.drop_last(), lo, hi);
    }
}

pub proof fn lemma_count_pos(s: Seq<bool>, i: int)
    requires
        0 <= i < s.len(),
        s[i],
    ensures
        count_true(s) >= 1,
    decreases s.len(),
{
    if i < s.len() - 1 {
        assert(s.drop_last()[i]);
        lemma_count_pos(s.drop_last(), i);
    }
}

pub proof fn lemma_second_member(s: Seq<bool>, i: int)
    requires
        count_true(s) >= 2,
        0 <= i < s.len(),
        s[i],
    ensures
        exists|j: int| 0 <= j < s.len() && j != i && s[j],
    decreases s.len(),
{
    if s.last() {
        if i == s.len() - 1 {
            assert(count_true(s.drop_last()) >= 1);
            lemma_count_zero(s.drop_last());
            let j = choose|j: int| 0 <= j < s.len() - 1 && s.drop_last()[j];
            assert(s[j]);
        } else {
            assert(s[s.len() - 1]);
        }
    } else {
        assert(i < s.len() - 1);
        assert(s.drop_last()[i]);
        lemma_second_member(s.drop_last(), i);
        let j = choose|j: int| 0 <= j < s.len() - 1 && j != i && s.drop_last()[j];
        assert(s[j]);
    }
}

pub proof fn lemma_count_singleton_mask(s: Seq<bool>, i: int)
    requires
        0 <= i < s.len(),
        forall|j: int| 0 <= j < s.len() ==> (#[trigger] s[j] <==> j == i),
    ensures
        count_true(s) == 1,
    decreases s.len(),
{
    if i == s.len() - 1 {
        assert(forall|j: int| 0 <= j < s.len() - 1 ==> !(#[trigger] s.drop_last()[j]));
        lemma_count_zero(s.drop_last());
    } else {
        assert(!s.last());
        assert(forall|j: int| 0 <= j < s.len() - 1 ==> (#[trigger] s.drop_last()[j] <==> j == i));
        lemma_count_singleton_mask(s.drop_last(), i);
    }
}

/// The set of items still considered possible at one location, as a
/// membership mask over the item universe, together with its cardinality.
pub struct Domain {
    mask: Vec<bool>,
    count: usize,
}

impl View for Domain {
    type V = Seq<bool>;

    closed spec fn view(&self) -> Seq<bool> {
        self.mask@
    }
}

impl Domain {
    /// The stored cardinality agrees with the mask.
    pub closed spec fn inv(self) -> bool {
        self.count == count_true(self.mask@)
    }

    /// How many items the domain holds.
    pub open spec fn spec_size(self) -> nat {
        count_true(self@)
    }

    /// A domain holding the full item universe of size `m`.
    pub fn full(m: usize) -> (d: Domain)
        ensures
            d.inv(),
            d@.len() == m,
            forall|i: int| 0 <= i < m ==> #[trigger] d@[i],
            d.spec_size() == m,
    {
        let mut mask: Vec<bool> = Vec::new();
        let mut i: usize = 0;
        while i < m
            invariant
                i <= m,
                mask@.len() == i,
                forall|j: int| 0 <= j < i ==> #[trigger] mask@[j],
                count_true(mask@) == i,
            decreases m - i,
        {
            let ghost prev = mask@;
            mask.push(true);
            proof {
                assert(mask@.drop_last() =~= prev);
            }
            i = i + 1;
        }
        Domain { mask, count: m }
    }

    /// The number of items in the domain.
    pub fn size(&self) -> (n: usize)
        requires
            self.inv(),
        ensures
            n == self.spec_size(),
    {
        self.count
    }

    /// Whether item `i` is still possible.
    pub fn contains(&self, i: usize) -> (r: bool)
        requires
            i < self@.len(),
        ensures
            r == self@[i as int],
    {
        self.mask[i]
    }

    /// A domain holding exactly the item `i` of a universe of size `m`.
    pub fn singleton(m: usize, i: usize) -> (d: Domain)
        requires
            i < m,
        ensures
            d.inv(),
            d@.len() == m,
            forall|j: int| 0 <= j < m ==> (#[trigger] d@[j] <==> j == i),
            d.spec_size() == 1,
    {
        let mut mask: Vec<bool> = Vec::new();
        let mut k: usize = 0;
        while k < m
            invariant
                k <= m,
                mask@.len() == k,
                i < m,
                forall|j: int| 0 <= j < k ==> (#[trigger] mask@[j] <==> j == i),
            decreases m - k,
        {
            mask.push(k == i);
            k = k + 1;
        }
        proof {
            lemma_count_singleton_mask(mask@, i as int);
        }
        Domain { mask, count: 1 }
    }

    /// The intersection of the domain with the set marked by `allowed`.
    pub fn intersected(&self, allowed: &Vec<bool>) -> (d: Domain)
        requires
            self.inv(),
            allowed@.len() == self@.len(),
        ensures
            d.inv(),
            d@.len() == self@.len(),
            forall|j: int| 0 <= j < d@.len() ==> (#[trigger] d@[j] <==> (self@[j] && allowed@[j])),
            mask_below(d@, self@),
    {
        let n = self.mask.len();
        let mut mask: Vec<bool> = Vec::new();
        let mut count: usize = 0;
        let mut k: usize = 0;
        while k < n
            invariant
                k <= n,
                self.mask@.len() == n,
                allowed@.len() == n,
                mask@.len() == k,
                forall|j: int| 0 <= j < k ==> (#[trigger] mask@[j] <==> (self.mask@[j]
                    && allowed@[j])),
                count == count_true(mask@),
                count <= k,
            decreases n - k,
        {
            let ghost prev = mask@;
            let keep = self.mask[k] && allowed[k];
            mask.push(keep);
            proof {
                assert(mask@.drop_last() =~= prev);
            }
            if keep {
                count = count + 1;
            }
            k = k + 1;
        }
        Domain { mask, count }
    }

    /// Read access to the membership mask.
    pub fn mask_ref(&self) -> (r: &Vec<bool>)
        ensures
            r@ == self@,
    {
        &self.mask
    }

    /// The first item of the domain, if the domain is not empty.
    pub fn first_item(&self) -> (r: Option<usize>)
        requires
            self.inv(),
        ensures
            r matches Some(i) ==> i < self@.len() && self@[i as int],
            r is Some <==> self.spec_size() >= 1,
    {
        let n = self.mask.len();
        let mut k: usize = 0;
        while k < n
            invariant
                k <= n,
                self.mask@.len() == n,
                forall|j: int| 0 <= j < k ==> !(#[trigger] self.mask@[j]),
            decreases n - k,
        {
            if self.mask[k] {
                proof {
                    lemma_count_pos(self.mask@, k as int);
                }
                return Some(k);
            }
            k = k + 1;
        }
        proof {
            lemma_count_zero(self.mask@);
        }
        None
    }

}

} // verus!
