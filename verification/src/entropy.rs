use vstd::prelude::*;
use vstd::arithmetic::power2::{
    pow2, lemma_pow2_adds, lemma_pow2_subtracts, lemma_pow2_strictly_increases, lemma_pow2_unfold,
    lemma_pow2_pos, lemma2_to64, lemma2_to64_rest,
};
use crate::domain::count_true;

verus! {

/// Scale of the fixed-point logarithm: one bit of logarithm is `2^32`.
pub const LOG_SCALE: u64 = 0x1_0000_0000;

/// Largest total frequency weight the engine accepts.  Keeping totals below
/// this bound keeps every entropy computation inside `u64` arithmetic.
pub const MAX_WEIGHT_TOTAL: u64 = 0x10_0000;

/// The integer part of the base-two logarithm of `x` (zero below 2).
pub open spec fn floor_lg(x: int) -> int
    decreases x,
{
    if x < 2 {
        0
    } else {
        1 + floor_lg(x / 2)
    }
}

/// A piecewise-linear base-two logarithm in fixed point: exact at powers of
/// two and linear in between, scaled by `2^32`.  It is strictly increasing,
/// which is all the entropy ordering needs from a logarithm.
pub open spec fn plog2(x: int) -> int {
    let k = floor_lg(x);
    k * pow2(32) + (x - pow2(k as nat)) * pow2((32 - k) as nat)
}

pub proof fn lemma_floor_lg_bounds(x: int)
    requires
        x >= 1,
    ensures
        0 <= floor_lg(x),
        pow2(floor_lg(x) as nat) <= x < pow2((floor_lg(x) + 1) as nat),
    decreases x,
{
    lemma2_to64();
    if x < 2 {
    } else {
        lemma_floor_lg_bounds(x / 2);
        let k = floor_lg(x / 2);
        lemma_pow2_unfold((k + 1) as nat);
        lemma_pow2_unfold((k + 2) as nat);
    }
}

pub proof fn lemma_floor_lg_mono(x: int, y: int)
    requires
        1 <= x <= y,
    ensures
        floor_lg(x) <= floor_lg(y),
{
    lemma_floor_lg_bounds(x);
    lemma_floor_lg_bounds(y);
    let kx = floor_lg(x);
    let ky = floor_lg(y);
    if kx > ky {
        if ky + 1 < kx {
            lemma_pow2_strictly_increases((ky + 1) as nat, kx as nat);
        }
        assert(pow2((ky + 1) as nat) <= pow2(kx as nat));
        assert(false);
    }
}

pub proof fn lemma_plog2_nonneg(x: int)
    requires
        1 <= x,
    ensures
        plog2(x) >= floor_lg(x) * pow2(32),
        plog2(x) >= 0,
{
    lemma_floor_lg_bounds(x);
    let k = floor_lg(x);
    lemma_pow2_pos((32 - k) as nat);
    lemma_pow2_pos(32);
    assert((x - pow2(k as nat)) * pow2((32 - k) as nat) >= 0) by (nonlinear_arith)
        requires
            x - pow2(k as nat) >= 0,
            pow2((32 - k) as nat) > 0;
    assert(k * pow2(32) >= 0) by (nonlinear_arith)
        requires
            k >= 0,
            pow2(32) > 0;
}

pub proof fn lemma_plog2_upper(x: int)
    requires
        1 <= x,
        floor_lg(x) <= 32,
    ensures
        plog2(x) < (floor_lg(x) + 1) * pow2(32),
{
    lemma_floor_lg_bounds(x);
    let k = floor_lg(x);
    lemma_pow2_unfold((k + 1) as nat);
    lemma_pow2_adds(k as nat, (32 - k) as nat);
    lemma_pow2_pos(k as nat);
    lemma_pow2_pos((32 - k) as nat);
    assert((x - pow2(k as nat)) * pow2((32 - k) as nat) < pow2(32)) by (nonlinear_arith)
        requires
            x - pow2(k as nat) < pow2(k as nat),
            pow2(k as nat) * pow2((32 - k) as nat) == pow2(32),
            pow2((32 - k) as nat) > 0;
    assert((k + 1) * pow2(32) == k * pow2(32) + pow2(32)) by (nonlinear_arith);
}

pub proof fn lemma_plog2_strict_mono(x: int, y: int)
    requires
        1 <= x < y,
        y < pow2(33),
    ensures
        plog2(x) < plog2(y),
{
    lemma_floor_lg_bounds(x);
    lemma_floor_lg_bounds(y);
    lemma_floor_lg_mono(x, y);
    let kx = floor_lg(x);
    let ky = floor_lg(y);
    if ky >= 33 {
        lemma_pow2_strictly_increases(33, ky as nat);
        assert(false);
    }
    if kx == ky {
        let q = pow2((32 - kx) as nat);
        lemma_pow2_pos((32 - kx) as nat);
        assert((y - pow2(kx as nat)) * q - (x - pow2(kx as nat)) * q == (y - x) * q)
            by (nonlinear_arith);
        assert((y - x) * q >= q) by (nonlinear_arith)
            requires
                y - x >= 1,
                q > 0;
    } else {
        lemma_plog2_upper(x);
        lemma_plog2_nonneg(y);
        lemma_pow2_pos(32);
        assert((kx + 1) * pow2(32) <= ky * pow2(32)) by (nonlinear_arith)
            requires
                kx + 1 <= ky,
                pow2(32) > 0;
    }
}

pub proof fn lemma_plog2_mono(x: int, y: int)
    requires
        1 <= x <= y,
        y < pow2(33),
    ensures
        plog2(x) <= plog2(y),
{
    if x < y {
        lemma_plog2_strict_mono(x, y);
    }
}

/// Computes `plog2` at run time.
pub fn fixed_log2(x: u64) -> (r: u64)
    requires
        1 <= x < 0x1_0000_0000u64,
    ensures
        r == plog2(x as int),
        r <= 32 * (LOG_SCALE as int),
{
    proof {
        lemma2_to64();
    }
    let mut m: u64 = x;
    let mut k: u64 = 0;
    let mut p: u64 = 1;
    while m >= 2
        invariant
            1 <= m,
            1 <= x < 0x1_0000_0000u64,
            p == pow2(k as nat),
            m == x as int / p as int,
            floor_lg(x as int) == k + floor_lg(m as int),
            p <= x,
        decreases m,
    {
        proof {
            lemma_pow2_pos(k as nat);
            lemma2_to64();
            if k >= 32 {
                if k > 32 {
                    lemma_pow2_strictly_increases(32, k as nat);
                }
                assert(p >= 0x1_0000_0000u64);
                assert(false);
            }
            lemma_pow2_unfold((k + 1) as nat);
            assert(x as int / (2 * (p as int)) == (x as int / (p as int)) / 2) by (nonlinear_arith)
                requires
                    (p as int) > 0;
            assert(x as int / (2 * (p as int)) >= 1) by (nonlinear_arith)
                requires
                    (p as int) > 0,
                    (x as int / (p as int)) / 2 >= 1,
                    x as int / (2 * (p as int)) == (x as int / (p as int)) / 2;
            assert((2 * (p as int)) <= x as int) by (nonlinear_arith)
                requires
                    x as int / (2 * (p as int)) >= 1,
                    (p as int) > 0,
                    x as int >= 1;
        }
        m = m / 2;
        k = k + 1;
        p = p * 2;
    }
    proof {
        // m == 1, so k is the integer part of the logarithm.
        assert(floor_lg(x as int) == k);
        lemma_floor_lg_bounds(x as int);
        lemma_pow2_pos(k as nat);
        assert(x as int == (p as int) * (x as int / (p as int)) + x as int % (p as int))
            by (nonlinear_arith)
            requires
                (p as int) > 0;
        assert(x < 2 * p);
        lemma2_to64();
        if k >= 32 {
            if k > 32 {
                lemma_pow2_strictly_increases(32, k as nat);
            }
            assert(p >= 0x1_0000_0000u64);
            assert(false);
        }
        lemma_pow2_subtracts(k as nat, 32);
    }
    let q: u64 = LOG_SCALE / p;
    proof {
        lemma_pow2_adds(k as nat, (32 - k as int) as nat);
        lemma_pow2_pos((32 - k as int) as nat);
        assert((x - p) * (q as int) < pow2(32)) by (nonlinear_arith)
            requires
                x - p < p as int,
                (p as int) * (q as int) == pow2(32),
                (q as int) > 0;
        assert((x - p) * (q as int) >= 0) by (nonlinear_arith)
            requires
                x - p >= 0,
                (q as int) > 0;
        assert(k * pow2(32) <= 31 * pow2(32)) by (nonlinear_arith)
            requires
                k <= 31,
                pow2(32) > 0;
    }
    let r: u64 = k * LOG_SCALE + (x - p) * q;
    r
}

/// The total frequency weight of the items a mask keeps, over the first `i`
/// entries.
pub open spec fn sum_weights(mask: Seq<bool>, counts: Seq<u64>, i: int) -> int
    decreases i,
{
    if i <= 0 {
        0
    } else {
        sum_weights(mask, counts, i - 1) + (if mask[i - 1] {
            counts[i - 1] as int
        } else {
            0
        })
    }
}

/// The weighted fixed-point log sum of the items a mask keeps, over the first
/// `i` entries.
pub open spec fn sum_wlog(mask: Seq<bool>, counts: Seq<u64>, i: int) -> int
    decreases i,
{
    if i <= 0 {
        0
    } else {
        sum_wlog(mask, counts, i - 1) + (if mask[i - 1] {
            counts[i - 1] * plog2(counts[i - 1] as int)
        } else {
            0
        })
    }
}

/// The total weight of a whole domain.
pub open spec fn domain_total(mask: Seq<bool>, counts: Seq<u64>) -> int {
    sum_weights(mask, counts, mask.len() as int)
}

/// The entropy numerator of a domain: `t * plog2(t) - sum c_i * plog2(c_i)`.
/// Divided by `t * 2^32` this is the Shannon entropy of the frequency
/// distribution restricted to the domain, with `plog2` standing in for the
/// exact logarithm; only ratios of these numbers are ever compared, so the
/// scale never has to be divided out.
pub open spec fn entropy_num(mask: Seq<bool>, counts: Seq<u64>) -> int {
    let t = domain_total(mask, counts);
    t * plog2(t) - sum_wlog(mask, counts, mask.len() as int)
}

pub proof fn lemma_sum_weights_mono(mask: Seq<bool>, counts: Seq<u64>, i: int, j: int)
    requires
        0 <= i <= j,
    ensures
        sum_weights(mask, counts, i) <= sum_weights(mask, counts, j),
    decreases j,
{
    if i < j {
        lemma_sum_weights_mono(mask, counts, i, j - 1);
    }
}

/// A kept item's weight never exceeds the partial total from `j` on.
pub proof fn lemma_member_le_sum(mask: Seq<bool>, counts: Seq<u64>, j: int, i: int)
    requires
        0 <= j < i,
        mask[j],
    ensures
        counts[j] <= sum_weights(mask, counts, i),
    decreases i,
{
    if j == i - 1 {
        lemma_sum_weights_mono(mask, counts, 0, j);
    } else {
        lemma_member_le_sum(mask, counts, j, i - 1);
    }
}

pub proof fn lemma_two_members_le_sum(mask: Seq<bool>, counts: Seq<u64>, j1: int, j2: int, i: int)
    requires
        0 <= j1 < j2 < i,
        mask[j1],
        mask[j2],
    ensures
        counts[j1] + counts[j2] <= sum_weights(mask, counts, i),
    decreases i,
{
    if j2 == i - 1 {
        lemma_member_le_sum(mask, counts, j1, i - 1);
    } else {
        lemma_two_members_le_sum(mask, counts, j1, j2, i - 1);
    }
}

/// Bounding every kept item's log bounds the whole weighted log sum.
pub proof fn lemma_sum_wlog_cap(mask: Seq<bool>, counts: Seq<u64>, i: int, cap: int)
    requires
        0 <= i,
        cap >= 0,
        forall|j: int| 0 <= j < i && mask[j] ==> #[trigger] plog2(counts[j] as int) <= cap,
    ensures
        sum_wlog(mask, counts, i) <= sum_weights(mask, counts, i) * cap,
    decreases i,
{
    if i > 0 {
        lemma_sum_wlog_cap(mask, counts, i - 1, cap);
        let sw = sum_weights(mask, counts, i - 1);
        if mask[i - 1] {
            let c = counts[i - 1] as int;
            assert(c * plog2(c) <= c * cap) by (nonlinear_arith)
                requires
                    plog2(c) <= cap,
                    c >= 0;
            assert(sw * cap + c * cap == (sw + c) * cap) by (nonlinear_arith);
        }
    }
}

/// In a mask with its single item at `j`, the sums reduce to that item's
/// contribution.
pub proof fn lemma_sums_single(mask: Seq<bool>, counts: Seq<u64>, i: int, j: int)
    requires
        0 <= i <= mask.len(),
        0 <= j < mask.len(),
        mask[j],
        forall|j2: int| 0 <= j2 < mask.len() && j2 != j ==> !(#[trigger] mask[j2]),
    ensures
        sum_weights(mask, counts, i) == if j < i {
            counts[j] as int
        } else {
            0
        },
        sum_wlog(mask, counts, i) == if j < i {
            counts[j] * plog2(counts[j] as int)
        } else {
            0
        },
    decreases i,
{
    if i > 0 {
        lemma_sums_single(mask, counts, i - 1, j);
    }
}

/// Shannon entropy, in this integer rendering, is never negative.
///
/// For any non-empty possibility set whose kept items all carry a positive
/// weight, the entropy numerator is at least zero.
pub proof fn lemma_entropy_nonneg(mask: Seq<bool>, counts: Seq<u64>)
    requires
        mask.len() == counts.len(),
        forall|j: int| 0 <= j < mask.len() && #[trigger] mask[j] ==> counts[j] >= 1,
        1 <= domain_total(mask, counts),
        domain_total(mask, counts) < pow2(33),
    ensures
        entropy_num(mask, counts) >= 0,
{
    let t = domain_total(mask, counts);
    let n = mask.len() as int;
    lemma_plog2_nonneg(t);
    assert forall|j: int| 0 <= j < n && mask[j] implies #[trigger] plog2(counts[j] as int)
        <= plog2(t) by {
        lemma_member_le_sum(mask, counts, j, n);
        lemma_plog2_mono(counts[j] as int, t);
    }
    lemma_sum_wlog_cap(mask, counts, n, plog2(t));
    assert(sum_weights(mask, counts, n) * plog2(t) == t * plog2(t));
}

/// The entropy of a determined location is exactly zero: a possibility set
/// of one item has no uncertainty left.
pub proof fn lemma_entropy_zero_singleton(mask: Seq<bool>, counts: Seq<u64>)
    requires
        mask.len() == counts.len(),
        crate::domain::count_true(mask) == 1,
    ensures
        entropy_num(mask, counts) == 0,
{
    let n = mask.len() as int;
    crate::domain::lemma_count_zero(mask);
    let j = choose|j: int| 0 <= j < n && mask[j];
    assert(mask[j]);
    assert forall|j2: int| 0 <= j2 < n && j2 != j implies !(#[trigger] mask[j2]) by {
        if mask[j2] {
            crate::domain::lemma_count_two(mask, j, j2);
        }
    }
    lemma_sums_single(mask, counts, n, j);
}

/// The entropy of an undetermined location is strictly positive: with two or
/// more weighted items left, some uncertainty remains.
pub proof fn lemma_entropy_pos(mask: Seq<bool>, counts: Seq<u64>)
    requires
        mask.len() == counts.len(),
        forall|j: int| 0 <= j < mask.len() && #[trigger] mask[j] ==> counts[j] >= 1,
        crate::domain::count_true(mask) >= 2,
        domain_total(mask, counts) < pow2(33),
    ensures
        entropy_num(mask, counts) > 0,
{
    let t = domain_total(mask, counts);
    let n = mask.len() as int;
    // Two members make the total at least two.
    crate::domain::lemma_count_zero(mask);
    let j0 = choose|j: int| 0 <= j < n && mask[j];
    assert(mask[j0]);
    crate::domain::lemma_second_member(mask, j0);
    let j1 = choose|j: int| 0 <= j < n && j != j0 && mask[j];
    if j0 < j1 {
        lemma_two_members_le_sum(mask, counts, j0, j1, n);
    } else {
        lemma_two_members_le_sum(mask, counts, j1, j0, n);
    }
    assert(t >= 2);
    lemma2_to64();
    assert(plog2(1) == 0);
    lemma_plog2_strict_mono(1, t);
    assert(plog2(t) >= 1);
    // Each member's weight stays at least one below the total.
    assert forall|j: int| 0 <= j < n && mask[j] implies #[trigger] plog2(counts[j] as int)
        <= plog2(t) - 1 by {
        crate::domain::lemma_second_member(mask, j);
        let j2 = choose|j2: int| 0 <= j2 < n && j2 != j && mask[j2];
        if j < j2 {
            lemma_two_members_le_sum(mask, counts, j, j2, n);
        } else {
            lemma_two_members_le_sum(mask, counts, j2, j, n);
        }
        assert(counts[j] as int <= t - 1);
        lemma_plog2_strict_mono(counts[j] as int, t);
    }
    lemma_sum_wlog_cap(mask, counts, n, plog2(t) - 1);
    assert(sum_weights(mask, counts, n) == t);
    assert(t * (plog2(t) - 1) == t * plog2(t) - t) by (nonlinear_arith);
}

/// Computes the entropy key of a domain: the entropy numerator paired with
/// the total weight.  Keys `(a1, t1)` and `(a2, t2)` order by `a1/t1` against
/// `a2/t2`, compared exactly by cross-multiplication.
pub fn entropy_key(mask: &Vec<bool>, counts: &Vec<u64>) -> (r: (u64, u64))
    requires
        mask@.len() == counts@.len(),
        forall|j: int| 0 <= j < mask@.len() && #[trigger] mask@[j] ==> counts@[j] >= 1,
        domain_total(mask@, counts@) <= MAX_WEIGHT_TOTAL,
        count_true(mask@) >= 1,
    ensures
        r.1 == domain_total(mask@, counts@),
        r.0 == entropy_num(mask@, counts@),
        1 <= r.1 <= MAX_WEIGHT_TOTAL,
        r.0 <= (r.1 as int) * (32 * (LOG_SCALE as int)),
{
    let n = mask.len();
    let mut t: u64 = 0;
    let mut i: usize = 0;
    while i < n
        invariant
            i <= n,
            mask@.len() == n,
            counts@.len() == n,
            t == sum_weights(mask@, counts@, i as int),
            domain_total(mask@, counts@) <= MAX_WEIGHT_TOTAL,
            forall|j: int| 0 <= j < mask@.len() && #[trigger] mask@[j] ==> counts@[j] >= 1,
        decreases n - i,
    {
        proof {
            lemma_sum_weights_mono(mask@, counts@, i + 1, n as int);
        }
        if mask[i] {
            t = t + counts[i];
        }
        i = i + 1;
    }
    proof {
        crate::domain::lemma_count_zero(mask@);
        let j = choose|j: int| 0 <= j < mask@.len() && mask@[j];
        lemma_member_le_sum(mask@, counts@, j, n as int);
        assert(t >= 1);
    }
    let tl: u64 = fixed_log2(t);
    proof {
        lemma2_to64();
        lemma2_to64_rest();
        assert forall|j: int| 0 <= j < mask@.len() && mask@[j] implies #[trigger] plog2(
            counts@[j] as int,
        ) <= tl as int by {
            lemma_member_le_sum(mask@, counts@, j, n as int);
            lemma_plog2_mono(counts@[j] as int, t as int);
        }
        lemma_plog2_nonneg(t as int);
    }
    let mut s: u64 = 0;
    let mut i: usize = 0;
    while i < n
        invariant
            i <= n,
            mask@.len() == n,
            counts@.len() == n,
            1 <= t,
            t == domain_total(mask@, counts@),
            t <= MAX_WEIGHT_TOTAL,
            tl == plog2(t as int),
            tl <= 32 * (LOG_SCALE as int),
            s == sum_wlog(mask@, counts@, i as int),
            s <= sum_weights(mask@, counts@, i as int) * (tl as int),
            forall|j: int| 0 <= j < mask@.len() && #[trigger] mask@[j] ==> counts@[j] >= 1,
            forall|j: int| 0 <= j < mask@.len() && #[trigger] mask@[j] ==> plog2(counts@[j] as int)
                <= tl as int,
        decreases n - i,
    {
        if mask[i] {
            let c = counts[i];
            proof {
                lemma_member_le_sum(mask@, counts@, i as int, n as int);
                assert(c <= t);
                lemma_plog2_nonneg(c as int);
            }
            let cl = fixed_log2(c);
            proof {
                let sw = sum_weights(mask@, counts@, i as int);
                assert((c as int) * (cl as int) <= (c as int) * (tl as int)) by (nonlinear_arith)
                    requires
                        cl as int <= tl as int,
                        (c as int) >= 0;
                assert(sw * (tl as int) + (c as int) * (tl as int) == (sw + c as int) * (tl as int))
                    by (nonlinear_arith);
                lemma_sum_weights_mono(mask@, counts@, i + 1, n as int);
                assert((sw + c as int) * (tl as int) <= (t as int) * (tl as int))
                    by (nonlinear_arith)
                    requires
                        sw + c as int <= t as int,
                        (tl as int) >= 0;
                assert((t as int) * (tl as int) <= (MAX_WEIGHT_TOTAL as int) * (32 * (
                LOG_SCALE as int))) by (nonlinear_arith)
                    requires
                        t as int <= MAX_WEIGHT_TOTAL as int,
                        tl as int <= 32 * (LOG_SCALE as int),
                        t as int >= 0,
                        tl as int >= 0;
                assert((c as int) * (cl as int) >= 0) by (nonlinear_arith)
                    requires
                        c as int >= 0,
                        cl as int >= 0;
            }
            s = s + c * cl;
        } else {
            proof {
                lemma_sum_weights_mono(mask@, counts@, i as int, i + 1);
            }
        }
        i = i + 1;
    }
    proof {
        assert(s <= (t as int) * (tl as int));
        assert((t as int) * (tl as int) <= (MAX_WEIGHT_TOTAL as int) * (32 * (LOG_SCALE as int)))
            by (nonlinear_arith)
            requires
                t as int <= MAX_WEIGHT_TOTAL as int,
                tl as int <= 32 * (LOG_SCALE as int),
                t as int >= 0,
                tl as int >= 0;
        assert((t as int) * (tl as int) <= (t as int) * (32 * (LOG_SCALE as int)))
            by (nonlinear_arith)
            requires
                tl as int <= 32 * (LOG_SCALE as int),
                t as int >= 0;
    }
    let a: u64 = t * tl - s;
    (a, t)
}

} // verus!
