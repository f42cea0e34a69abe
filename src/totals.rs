//! Total weights: the total of a combined distribution is the product of
//! the totals it combines.
use vstd::prelude::*;
use vstd::arithmetic::mul::lemma_mul_is_distributive_add;
use crate::dist::{
    bucket, bucket_row, conv, conv_at, cterm, dist_add, dist_mul, dist_scale, dist_sub,
    dist_mix, lemma_product_in_range, point, pool_part, pool_upto, power, product_high, product_low, uniform,
    weight_at, Dist,
};

verus! {

/// `w[0] + ... + w[m - 1]`.
pub open spec fn psum(w: Seq<int>, m: int) -> int
    decreases m,
{
    if m <= 0 {
        0
    } else {
        psum(w, m - 1) + w[m - 1]
    }
}

/// The sum of all weights.
pub open spec fn total(d: Dist) -> int {
    psum(d.weights, d.weights.len() as int)
}

/// `x` to the power `n`.
pub open spec fn int_pow(x: int, n: nat) -> int
    decreases n,
{
    if n == 0 {
        1
    } else {
        int_pow(x, (n - 1) as nat) * x
    }
}

pub open spec fn clamp(x: int, hi: int) -> int {
    if x < 0 {
        0
    } else if x > hi {
        hi
    } else {
        x
    }
}

/// `cterm(a, b, k, i)` summed over `0 <= k < n`.
pub open spec fn ctsum(a: Seq<int>, b: Seq<int>, i: int, n: int) -> int
    decreases n,
{
    if n <= 0 {
        0
    } else {
        ctsum(a, b, i, n - 1) + cterm(a, b, n - 1, i)
    }
}

/// `conv_at(a, b, k, rows)` summed over `0 <= k < n`.
pub open spec fn colsum(a: Seq<int>, b: Seq<int>, n: int, rows: int) -> int
    decreases n,
{
    if n <= 0 {
        0
    } else {
        colsum(a, b, n - 1, rows) + conv_at(a, b, n - 1, rows)
    }
}

proof fn lemma_ctsum(a: Seq<int>, b: Seq<int>, i: int, n: int)
    requires
        0 <= i,
        0 <= n,
    ensures
        ctsum(a, b, i, n) == a[i] * psum(b, clamp(n - i, b.len() as int)),
    decreases n,
{
    if n == 0 {
        assert(a[i] * 0 == 0);
    } else {
        lemma_ctsum(a, b, i, n - 1);
        let k = n - 1;
        if 0 <= k - i < b.len() {
            lemma_mul_is_distributive_add(a[i], psum(b, k - i), b[k - i]);
        }
    }
}

proof fn lemma_colsum_step(a: Seq<int>, b: Seq<int>, n: int, rows: int)
    requires
        0 <= n,
        0 <= rows,
    ensures
        colsum(a, b, n, rows + 1) == colsum(a, b, n, rows) + ctsum(a, b, rows, n),
    decreases n,
{
    if n > 0 {
        lemma_colsum_step(a, b, n - 1, rows);
    }
}

proof fn lemma_colsum(a: Seq<int>, b: Seq<int>, rows: int)
    requires
        0 <= rows <= a.len(),
        b.len() >= 1,
    ensures
        colsum(a, b, a.len() + b.len() - 1, rows) == psum(a, rows) * psum(b, b.len() as int),
    decreases rows,
{
    let n = a.len() + b.len() - 1;
    if rows == 0 {
        assert(colsum(a, b, n, 0) == 0) by {
            lemma_colsum_zero(a, b, n);
        }
    } else {
        lemma_colsum(a, b, rows - 1);
        lemma_colsum_step(a, b, n, rows - 1);
        lemma_ctsum(a, b, rows - 1, n);
        let t = psum(b, b.len() as int);
        assert(psum(a, rows) * t == psum(a, rows - 1) * t + a[rows - 1] * t) by (nonlinear_arith)
            requires
                psum(a, rows) == psum(a, rows - 1) + a[rows - 1],
        ;
    }
}

proof fn lemma_colsum_zero(a: Seq<int>, b: Seq<int>, n: int)
    requires
        0 <= n,
    ensures
        colsum(a, b, n, 0) == 0,
    decreases n,
{
    if n > 0 {
        lemma_colsum_zero(a, b, n - 1);
    }
}

proof fn lemma_psum_conv(a: Seq<int>, b: Seq<int>, n: int)
    requires
        a.len() >= 1,
        b.len() >= 1,
        0 <= n <= a.len() + b.len() - 1,
    ensures
        psum(conv(a, b), n) == colsum(a, b, n, a.len() as int),
    decreases n,
{
    if n > 0 {
        lemma_psum_conv(a, b, n - 1);
    }
}

/// The total of a convolution is the product of the totals.
pub proof fn lemma_conv_total(a: Seq<int>, b: Seq<int>)
    requires
        a.len() >= 1,
        b.len() >= 1,
    ensures
        psum(conv(a, b), conv(a, b).len() as int) == psum(a, a.len() as int) * psum(b, b.len() as int),
{
    lemma_psum_conv(a, b, a.len() + b.len() - 1);
    lemma_colsum(a, b, a.len() as int);
}

/// `(if lo + k == p { c } else { 0 })` summed over `0 <= k < n`.
pub open spec fn indsum(lo: int, p: int, c: int, n: int) -> int
    decreases n,
{
    if n <= 0 {
        0
    } else {
        indsum(lo, p, c, n - 1) + if lo + n - 1 == p { c } else { 0 }
    }
}

proof fn lemma_indsum(lo: int, p: int, c: int, n: int)
    requires
        0 <= n,
    ensures
        indsum(lo, p, c, n) == if lo <= p < lo + n { c } else { 0 },
    decreases n,
{
    if n > 0 {
        lemma_indsum(lo, p, c, n - 1);
    }
}

/// `bucket_row(a, b, lo + k, i, m)` summed over `0 <= k < n`.
pub open spec fn rowcol(a: Dist, b: Dist, lo: int, i: int, m: int, n: int) -> int
    decreases n,
{
    if n <= 0 {
        0
    } else {
        rowcol(a, b, lo, i, m, n - 1) + bucket_row(a, b, lo + n - 1, i, m)
    }
}

/// `bucket(a, b, lo + k, rows)` summed over `0 <= k < n`.
pub open spec fn bcol(a: Dist, b: Dist, lo: int, rows: int, n: int) -> int
    decreases n,
{
    if n <= 0 {
        0
    } else {
        bcol(a, b, lo, rows, n - 1) + bucket(a, b, lo + n - 1, rows)
    }
}

proof fn lemma_rowcol_step(a: Dist, b: Dist, lo: int, i: int, m: int, n: int)
    requires
        0 <= m,
        0 <= n,
    ensures
        rowcol(a, b, lo, i, m + 1, n) == rowcol(a, b, lo, i, m, n) + indsum(
            lo,
            (a.offset + i) * (b.offset + m),
            a.weights[i] * b.weights[m],
            n,
        ),
    decreases n,
{
    if n > 0 {
        lemma_rowcol_step(a, b, lo, i, m, n - 1);
    }
}

proof fn lemma_rowcol_zero(a: Dist, b: Dist, lo: int, i: int, n: int)
    requires
        0 <= n,
    ensures
        rowcol(a, b, lo, i, 0, n) == 0,
    decreases n,
{
    if n > 0 {
        lemma_rowcol_zero(a, b, lo, i, n - 1);
    }
}

proof fn lemma_rowcol(a: Dist, b: Dist, i: int, m: int)
    requires
        0 <= i < a.weights.len(),
        0 <= m <= b.weights.len(),
        b.weights.len() >= 1,
    ensures
        rowcol(a, b, product_low(a, b), i, m, product_high(a, b) - product_low(a, b) + 1) == a.weights[i] * psum(
            b.weights,
            m,
        ),
    decreases m,
{
    let lo = product_low(a, b);
    let n = product_high(a, b) - product_low(a, b) + 1;
    if m == 0 {
        lemma_product_in_range(a, b, a.offset, b.offset);
        lemma_rowcol_zero(a, b, lo, i, n);
        assert(a.weights[i] * 0 == 0);
    } else {
        lemma_rowcol(a, b, i, m - 1);
        lemma_rowcol_step(a, b, lo, i, m - 1, n);
        lemma_product_in_range(a, b, a.offset + i, b.offset + m - 1);
        lemma_indsum(lo, (a.offset + i) * (b.offset + m - 1), a.weights[i] * b.weights[m - 1], n);
        lemma_mul_is_distributive_add(a.weights[i], psum(b.weights, m - 1), b.weights[m - 1]);
    }
}

proof fn lemma_bcol_step(a: Dist, b: Dist, lo: int, rows: int, n: int)
    requires
        0 <= rows,
        0 <= n,
    ensures
        bcol(a, b, lo, rows + 1, n) == bcol(a, b, lo, rows, n) + rowcol(a, b, lo, rows, b.weights.len() as int, n),
    decreases n,
{
    if n > 0 {
        lemma_bcol_step(a, b, lo, rows, n - 1);
    }
}

proof fn lemma_bcol_zero(a: Dist, b: Dist, lo: int, n: int)
    requires
        0 <= n,
    ensures
        bcol(a, b, lo, 0, n) == 0,
    decreases n,
{
    if n > 0 {
        lemma_bcol_zero(a, b, lo, n - 1);
    }
}

proof fn lemma_bcol(a: Dist, b: Dist, rows: int)
    requires
        0 <= rows <= a.weights.len(),
        a.weights.len() >= 1,
        b.weights.len() >= 1,
    ensures
        bcol(a, b, product_low(a, b), rows, product_high(a, b) - product_low(a, b) + 1) == psum(a.weights, rows)
            * psum(b.weights, b.weights.len() as int),
    decreases rows,
{
    let lo = product_low(a, b);
    let n = product_high(a, b) - product_low(a, b) + 1;
    lemma_product_in_range(a, b, a.offset, b.offset);
    let t = psum(b.weights, b.weights.len() as int);
    if rows == 0 {
        lemma_bcol_zero(a, b, lo, n);
    } else {
        lemma_bcol(a, b, rows - 1);
        lemma_bcol_step(a, b, lo, rows - 1, n);
        lemma_rowcol(a, b, rows - 1, b.weights.len() as int);
        assert(psum(a.weights, rows) * t == psum(a.weights, rows - 1) * t + a.weights[rows - 1] * t)
            by (nonlinear_arith)
            requires
                psum(a.weights, rows) == psum(a.weights, rows - 1) + a.weights[rows - 1],
        ;
    }
}

proof fn lemma_psum_mul(a: Dist, b: Dist, n: int)
    requires
        a.weights.len() >= 1,
        b.weights.len() >= 1,
        0 <= n <= product_high(a, b) - product_low(a, b) + 1,
    ensures
        psum(dist_mul(a, b).weights, n) == bcol(a, b, product_low(a, b), a.weights.len() as int, n),
    decreases n,
{
    if n > 0 {
        lemma_psum_mul(a, b, n - 1);
    }
}

/// The total of a product distribution is the product of the totals.
pub proof fn lemma_mul_total(a: Dist, b: Dist)
    requires
        a.weights.len() >= 1,
        b.weights.len() >= 1,
    ensures
        total(dist_mul(a, b)) == total(a) * total(b),
{
    lemma_product_in_range(a, b, a.offset, b.offset);
    lemma_psum_mul(a, b, product_high(a, b) - product_low(a, b) + 1);
    lemma_bcol(a, b, a.weights.len() as int);
}

/// The totals of a sum and of a difference are the product of the totals.
pub proof fn lemma_add_sub_total(a: Dist, b: Dist)
    requires
        a.weights.len() >= 1,
        b.weights.len() >= 1,
    ensures
        total(dist_add(a, b)) == total(a) * total(b),
        total(dist_sub(a, b)) == total(a) * total(b),
        dist_add(a, b).weights.len() >= 1,
{
    lemma_conv_total(a.weights, b.weights);
}

proof fn lemma_psum_scale(w: Seq<int>, f: int, n: int)
    requires
        0 <= n <= w.len(),
    ensures
        psum(w.map_values(|x: int| x * f), n) == f * psum(w, n),
    decreases n,
{
    if n > 0 {
        lemma_psum_scale(w, f, n - 1);
        lemma_mul_is_distributive_add(f, psum(w, n - 1), w[n - 1]);
        assert(w[n - 1] * f == f * w[n - 1]) by (nonlinear_arith);
    } else {
        assert(f * 0 == 0);
    }
}

/// Scaling every weight by `f` scales the total by `f`.
pub proof fn lemma_scale_total(d: Dist, f: int)
    ensures
        total(dist_scale(d, f)) == f * total(d),
        dist_scale(d, f).weights.len() == d.weights.len(),
{
    lemma_psum_scale(d.weights, f, d.weights.len() as int);
}

/// The total of the `v`-fold sum is the total to the power `v`.
pub proof fn lemma_power_total(b: Dist, v: int)
    requires
        b.weights.len() >= 1,
    ensures
        total(power(b, v)) == int_pow(total(b), if v > 0 { v as nat } else { 0 }),
        power(b, v).weights.len() >= 1,
    decreases v,
{
    if v > 0 {
        lemma_power_total(b, v - 1);
        lemma_add_sub_total(power(b, v - 1), b);
        let e: nat = if v - 1 > 0 { (v - 1) as nat } else { 0 };
        assert(e == (v as nat - 1) as nat);
        assert(int_pow(total(b), v as nat) == int_pow(total(b), e) * total(b));
    } else {
        assert(psum(point(0).weights, 1) == psum(point(0).weights, 0) + 1);
    }
}

/// `weight_at(x, lo + k)` summed over `0 <= k < n`.
pub open spec fn wsum(x: Dist, lo: int, n: int) -> int
    decreases n,
{
    if n <= 0 {
        0
    } else {
        wsum(x, lo, n - 1) + weight_at(x, lo + n - 1)
    }
}

proof fn lemma_wsum(x: Dist, lo: int, n: int)
    requires
        lo <= x.offset,
        0 <= n,
    ensures
        wsum(x, lo, n) == psum(x.weights, clamp(lo + n - x.offset, x.weights.len() as int)),
    decreases n,
{
    if n > 0 {
        lemma_wsum(x, lo, n - 1);
    }
}

proof fn lemma_psum_mix(x: Dist, y: Dist, n: int)
    requires
        0 <= n <= dist_mix(x, y).weights.len(),
    ensures
        psum(dist_mix(x, y).weights, n) == wsum(x, dist_mix(x, y).offset, n) + wsum(y, dist_mix(x, y).offset, n),
    decreases n,
{
    if n > 0 {
        lemma_psum_mix(x, y, n - 1);
    }
}

/// The total of a mixture is the sum of the totals.
pub proof fn lemma_mix_total(x: Dist, y: Dist)
    requires
        x.weights.len() >= 1,
        y.weights.len() >= 1,
    ensures
        total(dist_mix(x, y)) == total(x) + total(y),
        dist_mix(x, y).weights.len() >= 1,
{
    let m = dist_mix(x, y);
    lemma_psum_mix(x, y, m.weights.len() as int);
    lemma_wsum(x, m.offset, m.weights.len() as int);
    lemma_wsum(y, m.offset, m.weights.len() as int);
}

/// The total of a dice pool over the first `n` outcomes of `a`: for each
/// outcome `v` with weight `f`, `f` times the total of `b` to the power `v`
/// (to the power 0 where `v <= 0`), all added.
pub open spec fn pool_total(a: Dist, t: int, n: int) -> int
    decreases n,
{
    if n <= 0 {
        0
    } else {
        pool_total(a, t, n - 1) + a.weights[n - 1] * int_pow(
            t,
            if a.offset + n - 1 > 0 { (a.offset + n - 1) as nat } else { 0 },
        )
    }
}

/// The total of a dice pool.
pub proof fn lemma_pool_total(a: Dist, b: Dist, n: int)
    requires
        b.weights.len() >= 1,
        1 <= n <= a.weights.len(),
    ensures
        total(pool_upto(a, b, n)) == pool_total(a, total(b), n),
        pool_upto(a, b, n).weights.len() >= 1,
    decreases n,
{
    let p = power(b, a.offset + n - 1);
    lemma_power_total(b, a.offset + n - 1);
    lemma_scale_total(p, a.weights[n - 1]);
    assert(pool_part(a, b, n - 1) == dist_scale(p, a.weights[n - 1]));
    let e: nat = if a.offset + n - 1 > 0 { (a.offset + n - 1) as nat } else { 0 };
    assert(total(pool_part(a, b, n - 1)) == a.weights[n - 1] * int_pow(total(b), e));
    if n > 1 {
        lemma_pool_total(a, b, n - 1);
        lemma_mix_total(pool_upto(a, b, n - 1), pool_part(a, b, n - 1));
    } else {
        assert(pool_total(a, total(b), 0) == 0);
    }
}

proof fn lemma_psum_ones(faces: nat, n: int)
    requires
        0 <= n <= faces,
    ensures
        psum(uniform(faces).weights, n) == n,
    decreases n,
{
    if n > 0 {
        lemma_psum_ones(faces, n - 1);
    }
}

/// A die's total is its number of faces; a point's is 1.
pub proof fn lemma_leaf_totals(faces: nat, n: int)
    ensures
        total(uniform(faces)) == faces,
        total(point(n)) == 1,
{
    lemma_psum_ones(faces, faces as int);
    assert(psum(point(n).weights, 1) == psum(point(n).weights, 0) + 1);
}

} // verus!
