//! Exact outcome distributions: an offset and a dense sequence of
//! non-negative integer weights, with the algebra that combines them.
use vstd::prelude::*;

verus! {

/// An unnormalized distribution: `weights[i]` is the relative frequency of
/// the outcome `offset + i`.
pub struct Dist {
    pub offset: int,
    pub weights: Seq<int>,
}

/// The one-point distribution at `n`.
pub open spec fn point(n: int) -> Dist {
    Dist { offset: n, weights: seq![1int] }
}

/// The uniform distribution over `1..=faces`, each with weight 1.
pub open spec fn uniform(faces: nat) -> Dist {
    Dist { offset: 1, weights: Seq::new(faces, |i: int| 1int) }
}

/// The contribution of `a[i]` to position `k` of the convolution.
pub open spec fn cterm(a: Seq<int>, b: Seq<int>, k: int, i: int) -> int {
    if 0 <= k - i < b.len() {
        a[i] * b[k - i]
    } else {
        0
    }
}

/// `sum of a[i] * b[k - i]` over `0 <= i < n`.
pub open spec fn conv_at(a: Seq<int>, b: Seq<int>, k: int, n: int) -> int
    decreases n,
{
    if n <= 0 {
        0
    } else {
        conv_at(a, b, k, n - 1) + cterm(a, b, k, n - 1)
    }
}

/// The convolution of two weight sequences.
pub open spec fn conv(a: Seq<int>, b: Seq<int>) -> Seq<int> {
    Seq::new((a.len() + b.len() - 1) as nat, |k: int| conv_at(a, b, k, a.len() as int))
}

/// The distribution of the sum of two independent outcomes.
pub open spec fn dist_add(a: Dist, b: Dist) -> Dist {
    Dist { offset: a.offset + b.offset, weights: conv(a.weights, b.weights) }
}

/// The subtraction as the analysis defines it: the weights of the sum,
/// with the offset of the difference.
pub open spec fn dist_sub(a: Dist, b: Dist) -> Dist {
    Dist { offset: a.offset - b.offset, weights: conv(a.weights, b.weights) }
}

/// Every weight multiplied by `f`.
pub open spec fn dist_scale(a: Dist, f: int) -> Dist {
    Dist { offset: a.offset, weights: a.weights.map_values(|w: int| w * f) }
}

pub open spec fn last_outcome(a: Dist) -> int {
    a.offset + a.weights.len() - 1
}

pub open spec fn min4(w: int, x: int, y: int, z: int) -> int {
    let m1 = if w <= x { w } else { x };
    let m2 = if y <= z { y } else { z };
    if m1 <= m2 { m1 } else { m2 }
}

pub open spec fn max4(w: int, x: int, y: int, z: int) -> int {
    let m1 = if w >= x { w } else { x };
    let m2 = if y >= z { y } else { z };
    if m1 >= m2 { m1 } else { m2 }
}

/// The least product of an outcome of `a` and one of `b`.
pub open spec fn product_low(a: Dist, b: Dist) -> int {
    min4(a.offset * b.offset, a.offset * last_outcome(b), last_outcome(a) * b.offset, last_outcome(a) * last_outcome(b))
}

/// The greatest product of an outcome of `a` and one of `b`.
pub open spec fn product_high(a: Dist, b: Dist) -> int {
    max4(a.offset * b.offset, a.offset * last_outcome(b), last_outcome(a) * b.offset, last_outcome(a) * last_outcome(b))
}

/// The weight that row `i` of `a` gives the product `p` with the first `m`
/// outcomes of `b`.
pub open spec fn bucket_row(a: Dist, b: Dist, p: int, i: int, m: int) -> int
    decreases m,
{
    if m <= 0 {
        0
    } else {
        bucket_row(a, b, p, i, m - 1) + if (a.offset + i) * (b.offset + m - 1) == p {
            a.weights[i] * b.weights[m - 1]
        } else {
            0
        }
    }
}

/// The weight of the product `p` from the first `n` outcomes of `a`.
pub open spec fn bucket(a: Dist, b: Dist, p: int, n: int) -> int
    decreases n,
{
    if n <= 0 {
        0
    } else {
        bucket(a, b, p, n - 1) + bucket_row(a, b, p, n - 1, b.weights.len() as int)
    }
}

/// The distribution of the product of two independent outcomes, over the
/// range between the least and greatest attainable product.
pub open spec fn dist_mul(a: Dist, b: Dist) -> Dist {
    let lo = product_low(a, b);
    let hi = product_high(a, b);
    Dist {
        offset: lo,
        weights: Seq::new((hi - lo + 1) as nat, |k: int| bucket(a, b, lo + k, a.weights.len() as int)),
    }
}

/// The sum of `v` independent outcomes of `b`; the point 0 for `v <= 0`.
pub open spec fn power(b: Dist, v: int) -> Dist
    decreases v,
{
    if v <= 0 {
        point(0)
    } else {
        dist_add(power(b, v - 1), b)
    }
}

/// The weight that `d` gives the outcome `s`: 0 outside its range.
pub open spec fn weight_at(d: Dist, s: int) -> int {
    if d.offset <= s <= last_outcome(d) {
        d.weights[s - d.offset]
    } else {
        0
    }
}

/// The mixture of two distributions: their weights added outcome by
/// outcome, over the union of their ranges.
pub open spec fn dist_mix(x: Dist, y: Dist) -> Dist {
    let lo = if x.offset <= y.offset { x.offset } else { y.offset };
    let hi = if last_outcome(x) >= last_outcome(y) { last_outcome(x) } else { last_outcome(y) };
    Dist { offset: lo, weights: Seq::new((hi - lo + 1) as nat, |k: int| weight_at(x, lo + k) + weight_at(y, lo + k)) }
}

/// The part of a dice pool for the `i`-th outcome `v` of `a`, of weight
/// `f`: the `v`-fold sum of `b` with its weights scaled by `f`.
pub open spec fn pool_part(a: Dist, b: Dist, i: int) -> Dist {
    dist_scale(power(b, a.offset + i), a.weights[i])
}

/// The dice pool over the first `n >= 1` outcomes of `a`: the mixture of
/// their parts.
pub open spec fn pool_upto(a: Dist, b: Dist, n: int) -> Dist
    decreases n,
{
    if n <= 1 {
        pool_part(a, b, 0)
    } else {
        dist_mix(pool_upto(a, b, n - 1), pool_part(a, b, n - 1))
    }
}

pub open spec fn dist_pool(a: Dist, b: Dist) -> Dist {
    pool_upto(a, b, a.weights.len() as int)
}

/// A distribution that a `FreqGraph` can hold: a non-empty range of 64-bit
/// outcomes and weights that fit in 64 bits.
pub open spec fn fits(d: Dist) -> bool {
    &&& 1 <= d.weights.len() <= usize::MAX
    &&& i64::MIN <= d.offset
    &&& last_outcome(d) <= i64::MAX
    &&& weights_fit(d.weights)
}

pub open spec fn weights_fit(w: Seq<int>) -> bool {
    forall|i: int| 0 <= i < w.len() ==> 0 <= #[trigger] w[i] <= u64::MAX
}

pub open spec fn nonneg(w: Seq<int>) -> bool {
    forall|i: int| 0 <= i < w.len() ==> 0 <= #[trigger] w[i]
}

pub open spec fn checked(d: Dist) -> Option<Dist> {
    if fits(d) {
        Some(d)
    } else {
        None
    }
}

pub open spec fn weights_of(v: Seq<u64>) -> Seq<int> {
    v.map_values(|w: u64| w as int)
}

proof fn lemma_cterm_nonneg(a: Seq<int>, b: Seq<int>, k: int, i: int)
    requires
        nonneg(a),
        nonneg(b),
        0 <= i < a.len(),
    ensures
        cterm(a, b, k, i) >= 0,
{
    if 0 <= k - i < b.len() {
        let x = a[i];
        let y = b[k - i];
        assert(x * y >= 0) by (nonlinear_arith)
            requires
                x >= 0,
                y >= 0,
        ;
    }
}

proof fn lemma_conv_at_mono(a: Seq<int>, b: Seq<int>, k: int, m: int, n: int)
    requires
        nonneg(a),
        nonneg(b),
        0 <= m <= n <= a.len(),
    ensures
        0 <= conv_at(a, b, k, m) <= conv_at(a, b, k, n),
    decreases n,
{
    if n > 0 {
        lemma_conv_at_mono(a, b, k, if m == n { n - 1 } else { m }, n - 1);
        lemma_cterm_nonneg(a, b, k, n - 1);
    }
}

/// `len` zero weights.
fn zeros(len: usize) -> (r: Vec<u64>)
    ensures
        r@.len() == len,
        forall|k: int| 0 <= k < len ==> r@[k] == 0u64,
{
    let mut v: Vec<u64> = Vec::new();
    let mut i: usize = 0;
    while i < len
        invariant
            i <= len,
            v@.len() == i,
            forall|k: int| 0 <= k < i ==> v@[k] == 0u64,
        decreases len - i,
    {
        v.push(0);
        i = i + 1;
    }
    v
}

/// The convolution of two non-empty weight vectors, or `None` where its
/// length or a weight does not fit.
fn convolve(a: &Vec<u64>, b: &Vec<u64>) -> (r: Option<Vec<u64>>)
    requires
        a@.len() >= 1,
        b@.len() >= 1,
    ensures
        ({
            let c = conv(weights_of(a@), weights_of(b@));
            &&& r is Some <==> (c.len() <= usize::MAX && weights_fit(c))
            &&& r matches Some(v) ==> weights_of(v@) == c
        }),
{
    let ghost wa = weights_of(a@);
    let ghost wb = weights_of(b@);
    let ghost c = conv(wa, wb);
    let la = a.len();
    let lb = b.len();
    let len = match (la - 1).checked_add(lb) {
        Some(l) => l,
        None => return None,
    };
    let mut values = zeros(len);
    let mut i: usize = 0;
    while i < la
        invariant
            la == a@.len(),
            lb == b@.len(),
            wa == weights_of(a@),
            wb == weights_of(b@),
            c == conv(wa, wb),
            len == la + lb - 1,
            i <= la,
            values@.len() == len,
            forall|kk: int| 0 <= kk < len ==> #[trigger] values@[kk] as int == conv_at(wa, wb, kk, i as int),
        decreases la - i,
    {
        let mut j: usize = 0;
        while j < lb
            invariant
                la == a@.len(),
                lb == b@.len(),
                wa == weights_of(a@),
                wb == weights_of(b@),
                c == conv(wa, wb),
                len == la + lb - 1,
                i < la,
                j <= lb,
                values@.len() == len,
                forall|kk: int| 0 <= kk < len ==> #[trigger] values@[kk] as int == conv_at(wa, wb, kk, i as int)
                    + if i <= kk < i + j { cterm(wa, wb, kk, i as int) } else { 0 },
            decreases lb - j,
        {
            let k = i + j;
            proof {
                assert(cterm(wa, wb, k as int, i as int) == a@[i as int] as int * b@[j as int] as int);
                lemma_conv_at_mono(wa, wb, k as int, i as int + 1, la as int);
                lemma_conv_at_mono(wa, wb, k as int, i as int, i as int);
                assert(conv_at(wa, wb, k as int, i + 1) == conv_at(wa, wb, k as int, i as int) + cterm(wa, wb, k as int, i as int));
                assert(c[k as int] == conv_at(wa, wb, k as int, la as int));
            }
            let t = match a[i].checked_mul(b[j]) {
                Some(t) => t,
                None => {
                    assert(!weights_fit(c));
                    return None;
                },
            };
            let x = match values[k].checked_add(t) {
                Some(x) => x,
                None => {
                    assert(!weights_fit(c));
                    return None;
                },
            };
            values.set(k, x);
            j = j + 1;
        }
        proof {
            assert forall|kk: int| 0 <= kk < len implies #[trigger] values@[kk] as int == conv_at(wa, wb, kk, i + 1) by {
                if !(i <= kk < i + lb) {
                    assert(cterm(wa, wb, kk, i as int) == 0);
                }
            }
        }
        i = i + 1;
    }
    assert(weights_of(values@) =~= c);
    Some(values)
}

proof fn lemma_mul_between(x: int, lo: int, hi: int, y: int)
    requires
        lo <= x <= hi,
    ensures
        (lo * y <= x * y <= hi * y) || (hi * y <= x * y <= lo * y),
{
    if y >= 0 {
        assert(lo * y <= x * y <= hi * y) by (nonlinear_arith)
            requires
                lo <= x <= hi,
                y >= 0,
        ;
    } else {
        assert(hi * y <= x * y <= lo * y) by (nonlinear_arith)
            requires
                lo <= x <= hi,
                y < 0,
        ;
    }
}

/// Every product of outcomes lies between the least and greatest corner.
pub proof fn lemma_product_in_range(a: Dist, b: Dist, x: int, y: int)
    requires
        a.offset <= x <= last_outcome(a),
        b.offset <= y <= last_outcome(b),
    ensures
        product_low(a, b) <= x * y <= product_high(a, b),
{
    lemma_mul_between(x, a.offset, last_outcome(a), y);
    lemma_mul_between(y, b.offset, last_outcome(b), a.offset);
    lemma_mul_between(y, b.offset, last_outcome(b), last_outcome(a));
    assert(a.offset * y == y * a.offset) by (nonlinear_arith);
    assert(last_outcome(a) * y == y * last_outcome(a)) by (nonlinear_arith);
    assert(a.offset * b.offset == b.offset * a.offset) by (nonlinear_arith);
    assert(a.offset * last_outcome(b) == last_outcome(b) * a.offset) by (nonlinear_arith);
    assert(last_outcome(a) * b.offset == b.offset * last_outcome(a)) by (nonlinear_arith);
    assert(last_outcome(a) * last_outcome(b) == last_outcome(b) * last_outcome(a)) by (nonlinear_arith);
}

proof fn lemma_bucket_row_mono(a: Dist, b: Dist, p: int, i: int, m: int, n: int)
    requires
        nonneg(a.weights),
        nonneg(b.weights),
        0 <= i < a.weights.len(),
        0 <= m <= n <= b.weights.len(),
    ensures
        0 <= bucket_row(a, b, p, i, m) <= bucket_row(a, b, p, i, n),
    decreases n,
{
    if n > 0 {
        lemma_bucket_row_mono(a, b, p, i, if m == n { n - 1 } else { m }, n - 1);
        let x = a.weights[i];
        let y = b.weights[n - 1];
        assert(x * y >= 0) by (nonlinear_arith)
            requires
                x >= 0,
                y >= 0,
        ;
    }
}

proof fn lemma_bucket_mono(a: Dist, b: Dist, p: int, m: int, n: int)
    requires
        nonneg(a.weights),
        nonneg(b.weights),
        0 <= m <= n <= a.weights.len(),
    ensures
        0 <= bucket(a, b, p, m) <= bucket(a, b, p, n),
    decreases n,
{
    if n > 0 {
        lemma_bucket_mono(a, b, p, if m == n { n - 1 } else { m }, n - 1);
        lemma_bucket_row_mono(a, b, p, n - 1, 0, b.weights.len() as int);
    }
}

fn min2(x: i128, y: i128) -> (r: i128)
    ensures
        r == if x <= y { x } else { y },
{
    if x <= y {
        x
    } else {
        y
    }
}

fn max2(x: i128, y: i128) -> (r: i128)
    ensures
        r == if x >= y { x } else { y },
{
    if x >= y {
        x
    } else {
        y
    }
}

proof fn lemma_i64_product(x: int, y: int)
    requires
        i64::MIN <= x <= i64::MAX,
        i64::MIN <= y <= i64::MAX,
    ensures
        -0x4000_0000_0000_0000_0000_0000_0000_0000 <= x * y <= 0x4000_0000_0000_0000_0000_0000_0000_0000,
{
    assert(-0x4000_0000_0000_0000_0000_0000_0000_0000 <= x * y <= 0x4000_0000_0000_0000_0000_0000_0000_0000) by (nonlinear_arith)
        requires
            -0x8000_0000_0000_0000 <= x <= 0x7fff_ffff_ffff_ffff,
            -0x8000_0000_0000_0000 <= y <= 0x7fff_ffff_ffff_ffff,
    ;
}

/// A distribution with 64-bit outcomes and weights.
pub struct FreqGraph {
    offset: i64,
    values: Vec<u64>,
}

impl View for FreqGraph {
    type V = Dist;

    closed spec fn view(&self) -> Dist {
        Dist { offset: self.offset as int, weights: weights_of(self.values@) }
    }
}

pub open spec fn opt_view(r: Option<FreqGraph>) -> Option<Dist> {
    match r {
        Some(g) => Some(g@),
        None => None,
    }
}

impl FreqGraph {
    #[verifier::type_invariant]
    closed spec fn holds(self) -> bool {
        fits(self@)
    }

    pub fn offset(&self) -> (r: i64)
        ensures
            r == self@.offset,
    {
        self.offset
    }

    pub fn values(&self) -> (r: &Vec<u64>)
        ensures
            weights_of(r@) == self@.weights,
            fits(self@),
    {
        proof {
            use_type_invariant(self);
        }
        &self.values
    }

    /// Wraps computed weights with an offset computed in 128 bits, or
    /// `None` where an outcome leaves the 64-bit range.
    fn with_offset(offset: i128, values: Vec<u64>) -> (r: Option<FreqGraph>)
        requires
            1 <= values@.len(),
            weights_fit(weights_of(values@)),
            -0x8000_0000_0000_0000_0000_0000_0000 <= offset <= 0x8000_0000_0000_0000_0000_0000_0000,
        ensures
            opt_view(r) == checked(Dist { offset: offset as int, weights: weights_of(values@) }),
    {
        let last = offset + (values.len() as i128) - 1;
        if offset < i64::MIN as i128 || last > i64::MAX as i128 {
            return None;
        }
        let g = FreqGraph { offset: offset as i64, values };
        Some(g)
    }

    /// The distribution of the sum of independent outcomes of `self` and
    /// `rhs`, or `None` where it does not fit.
    pub fn add(&self, rhs: &FreqGraph) -> (r: Option<FreqGraph>)
        ensures
            opt_view(r) == checked(dist_add(self@, rhs@)),
    {
        proof {
            use_type_invariant(self);
            use_type_invariant(rhs);
        }
        let offset = self.offset as i128 + rhs.offset as i128;
        match convolve(&self.values, &rhs.values) {
            Some(values) => FreqGraph::with_offset(offset, values),
            None => None,
        }
    }

    /// The weights of `add` with the offset `self.offset - rhs.offset`, or
    /// `None` where that does not fit.
    pub fn sub(&self, rhs: &FreqGraph) -> (r: Option<FreqGraph>)
        ensures
            opt_view(r) == checked(dist_sub(self@, rhs@)),
    {
        proof {
            use_type_invariant(self);
            use_type_invariant(rhs);
        }
        let offset = self.offset as i128 - rhs.offset as i128;
        match convolve(&self.values, &rhs.values) {
            Some(values) => FreqGraph::with_offset(offset, values),
            None => None,
        }
    }

    /// Every weight multiplied by `t`, or `None` where a weight overflows.
    pub fn times(&self, t: u64) -> (r: Option<FreqGraph>)
        ensures
            opt_view(r) == checked(dist_scale(self@, t as int)),
    {
        proof {
            use_type_invariant(self);
        }
        let ghost d = dist_scale(self@, t as int);
        let mut values: Vec<u64> = Vec::new();
        let mut i: usize = 0;
        while i < self.values.len()
            invariant
                d == dist_scale(self@, t as int),
                self@.weights == weights_of(self.values@),
                i <= self.values@.len(),
                values@.len() == i,
                forall|k: int| 0 <= k < i ==> #[trigger] values@[k] as int == self.values@[k] * t,
            decreases self.values@.len() - i,
        {
            let x = match self.values[i].checked_mul(t) {
                Some(x) => x,
                None => {
                    assert(d.weights[i as int] == self.values@[i as int] * t);
                    return None;
                },
            };
            values.push(x);
            i = i + 1;
        }
        let g = FreqGraph { offset: self.offset, values };
        assert(g@.weights =~= d.weights);
        Some(g)
    }

    /// The distribution of the product of independent outcomes of `self`
    /// and `rhs`, over the range between the extreme products, or `None`
    /// where it does not fit.
    pub fn mul(&self, rhs: &FreqGraph) -> (r: Option<FreqGraph>)
        ensures
            opt_view(r) == checked(dist_mul(self@, rhs@)),
    {
        proof {
            use_type_invariant(self);
            use_type_invariant(rhs);
        }
        let ghost da = self@;
        let ghost db = rhs@;
        let ghost d = dist_mul(da, db);
        let la = self.values.len();
        let lb = rhs.values.len();
        let a_lo = self.offset as i128;
        let a_hi = self.offset as i128 + la as i128 - 1;
        let b_lo = rhs.offset as i128;
        let b_hi = rhs.offset as i128 + lb as i128 - 1;
        proof {
            lemma_i64_product(a_lo as int, b_lo as int);
            lemma_i64_product(a_lo as int, b_hi as int);
            lemma_i64_product(a_hi as int, b_lo as int);
            lemma_i64_product(a_hi as int, b_hi as int);
        }
        let c1 = a_lo * b_lo;
        let c2 = a_lo * b_hi;
        let c3 = a_hi * b_lo;
        let c4 = a_hi * b_hi;
        let lo = min2(min2(c1, c2), min2(c3, c4));
        let hi = max2(max2(c1, c2), max2(c3, c4));
        assert(lo == product_low(da, db) && hi == product_high(da, db));
        if lo < i64::MIN as i128 || hi > i64::MAX as i128 || hi - lo >= usize::MAX as i128 {
            return None;
        }
        let len = (hi - lo + 1) as usize;
        let mut values = zeros(len);
        let mut i: usize = 0;
        while i < la
            invariant
                da == self@,
                db == rhs@,
                d == dist_mul(da, db),
                la == da.weights.len(),
                lb == db.weights.len(),
                a_lo == da.offset,
                b_lo == db.offset,
                lo == product_low(da, db),
                hi == product_high(da, db),
                lo >= i64::MIN,
                hi <= i64::MAX,
                len == hi - lo + 1,
                i <= la,
                values@.len() == len,
                forall|kk: int| 0 <= kk < len ==> #[trigger] values@[kk] as int == bucket(da, db, lo + kk, i as int),
            decreases la - i,
        {
            let mut j: usize = 0;
            while j < lb
                invariant
                    da == self@,
                    db == rhs@,
                    d == dist_mul(da, db),
                    la == da.weights.len(),
                    lb == db.weights.len(),
                    a_lo == da.offset,
                    b_lo == db.offset,
                    lo == product_low(da, db),
                    hi == product_high(da, db),
                    lo >= i64::MIN,
                    hi <= i64::MAX,
                    len == hi - lo + 1,
                    i < la,
                    j <= lb,
                    values@.len() == len,
                    forall|kk: int| 0 <= kk < len ==> #[trigger] values@[kk] as int == bucket(da, db, lo + kk, i as int)
                        + bucket_row(da, db, lo + kk, i as int, j as int),
                decreases lb - j,
            {
                let x = a_lo + i as i128;
                let y = b_lo + j as i128;
                proof {
                    lemma_product_in_range(da, db, x as int, y as int);
                }
                let p = x * y;
                let k = (p - lo) as usize;
                proof {
                    let pk = lo + k;
                    assert(pk == p);
                    lemma_bucket_mono(da, db, pk, i as int + 1, la as int);
                    lemma_bucket_mono(da, db, pk, i as int, i as int);
                    lemma_bucket_row_mono(da, db, pk, i as int, j as int + 1, lb as int);
                    assert(bucket_row(da, db, pk, i as int, j as int + 1) == bucket_row(da, db, pk, i as int, j as int)
                        + da.weights[i as int] * db.weights[j as int]);
                    assert(d.weights[k as int] == bucket(da, db, pk, la as int));
                    assert(bucket(da, db, pk, i + 1) == bucket(da, db, pk, i as int) + bucket_row(da, db, pk, i as int, lb as int));
                    assert(values@[k as int] as int == bucket(da, db, pk, i as int) + bucket_row(da, db, pk, i as int, j as int));
                }
                let t = match self.values[i].checked_mul(rhs.values[j]) {
                    Some(t) => t,
                    None => {
                        assert(!weights_fit(d.weights));
                        return None;
                    },
                };
                let v = match values[k].checked_add(t) {
                    Some(v) => v,
                    None => {
                        assert(!weights_fit(d.weights));
                        return None;
                    },
                };
                values.set(k, v);
                proof {
                    assert forall|kk: int| 0 <= kk < len implies #[trigger] values@[kk] as int == bucket(da, db, lo + kk, i as int)
                        + bucket_row(da, db, lo + kk, i as int, j + 1) by {
                        if kk != k {
                            assert((x as int) * (y as int) != lo + kk);
                        }
                    }
                }
                j = j + 1;
            }
            i = i + 1;
        }
        assert(weights_of(values@) =~= d.weights);
        let g = FreqGraph { offset: lo as i64, values };
        Some(g)
    }

    /// The mixture of `self` and `rhs`, or `None` where it does not fit.
    pub fn mix(&self, rhs: &FreqGraph) -> (r: Option<FreqGraph>)
        ensures
            opt_view(r) == checked(dist_mix(self@, rhs@)),
    {
        proof {
            use_type_invariant(self);
            use_type_invariant(rhs);
        }
        let ghost d = dist_mix(self@, rhs@);
        let a_last = self.offset as i128 + self.values.len() as i128 - 1;
        let b_last = rhs.offset as i128 + rhs.values.len() as i128 - 1;
        let lo = min2(self.offset as i128, rhs.offset as i128);
        let hi = max2(a_last, b_last);
        if hi - lo >= usize::MAX as i128 {
            return None;
        }
        let len = (hi - lo + 1) as usize;
        let mut values: Vec<u64> = Vec::new();
        let mut k: usize = 0;
        while k < len
            invariant
                d == dist_mix(self@, rhs@),
                lo == d.offset,
                len == d.weights.len(),
                a_last == last_outcome(self@),
                b_last == last_outcome(rhs@),
                self@.weights == weights_of(self.values@),
                rhs@.weights == weights_of(rhs.values@),
                self.offset == self@.offset,
                rhs.offset == rhs@.offset,
                k <= len,
                values@.len() == k,
                forall|j: int| 0 <= j < k ==> #[trigger] values@[j] as int == d.weights[j],
            decreases len - k,
        {
            let s = lo + k as i128;
            let x: u64 = if self.offset as i128 <= s && s <= a_last {
                self.values[(s - self.offset as i128) as usize]
            } else {
                0
            };
            let y: u64 = if rhs.offset as i128 <= s && s <= b_last {
                rhs.values[(s - rhs.offset as i128) as usize]
            } else {
                0
            };
            assert(d.weights[k as int] == x as int + y as int);
            let w = match x.checked_add(y) {
                Some(w) => w,
                None => return None,
            };
            values.push(w);
            k = k + 1;
        }
        let g = FreqGraph { offset: lo as i64, values };
        assert(g@.weights =~= d.weights);
        Some(g)
    }

    /// The point `n`.
    pub fn val(n: u32) -> (r: Self)
        ensures
            r@ == point(n as int),
    {
        let g = FreqGraph { offset: n as i64, values: vec![1u64] };
        assert(g@.weights =~= seq![1int]);
        g
    }

    /// The uniform distribution of a die with `d` faces.
    pub fn die(d: u32) -> (r: Self)
        requires
            d > 0,
        ensures
            r@ == uniform(d as nat),
    {
        let mut values: Vec<u64> = Vec::new();
        let mut i: u32 = 0;
        while i < d
            invariant
                i <= d,
                values@.len() == i,
                forall|k: int| 0 <= k < i ==> values@[k] == 1u64,
            decreases d - i,
        {
            values.push(1);
            i = i + 1;
        }
        let g = FreqGraph { offset: 1, values };
        assert(g@.weights =~= uniform(d as nat).weights);
        g
    }
}

} // verus!
