//! Laws that relate parsing, throwing and analysis.
use vstd::prelude::*;
use vstd::arithmetic::div_mod::{lemma_fundamental_div_mod, lemma_mod_multiples_basic};
use vstd::wrapping::i64_specs;
use crate::analysis::{graph_of, is_pool};
use crate::dist::{dist_mix, dist_pool, dist_scale, last_outcome, pool_part, pool_upto, power, weight_at, Dist};
use crate::totals::{
    int_pow, lemma_add_sub_total, lemma_leaf_totals, lemma_mul_total, lemma_pool_total, pool_total, total,
};
use crate::dist::{bucket, bucket_row, conv, conv_at, cterm, dist_mul, point, product_high, product_low};
use crate::expr::{Die, Expr, Op, Val};
use crate::normal_form::{
    as_norm, as_token, framed, kinds, lemma_paren_run, lemma_scan_chain, lemma_scan_passes, lemma_scan_run,
    lemma_scan_split, passes, tok,
};
use crate::normalize::{norm_scan, norm_step, spec_normalize, NormToken};
use crate::parser::{spec_tokenize, IndexedToken, Token};
use crate::throw::{apply, die_faces, eval};

verus! {

/// The expression holds no die.
pub open spec fn dice_free(e: Expr) -> bool
    decreases e,
{
    match e {
        Expr::Value(Val::Num(_)) => true,
        Expr::Value(Val::Die(_)) => false,
        Expr::Expr { op, left, right } => dice_free(*left) && dice_free(*right),
    }
}

/// The value of a dice-free expression in unbounded integers.
pub open spec fn exact(e: Expr) -> int
    decreases e,
{
    match e {
        Expr::Value(Val::Num(n)) => n as int,
        Expr::Value(Val::Die(_)) => 0,
        Expr::Expr { op, left, right } => match op {
            Op::Add => exact(*left) + exact(*right),
            Op::Sub => exact(*left) - exact(*right),
            Op::Mul => exact(*left) * exact(*right),
        },
    }
}

pub open spec fn same_mod64(x: int, y: int) -> bool {
    (x - y) % 0x1_0000_0000_0000_0000 == 0
}

proof fn lemma_same_mod64_witness(x: int, y: int) -> (k: int)
    requires
        same_mod64(x, y),
    ensures
        x - y == 0x1_0000_0000_0000_0000 * k,
{
    lemma_fundamental_div_mod(x - y, 0x1_0000_0000_0000_0000);
    (x - y) / 0x1_0000_0000_0000_0000
}

proof fn lemma_same_mod64_from(x: int, y: int, k: int)
    requires
        x - y == 0x1_0000_0000_0000_0000 * k,
    ensures
        same_mod64(x, y),
{
    lemma_mod_multiples_basic(k, 0x1_0000_0000_0000_0000);
    assert(k * 0x1_0000_0000_0000_0000 == 0x1_0000_0000_0000_0000 * k) by (nonlinear_arith);
}

/// Wrapping arithmetic agrees with exact arithmetic modulo 2^64.
proof fn lemma_apply_mod64(op: Op, x: i64, y: i64, a: int, b: int)
    requires
        same_mod64(x as int, a),
        same_mod64(y as int, b),
    ensures
        same_mod64(
            apply(op, x, y) as int,
            match op {
                Op::Add => a + b,
                Op::Sub => a - b,
                Op::Mul => a * b,
            },
        ),
{
    let m: int = 0x1_0000_0000_0000_0000;
    let k1 = lemma_same_mod64_witness(x as int, a);
    let k2 = lemma_same_mod64_witness(y as int, b);
    match op {
        Op::Add => {
            let r = i64_specs::wrapping_add(x, y) as int;
            let c: int = if x + y > i64::MAX { -1 } else if x + y < i64::MIN { 1 } else { 0 };
            assert(r == x + y + c * m);
            lemma_same_mod64_from(r, a + b, k1 + k2 + c);
        },
        Op::Sub => {
            let r = i64_specs::wrapping_sub(x, y) as int;
            let c: int = if x - y > i64::MAX { -1 } else if x - y < i64::MIN { 1 } else { 0 };
            assert(r == x - y + c * m);
            lemma_same_mod64_from(r, a - b, k1 - k2 + c);
        },
        Op::Mul => {
            let p = x as int * y as int;
            let r = i64_specs::wrapping_mul(x, y) as int;
            lemma_fundamental_div_mod(p, m);
            let c: int = if p % m > i64::MAX { -1 } else { 0 };
            assert(r == p - m * (p / m) + c * m);
            let xi = x as int;
            let yi = y as int;
            assert(xi * yi - a * b == m * (xi * k2 + b * k1)) by (nonlinear_arith)
                requires
                    xi - a == m * k1,
                    yi - b == m * k2,
            ;
            assert(r - a * b == m * (xi * k2 + b * k1 - p / m + c)) by (nonlinear_arith)
                requires
                    r == p - m * (p / m) + c * m,
                    p == xi * yi,
                    xi * yi - a * b == m * (xi * k2 + b * k1),
            ;
            lemma_same_mod64_from(r, a * b, xi * k2 + b * k1 - p / m + c);
        },
    }
}

proof fn lemma_dice_free_mod64(e: Expr, d: Seq<u32>)
    requires
        dice_free(e),
    ensures
        same_mod64(eval(e, d).0 as int, exact(e)),
        eval(e, d).1 == 0,
    decreases e,
{
    match e {
        Expr::Value(Val::Num(n)) => {
            lemma_same_mod64_from(n as int, n as int, 0);
        },
        Expr::Value(Val::Die(_)) => {},
        Expr::Expr { op, left, right } => {
            lemma_dice_free_mod64(*left, d);
            assert(d.skip(0) =~= d);
            lemma_dice_free_mod64(*right, d);
            lemma_apply_mod64(op, eval(*left, d).0, eval(*right, d).0, exact(*left), exact(*right));
        },
    }
}

proof fn lemma_dice_free_graph(e: Expr)
    requires
        dice_free(e),
    ensures
        graph_of(e) == point(exact(e)),
    decreases e,
{
    if let Expr::Expr { op, left, right } = e {
        lemma_dice_free_graph(*left);
        lemma_dice_free_graph(*right);
        let a = point(exact(*left));
        let b = point(exact(*right));
        assert(conv(a.weights, b.weights) =~= seq![1int]) by {
            assert(conv_at(a.weights, b.weights, 0, 0) == 0);
            assert(cterm(a.weights, b.weights, 0, 0) == 1);
            assert(conv_at(a.weights, b.weights, 0, 1) == 1);
        }
        if op == Op::Mul {
            let m = dist_mul(a, b);
            let p = exact(*left) * exact(*right);
            assert(product_low(a, b) == p && product_high(a, b) == p);
            assert(bucket_row(a, b, p, 0, 0) == 0);
            assert((a.offset + 0) * (b.offset + 1 - 1) == p);
            assert(bucket_row(a, b, p, 0, 1) == 1);
            assert(bucket(a, b, p, 0) == 0);
            assert(bucket(a, b, p, 1) == 1);
            assert(m.weights =~= seq![1int]);
        }
    }
}

/// A dice-free expression takes no draws; its distribution is the single
/// point at its exact value, and a throw gives that value wherever it fits
/// in 64 bits.
pub proof fn lemma_numbers_agree(e: Expr, d: Seq<u32>)
    requires
        dice_free(e),
    ensures
        graph_of(e) == point(exact(e)),
        eval(e, d).1 == 0,
        i64::MIN <= exact(e) <= i64::MAX ==> eval(e, d).0 == exact(e),
{
    lemma_dice_free_graph(e);
    lemma_dice_free_mod64(e, d);
    if i64::MIN <= exact(e) <= i64::MAX {
        let v = eval(e, d).0 as int;
        let k = lemma_same_mod64_witness(v, exact(e));
        assert(k == 0) by (nonlinear_arith)
            requires
                v - exact(e) == 0x1_0000_0000_0000_0000 * k,
                i64::MIN <= v <= i64::MAX,
                i64::MIN <= exact(e) <= i64::MAX,
        ;
    }
}

/// A die rolls between 1 and its number of faces whatever is drawn, and its
/// distribution gives each of the faces `1..=faces` the same weight.
pub proof fn lemma_die_law(die: Die, d: Seq<u32>)
    requires
        die.faces() > 0,
    ensures
        1 <= eval(Expr::Value(Val::Die(die)), d).0 <= die.faces(),
        graph_of(Expr::Value(Val::Die(die))).offset == 1,
        graph_of(Expr::Value(Val::Die(die))).weights.len() == die.faces(),
        forall|i: int, j: int|
            0 <= i < die.faces() && 0 <= j < die.faces() ==> graph_of(Expr::Value(Val::Die(die))).weights[i]
                == graph_of(Expr::Value(Val::Die(die))).weights[j],
{
}

/// Every die of the expression has at least one face.
pub open spec fn dice_valid(e: Expr) -> bool
    decreases e,
{
    match e {
        Expr::Value(Val::Num(_)) => true,
        Expr::Value(Val::Die(d)) => d.faces() > 0,
        Expr::Expr { op, left, right } => dice_valid(*left) && dice_valid(*right),
    }
}

/// Every dice pool of the expression counts its dice with a dice-free
/// expression.
pub open spec fn fixed_pools(e: Expr) -> bool
    decreases e,
{
    match e {
        Expr::Value(_) => true,
        Expr::Expr { op, left, right } => (is_pool(op, *right) ==> dice_free(*left)) && fixed_pools(*left)
            && fixed_pools(*right),
    }
}

/// The product of the face counts of the dice: a die counts its faces, a
/// pool of `k` dice counts the die's faces `k` times (none where `k <= 0`),
/// a number counts 1.
pub open spec fn face_product(e: Expr) -> int
    decreases e,
{
    match e {
        Expr::Value(Val::Num(_)) => 1,
        Expr::Value(Val::Die(d)) => d.faces() as int,
        Expr::Expr { op, left, right } => if is_pool(op, *right) {
            int_pow(die_faces(*right) as int, if exact(*left) > 0 { exact(*left) as nat } else { 0 })
        } else {
            face_product(*left) * face_product(*right)
        },
    }
}

/// Where every dice pool counts its dice with a dice-free expression, the
/// total weight of the distribution is the product of the face counts of
/// the dice: `2d6` has total 36, `d6 + (1+1)d4` has 96, subtraction
/// included.
pub proof fn lemma_total_weight(e: Expr)
    requires
        dice_valid(e),
        fixed_pools(e),
    ensures
        total(graph_of(e)) == face_product(e),
        graph_of(e).weights.len() >= 1,
    decreases e,
{
    match e {
        Expr::Value(Val::Num(n)) => {
            lemma_leaf_totals(0, n as int);
        },
        Expr::Value(Val::Die(d)) => {
            lemma_leaf_totals(d.faces() as nat, 0);
        },
        Expr::Expr { op, left, right } => {
            lemma_total_weight(*left);
            lemma_total_weight(*right);
            let a = graph_of(*left);
            let b = graph_of(*right);
            if is_pool(op, *right) {
                lemma_dice_free_graph(*left);
                lemma_pool_total(a, b, 1);
                lemma_leaf_totals(die_faces(*right) as nat, 0);
                let k = exact(*left);
                let x = int_pow(total(b), if k > 0 { k as nat } else { 0 });
                assert(a.weights[0] == 1);
                assert(pool_total(a, total(b), 0) == 0);
                assert(pool_total(a, total(b), 1) == 0 + 1 * x);
            } else if op == Op::Mul {
                lemma_mul_total(a, b);
            } else {
                lemma_add_sub_total(a, b);
            }
        },
    }
}

/// `f * weight_at(power(b, v), s)` summed over the first `n` outcomes `v`
/// of `a`, with weights `f`.
pub open spec fn mixed_weight(a: Dist, b: Dist, s: int, n: int) -> int
    decreases n,
{
    if n <= 0 {
        0
    } else {
        mixed_weight(a, b, s, n - 1) + a.weights[n - 1] * weight_at(power(b, a.offset + n - 1), s)
    }
}

/// A dice pool is a mixture over its count: the weight of an outcome `s`
/// is the sum, over each count `v` of weight `f`, of `f` times the weight
/// of `s` in the `v`-fold sum of the die, as a throw rolls the die `v`
/// times.
pub proof fn lemma_pool_mixture(a: Dist, b: Dist, s: int)
    requires
        a.weights.len() >= 1,
    ensures
        weight_at(dist_pool(a, b), s) == mixed_weight(a, b, s, a.weights.len() as int),
{
    lemma_pool_mixture_upto(a, b, s, a.weights.len() as int);
}

proof fn lemma_pool_mixture_upto(a: Dist, b: Dist, s: int, n: int)
    requires
        1 <= n <= a.weights.len(),
    ensures
        weight_at(pool_upto(a, b, n), s) == mixed_weight(a, b, s, n),
    decreases n,
{
    let p = power(b, a.offset + n - 1);
    let f = a.weights[n - 1];
    let part = pool_part(a, b, n - 1);
    assert(part == dist_scale(p, f));
    assert(weight_at(part, s) == f * weight_at(p, s)) by {
        if p.offset <= s <= last_outcome(p) {
            let w = p.weights[s - p.offset];
            assert(w * f == f * w) by (nonlinear_arith);
        }
    }
    if n > 1 {
        lemma_pool_mixture_upto(a, b, s, n - 1);
        let x = pool_upto(a, b, n - 1);
        assert(weight_at(dist_mix(x, part), s) == weight_at(x, s) + weight_at(part, s));
    } else {
        assert(mixed_weight(a, b, s, 0) == 0);
    }
}

/// `ts2` frames the normalized stream `n`, at any indexes: `Begin`, the
/// token of each element of `n` in order, `End`.
pub open spec fn reframes(ts2: Seq<IndexedToken>, n: Seq<NormToken>) -> bool {
    &&& ts2.len() == n.len() + 2
    &&& ts2[0].token == Token::Begin
    &&& ts2[n.len() + 1int].token == Token::End
    &&& forall|k: int| 0 <= k < n.len() ==> #[trigger] ts2[k + 1].token == as_token(n[k])
}

/// Normalizing is idempotent: where the tokens of a text normalize, the
/// framed tokens of the normalized stream normalize to that same stream,
/// with no implicit token inserted again and no error.
pub proof fn lemma_normalize_idempotent(s: Seq<char>, ts2: Seq<IndexedToken>)
    requires
        spec_tokenize(s) is Ok,
        spec_normalize(spec_tokenize(s)->Ok_0) is Ok,
        reframes(ts2, spec_normalize(spec_tokenize(s)->Ok_0)->Ok_0),
    ensures
        spec_normalize(ts2) == spec_normalize(spec_tokenize(s)->Ok_0),
{
    lemma_framed_idempotent(spec_tokenize(s)->Ok_0, ts2);
}

proof fn lemma_framed_idempotent(ts: Seq<IndexedToken>, ts2: Seq<IndexedToken>)
    requires
        ts.len() >= 2,
        ts[0].token == Token::Begin,
        ts[ts.len() - 1].token == Token::End,
        spec_normalize(ts) is Ok,
        reframes(ts2, spec_normalize(ts)->Ok_0),
    ensures
        spec_normalize(ts2) == spec_normalize(ts),
{
    let len = ts.len() as int;
    let n = spec_normalize(ts)->Ok_0;
    let q = norm_scan(ts, 1, len)->Ok_0;
    let len2 = ts2.len() as int;
    lemma_scan_split(ts, 1, len - 1);
    let q1 = norm_scan(ts, 1, len - 1)->Ok_0;
    assert(norm_step(ts[len - 2], ts[len - 1])->Ok_0 == seq![NormToken::Close]);
    assert(q == q1 + seq![NormToken::Close]);
    assert(n =~= q1);

    lemma_paren_run(ts, 1, len - 1, seq![]);
    lemma_scan_run(ts, 1, len - 1, 0);
    assert(kinds(ts2).subrange(1, len2 - 1) =~= tok(n));
    lemma_paren_run(ts2, 1, len2 - 1, seq![]);

    assert(framed(seq![]) =~= seq![Token::Begin]);
    lemma_scan_chain(ts, 1, len, seq![]);
    assert(seq![] + q =~= q);
    assert(framed(q).len() == len2);
    assert forall|k: int| 0 <= k < len2 implies #[trigger] framed(q)[k] == ts2[k].token by {
        if 1 <= k < len2 - 1 {
            assert(ts2[(k - 1) + 1].token == as_token(n[k - 1]));
        }
    }
    assert forall|k: int| 1 <= k < len2 implies passes(ts2[k - 1].token, #[trigger] ts2[k].token) by {
        assert(passes(framed(q)[k - 1], framed(q)[k]));
    }
    lemma_scan_passes(ts2, 1, len2);
    let r = Seq::new((len2 - 1) as nat, |k: int| as_norm(ts2[1 + k].token));
    assert forall|k: int| 0 <= k < n.len() implies r[k] == n[k] by {
        assert(ts2[k + 1].token == as_token(n[k]));
    }
    assert(r.drop_last() =~= n);
}

} // verus!
