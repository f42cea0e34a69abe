//! Exact analysis of an expression tree into its outcome distribution.
use vstd::prelude::*;
use crate::dist::{
    checked, dist_add, dist_mix, dist_mul, dist_pool, dist_scale, dist_sub, fits, opt_view, point, pool_upto, power, uniform,
    Dist,
    FreqGraph,
};
use crate::expr::{Expr, Op, Val};

verus! {

/// Whether a node multiplies by a bare die on its right: a dice pool.
pub open spec fn is_pool(op: Op, right: Expr) -> bool {
    op == Op::Mul && right.spec_is_die()
}

/// The exact distribution of an expression, in unbounded integers.
pub open spec fn graph_of(e: Expr) -> Dist
    decreases e,
{
    match e {
        Expr::Value(Val::Num(n)) => point(n as int),
        Expr::Value(Val::Die(d)) => uniform(d.faces() as nat),
        Expr::Expr { op, left, right } => {
            let a = graph_of(*left);
            let b = graph_of(*right);
            if is_pool(op, *right) {
                dist_pool(a, b)
            } else {
                match op {
                    Op::Add => dist_add(a, b),
                    Op::Sub => dist_sub(a, b),
                    Op::Mul => dist_mul(a, b),
                }
            }
        },
    }
}

/// `power(b, v)`, or `None` where it or a smaller power does not fit.
pub open spec fn checked_power(b: Dist, v: int) -> Option<Dist>
    decreases v,
{
    if v <= 0 {
        Some(point(0))
    } else {
        match checked_power(b, v - 1) {
            Some(p) => checked(dist_add(p, b)),
            None => None,
        }
    }
}

/// `pool_part(a, b, i)`, or `None` where it or a power on the way does not
/// fit.
pub open spec fn checked_part(a: Dist, b: Dist, i: int) -> Option<Dist> {
    match checked_power(b, a.offset + i) {
        None => None,
        Some(p) => checked(dist_scale(p, a.weights[i])),
    }
}

/// `pool_upto(a, b, n)`, or `None` where a distribution on the way does
/// not fit.
pub open spec fn checked_pool_upto(a: Dist, b: Dist, n: int) -> Option<Dist>
    decreases n,
{
    if n <= 1 {
        checked_part(a, b, 0)
    } else {
        match checked_pool_upto(a, b, n - 1) {
            None => None,
            Some(acc) => match checked_part(a, b, n - 1) {
                None => None,
                Some(s) => checked(dist_mix(acc, s)),
            },
        }
    }
}

/// The distribution of an expression where every distribution computed on
/// the way fits in 64 bits, else `None`.
pub open spec fn checked_graph(e: Expr) -> Option<Dist>
    decreases e,
{
    match e {
        Expr::Value(Val::Num(n)) => Some(point(n as int)),
        Expr::Value(Val::Die(d)) => Some(uniform(d.faces() as nat)),
        Expr::Expr { op, left, right } => match (checked_graph(*left), checked_graph(*right)) {
            (Some(a), Some(b)) => if is_pool(op, *right) {
                checked_pool_upto(a, b, a.weights.len() as int)
            } else {
                match op {
                    Op::Add => checked(dist_add(a, b)),
                    Op::Sub => checked(dist_sub(a, b)),
                    Op::Mul => checked(dist_mul(a, b)),
                }
            },
            _ => None,
        },
    }
}

proof fn lemma_checked_power_none(b: Dist, k: int, v: int)
    requires
        k <= v,
        checked_power(b, k) is None,
    ensures
        checked_power(b, v) is None,
    decreases v - k,
{
    if k < v {
        lemma_checked_power_none(b, k, v - 1);
    }
}

proof fn lemma_checked_pool_none(a: Dist, b: Dist, k: int, n: int)
    requires
        k <= n,
        checked_pool_upto(a, b, k) is None,
    ensures
        checked_pool_upto(a, b, n) is None,
    decreases n - k,
{
    if k < n {
        lemma_checked_pool_none(a, b, k, n - 1);
    }
}

pub proof fn lemma_checked_power(b: Dist, v: int)
    ensures
        checked_power(b, v) matches Some(p) ==> p == power(b, v),
    decreases v,
{
    if v > 0 {
        lemma_checked_power(b, v - 1);
    }
}

pub proof fn lemma_checked_pool(a: Dist, b: Dist, n: int)
    ensures
        checked_pool_upto(a, b, n) matches Some(d) ==> d == pool_upto(a, b, n),
    decreases n,
{
    if n > 1 {
        lemma_checked_pool(a, b, n - 1);
        lemma_checked_power(b, a.offset + n - 1);
    } else {
        lemma_checked_power(b, a.offset);
    }
}

/// What the checked analysis gives is the exact distribution.
pub proof fn lemma_checked_graph(e: Expr)
    ensures
        checked_graph(e) matches Some(d) ==> d == graph_of(e),
    decreases e,
{
    if let Expr::Expr { op, left, right } = e {
        lemma_checked_graph(*left);
        lemma_checked_graph(*right);
        if let (Some(a), Some(b)) = (checked_graph(*left), checked_graph(*right)) {
            lemma_checked_pool(a, b, a.weights.len() as int);
        }
    }
}

/// The dice pool of `a` over `b`, or `None` where a distribution on the way
/// does not fit.
fn pool(a: &FreqGraph, b: &FreqGraph) -> (r: Option<FreqGraph>)
    ensures
        opt_view(r) == checked_pool_upto(a@, b@, a@.weights.len() as int),
{
    let ghost da = a@;
    let ghost db = b@;
    let la = a.values().len();
    let mut acc = FreqGraph::val(0);
    let mut p = FreqGraph::val(0);
    let mut pv: i64 = 0;
    let mut i: usize = 0;
    while i < la
        invariant
            da == a@,
            db == b@,
            fits(da),
            la == da.weights.len(),
            i <= la,
            i > 0 ==> checked_pool_upto(da, db, i as int) == Some(acc@),
            0 <= pv,
            pv == 0 || pv <= da.offset + i,
            checked_power(db, pv as int) == Some(p@),
        decreases la - i,
    {
        let v = (a.offset() as i128 + i as i128) as i64;
        while pv < v
            invariant
                da == a@,
                db == b@,
                0 <= pv <= v || (pv == 0 && v <= 0),
                v == da.offset + i,
                checked_power(db, pv as int) == Some(p@),
                i > 0 ==> checked_pool_upto(da, db, i as int) == Some(acc@),
                i < la,
                la == da.weights.len(),
            decreases v - pv,
        {
            match p.add(b) {
                Some(q) => p = q,
                None => {
                    proof {
                        lemma_checked_power_none(db, pv + 1, v as int);
                        lemma_checked_pool_none(da, db, i + 1, la as int);
                    }
                    return None;
                },
            }
            pv = pv + 1;
        }
        assert(checked_power(db, v as int) == Some(p@));
        let w = a.values()[i];
        assert(da.weights[i as int] == w as int);
        let s = match p.times(w) {
            Some(s) => s,
            None => {
                proof {
                    lemma_checked_pool_none(da, db, i + 1, la as int);
                }
                return None;
            },
        };
        if i == 0 {
            acc = s;
        } else {
            acc = match acc.mix(&s) {
                Some(n) => n,
                None => {
                    proof {
                        lemma_checked_pool_none(da, db, i + 1, la as int);
                    }
                    return None;
                },
            };
        }
        i = i + 1;
    }
    Some(acc)
}

impl Expr {
    /// The exact outcome distribution, or `None` where a distribution on
    /// the way leaves 64-bit range.
    pub fn analyze(&self) -> (r: Option<FreqGraph>)
        ensures
            opt_view(r) == checked_graph(*self),
            r matches Some(g) ==> g@ == graph_of(*self),
        decreases self,
    {
        proof {
            lemma_checked_graph(*self);
        }
        match self {
            Expr::Value(Val::Num(n)) => Some(FreqGraph::val(*n)),
            Expr::Value(Val::Die(d)) => Some(FreqGraph::die(d.edges())),
            Expr::Expr { op, left, right } => {
                let a = match left.analyze() {
                    Some(a) => a,
                    None => return None,
                };
                let b = match right.analyze() {
                    Some(b) => b,
                    None => return None,
                };
                if *op == Op::Mul && right.is_die() {
                    pool(&a, &b)
                } else {
                    match op {
                        Op::Add => a.add(&b),
                        Op::Sub => a.sub(&b),
                        Op::Mul => a.mul(&b),
                    }
                }
            },
        }
    }
}

} // verus!
