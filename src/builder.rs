//! The expression builder: a normalized stream to a tree, with `Mul`
//! binding tighter than `Add` and `Sub`, all left-associative.
use vstd::prelude::*;
use crate::expr::{Expr, Op, Val};
use crate::normalize::{NormToken, Normalized};

verus! {

pub open spec fn binary(op: Op, left: Expr, right: Expr) -> Expr {
    Expr::Expr { op, left: Box::new(left), right: Box::new(right) }
}

pub open spec fn zero_leaf() -> Expr {
    Expr::Value(Val::Num(0))
}

/// An operand at `i`: a value, or a group parsed as a sum; with the
/// position after it. A stream that is not normalized reads as `0` there.
///
/// Positions never move backwards; the checks on them below only make
/// that evident to the termination argument.
pub open spec fn atom(ts: Seq<NormToken>, i: int) -> (Expr, int)
    decreases ts.len() - i, 0nat,
{
    if 0 <= i < ts.len() {
        match ts[i] {
            NormToken::Val(v) => (Expr::Value(v), i + 1),
            NormToken::Open => {
                let (e, j) = sum(ts, i + 1);
                if 0 <= j < ts.len() && ts[j] == NormToken::Close {
                    (e, j + 1)
                } else {
                    (e, j)
                }
            },
            _ => (zero_leaf(), i),
        }
    } else {
        (zero_leaf(), i)
    }
}

/// Folds `* operand` pairs from `i` onto `acc`.
pub open spec fn term_rest(ts: Seq<NormToken>, acc: Expr, i: int) -> (Expr, int)
    decreases ts.len() - i, 1nat,
{
    if 0 <= i < ts.len() && ts[i] == NormToken::Op(Op::Mul) {
        let (a, j) = atom(ts, i + 1);
        if j <= i || j > ts.len() {
            (acc, i)
        } else {
            term_rest(ts, binary(Op::Mul, acc, a), j)
        }
    } else {
        (acc, i)
    }
}

/// A product of operands starting at `i`.
pub open spec fn term(ts: Seq<NormToken>, i: int) -> (Expr, int)
    decreases ts.len() - i, 2nat,
{
    let (a, j) = atom(ts, i);
    if j < i || j > ts.len() {
        (a, i)
    } else {
        term_rest(ts, a, j)
    }
}

/// Folds `+ product` and `- product` pairs from `i` onto `acc`.
pub open spec fn sum_rest(ts: Seq<NormToken>, acc: Expr, i: int) -> (Expr, int)
    decreases ts.len() - i, 3nat,
{
    if 0 <= i < ts.len() && (ts[i] == NormToken::Op(Op::Add) || ts[i] == NormToken::Op(Op::Sub)) {
        let op = if ts[i] == NormToken::Op(Op::Add) { Op::Add } else { Op::Sub };
        let (t, j) = term(ts, i + 1);
        if j <= i || j > ts.len() {
            (acc, i)
        } else {
            sum_rest(ts, binary(op, acc, t), j)
        }
    } else {
        (acc, i)
    }
}

/// A sum of products starting at `i`.
pub open spec fn sum(ts: Seq<NormToken>, i: int) -> (Expr, int)
    decreases ts.len() - i, 4nat,
{
    let (t, j) = term(ts, i);
    if j < i || j > ts.len() {
        (t, i)
    } else {
        sum_rest(ts, t, j)
    }
}

/// The tree of a normalized stream.
pub open spec fn spec_to_expr(ts: Seq<NormToken>) -> Expr {
    sum(ts, 0).0
}

impl Normalized {
    fn parse_atom(&self, i: usize) -> (r: (Expr, usize))
        requires
            i <= self.0@.len(),
        ensures
            (r.0, r.1 as int) == atom(self.0@, i as int),
            i <= r.1 <= self.0@.len(),
        decreases self.0@.len() - i, 0nat,
    {
        if i < self.0.len() {
            match self.0[i] {
                NormToken::Val(v) => (Expr::Value(v), i + 1),
                NormToken::Open => {
                    let (e, j) = self.parse_sum(i + 1);
                    if j < self.0.len() && self.0[j] == NormToken::Close {
                        (e, j + 1)
                    } else {
                        (e, j)
                    }
                },
                _ => (Expr::Value(Val::Num(0)), i),
            }
        } else {
            (Expr::Value(Val::Num(0)), i)
        }
    }

    fn parse_term_rest(&self, acc: Expr, i: usize) -> (r: (Expr, usize))
        requires
            i <= self.0@.len(),
        ensures
            (r.0, r.1 as int) == term_rest(self.0@, acc, i as int),
            i <= r.1 <= self.0@.len(),
        decreases self.0@.len() - i, 1nat,
    {
        if i < self.0.len() && self.0[i] == NormToken::Op(Op::Mul) {
            let (a, j) = self.parse_atom(i + 1);
            let e = Expr::Expr { op: Op::Mul, left: Box::new(acc), right: Box::new(a) };
            self.parse_term_rest(e, j)
        } else {
            (acc, i)
        }
    }

    fn parse_term(&self, i: usize) -> (r: (Expr, usize))
        requires
            i <= self.0@.len(),
        ensures
            (r.0, r.1 as int) == term(self.0@, i as int),
            i <= r.1 <= self.0@.len(),
        decreases self.0@.len() - i, 2nat,
    {
        let (a, j) = self.parse_atom(i);
        self.parse_term_rest(a, j)
    }

    fn parse_sum_rest(&self, acc: Expr, i: usize) -> (r: (Expr, usize))
        requires
            i <= self.0@.len(),
        ensures
            (r.0, r.1 as int) == sum_rest(self.0@, acc, i as int),
            i <= r.1 <= self.0@.len(),
        decreases self.0@.len() - i, 3nat,
    {
        if i < self.0.len() && (self.0[i] == NormToken::Op(Op::Add) || self.0[i] == NormToken::Op(Op::Sub)) {
            let op = if self.0[i] == NormToken::Op(Op::Add) {
                Op::Add
            } else {
                Op::Sub
            };
            let (t, j) = self.parse_term(i + 1);
            let e = Expr::Expr { op, left: Box::new(acc), right: Box::new(t) };
            self.parse_sum_rest(e, j)
        } else {
            (acc, i)
        }
    }

    fn parse_sum(&self, i: usize) -> (r: (Expr, usize))
        requires
            i <= self.0@.len(),
        ensures
            (r.0, r.1 as int) == sum(self.0@, i as int),
            i <= r.1 <= self.0@.len(),
        decreases self.0@.len() - i, 4nat,
    {
        let (t, j) = self.parse_term(i);
        self.parse_sum_rest(t, j)
    }

    /// Builds the tree: products first, then sums, each folded left.
    pub fn to_expr(self) -> (r: Expr)
        ensures
            r == spec_to_expr(self.0@),
    {
        self.parse_sum(0).0
    }
}

} // verus!
