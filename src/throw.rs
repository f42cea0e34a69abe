//! Random evaluation of an expression tree.
use vstd::prelude::*;
use vstd::wrapping::i64_specs;
use crate::analysis::is_pool;
use crate::expr::{Expr, Op, Val};

verus! {

/// Relies on `rand::random`, here for `u32`: a uniformly drawn value, of
/// which nothing is promised.
pub assume_specification<T>[ rand::random::<T> ]() -> (r: T)
    where
        rand::distributions::Standard: rand::distributions::Distribution<T>,
;

/// A die with `faces` faces showing what the draw `draw` gives it.
pub open spec fn roll(draw: u32, faces: u32) -> i64 {
    ((draw % faces) + 1) as i64
}

/// `k` dice with `faces` faces summed, read from the first `k` draws of
/// `d`, wrapping at 64 bits.
pub open spec fn pool_sum(d: Seq<u32>, faces: u32, k: nat) -> i64
    decreases k,
{
    if k == 0 {
        0
    } else {
        i64_specs::wrapping_add(pool_sum(d, faces, (k - 1) as nat), roll(d[k - 1], faces))
    }
}

/// One operator on two outcomes, wrapping at 64 bits.
pub open spec fn apply(op: Op, x: i64, y: i64) -> i64 {
    match op {
        Op::Add => i64_specs::wrapping_add(x, y),
        Op::Sub => i64_specs::wrapping_sub(x, y),
        Op::Mul => i64_specs::wrapping_mul(x, y),
    }
}

/// The faces of a bare die leaf.
pub open spec fn die_faces(e: Expr) -> u32 {
    match e {
        Expr::Value(Val::Die(d)) => d.faces(),
        _ => 1,
    }
}

/// The outcome of `e` when its dice read the draws of `d` in order, left
/// operand first, and how many draws it takes. A dice pool `k * die` rolls
/// the die `k` times (none where `k <= 0`) and sums.
pub open spec fn eval(e: Expr, d: Seq<u32>) -> (i64, nat)
    decreases e,
{
    match e {
        Expr::Value(Val::Num(n)) => (n as i64, 0),
        Expr::Value(Val::Die(die)) => (roll(d[0], die.faces()), 1),
        Expr::Expr { op, left, right } => {
            let (x, u) = eval(*left, d);
            if is_pool(op, *right) {
                let k: nat = if x > 0 { x as nat } else { 0 };
                (pool_sum(d.skip(u as int), die_faces(*right), k), u + k)
            } else {
                let (y, w) = eval(*right, d.skip(u as int));
                (apply(op, x, y), u + w)
            }
        },
    }
}

proof fn lemma_pool_sum_prefix(d: Seq<u32>, rest: Seq<u32>, faces: u32, k: nat)
    requires
        k <= d.len(),
    ensures
        pool_sum(d + rest, faces, k) == pool_sum(d, faces, k),
    decreases k,
{
    if k > 0 {
        lemma_pool_sum_prefix(d, rest, faces, (k - 1) as nat);
    }
}

/// Draws after those that `e` takes do not change its outcome.
pub proof fn lemma_eval_prefix(e: Expr, d: Seq<u32>, rest: Seq<u32>)
    requires
        eval(e, d).1 <= d.len(),
    ensures
        eval(e, d + rest) == eval(e, d),
    decreases e,
{
    if let Expr::Expr { op, left, right } = e {
        lemma_eval_prefix(*left, d, rest);
        let u = eval(*left, d).1;
        assert((d + rest).skip(u as int) =~= d.skip(u as int) + rest);
        if is_pool(op, *right) {
            let x = eval(*left, d).0;
            let k: nat = if x > 0 { x as nat } else { 0 };
            lemma_pool_sum_prefix(d.skip(u as int), rest, die_faces(*right), k);
        } else {
            lemma_eval_prefix(*right, d.skip(u as int), rest);
        }
    }
}

/// One roll of a die with `faces` faces.
fn roll_die(faces: u32) -> (r: (i64, Ghost<u32>))
    requires
        faces > 0,
    ensures
        r.0 == roll(r.1@, faces),
{
    let draw: u32 = rand::random::<u32>();
    ((draw % faces + 1) as i64, Ghost(draw))
}

impl Expr {
    /// A random outcome, with the draws it read.
    pub fn throw_draws(&self) -> (r: (i64, Ghost<Seq<u32>>))
        ensures
            eval(*self, r.1@) == (r.0, r.1@.len()),
        decreases self,
    {
        match self {
            Expr::Value(Val::Num(n)) => {
                let ghost none: Seq<u32> = seq![];
                (*n as i64, Ghost(none))
            },
            Expr::Value(Val::Die(d)) => {
                let (x, g) = roll_die(d.edges());
                let ghost one: Seq<u32> = seq![g@];
                (x, Ghost(one))
            },
            Expr::Expr { op, left, right } => {
                let (x, dl) = left.throw_draws();
                if *op == Op::Mul && right.is_die() {
                    let faces = match &**right {
                        Expr::Value(Val::Die(d)) => d.edges(),
                        _ => 1,
                    };
                    let mut acc: i64 = 0;
                    let mut t: i64 = 0;
                    let ghost mut dp: Seq<u32> = seq![];
                    while t < x
                        invariant
                            faces == die_faces(**right),
                            faces > 0,
                            0 <= t,
                            t <= x || t == 0,
                            dp.len() == t,
                            acc == pool_sum(dp, faces, t as nat),
                        decreases x - t,
                    {
                        let (y, g) = roll_die(faces);
                        proof {
                            lemma_pool_sum_prefix(dp, seq![g@], faces, t as nat);
                            assert(dp.push(g@) =~= dp + seq![g@]);
                            dp = dp.push(g@);
                        }
                        acc = acc.wrapping_add(y);
                        t = t + 1;
                    }
                    proof {
                        lemma_eval_prefix(**left, dl@, dp);
                        assert((dl@ + dp).skip(dl@.len() as int) =~= dp);
                    }
                    let ghost all = dl@ + dp;
                    (acc, Ghost(all))
                } else {
                    let (y, dr) = right.throw_draws();
                    proof {
                        lemma_eval_prefix(**left, dl@, dr@);
                        assert((dl@ + dr@).skip(dl@.len() as int) =~= dr@);
                    }
                    let v = match op {
                        Op::Add => x.wrapping_add(y),
                        Op::Sub => x.wrapping_sub(y),
                        Op::Mul => x.wrapping_mul(y),
                    };
                    let ghost all = dl@ + dr@;
                    (v, Ghost(all))
                }
            },
        }
    }
}

} // verus!
