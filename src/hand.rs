//! A parsed dice expression, ready to throw or to analyze.
use vstd::prelude::*;
use crate::analysis::{checked_graph, graph_of};
use crate::builder::spec_to_expr;
use crate::dist::{opt_view, FreqGraph};
use crate::expr::Expr;
use crate::normalize::spec_normalize;
use crate::parser::{spec_tokenize, ParseError, Tokens};
use crate::throw::eval;

verus! {

/// The tree of a text, or the first error found in it.
pub open spec fn spec_parse(s: Seq<char>) -> Result<Expr, ParseError> {
    match spec_tokenize(s) {
        Err(e) => Err(e),
        Ok(ts) => match spec_normalize(ts) {
            Err(e) => Err(e),
            Ok(n) => Ok(spec_to_expr(n)),
        },
    }
}

/// A parsed dice expression.
pub struct Hand(Expr);

impl Hand {
    /// The expression tree.
    pub closed spec fn expr(self) -> Expr {
        self.0
    }

    /// Tokenizes, normalizes and builds the tree of `expr`.
    pub fn parse(expr: &str) -> (r: Result<Hand, ParseError>)
        ensures
            match r {
                Ok(h) => spec_parse(expr@) == Ok::<Expr, ParseError>(h.expr()),
                Err(e) => spec_parse(expr@) == Err::<Expr, ParseError>(e),
            },
    {
        let tokens = match Tokens::tokenize(expr) {
            Ok(t) => t,
            Err(e) => return Err(e),
        };
        let normalized = match tokens.normalize() {
            Ok(n) => n,
            Err(e) => return Err(e),
        };
        Ok(Hand(normalized.to_expr()))
    }

    /// One random outcome: the outcome of the tree under the draws that
    /// were made.
    pub fn throw(self) -> (r: i64)
        ensures
            exists|d: Seq<u32>| r == (#[trigger] eval(self.expr(), d)).0,
    {
        let (r, draws) = self.0.throw_draws();
        assert(r == eval(self.expr(), draws@).0);
        r
    }

    /// The exact outcome distribution, or `None` where a distribution on
    /// the way leaves 64-bit range.
    pub fn analyze(self) -> (r: Option<FreqGraph>)
        ensures
            opt_view(r) == checked_graph(self.expr()),
            r matches Some(g) ==> g@ == graph_of(self.expr()),
    {
        self.0.analyze()
    }
}

impl std::str::FromStr for Hand {
    type Err = ParseError;

    fn from_str(expr: &str) -> Result<Hand, ParseError> {
        Hand::parse(expr)
    }
}

impl std::str::FromStr for Tokens {
    type Err = ParseError;

    fn from_str(expr: &str) -> Result<Tokens, ParseError> {
        Tokens::tokenize(expr)
    }
}

} // verus!
