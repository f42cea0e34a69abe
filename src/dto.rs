//! The requests and responses that a message envelope carries, and the
//! two commands it dispatches to.
use vstd::prelude::*;
use crate::analysis::checked_graph;
use crate::dist::{opt_view, FreqGraph};
use crate::hand::{spec_parse, Hand};
use crate::parser::ParseError;
use crate::throw::eval;

verus! {

/// The outcome of a `calculate_dice` command.
pub struct CalculateResponse {
    pub result: i64,
}

/// The expression a command carries.
pub struct Dice {
    pub expression: String,
}

/// A command: throw the dice once, or analyze them.
pub enum Request {
    CalculateDice(Dice),
    AnalyzeDice(Dice),
}

/// Parses `expr` and throws it once.
pub fn calculate_dice(expr: String) -> (r: Result<CalculateResponse, ParseError>)
    ensures
        match r {
            Ok(c) => spec_parse(expr@) is Ok && exists|d: Seq<u32>|
                c.result == (#[trigger] eval(spec_parse(expr@)->Ok_0, d)).0,
            Err(e) => spec_parse(expr@) == Err::<crate::expr::Expr, ParseError>(e),
        },
{
    match Hand::parse(expr.as_str()) {
        Ok(h) => {
            let ghost e = h.expr();
            let result = h.throw();
            proof {
                let d = choose|d: Seq<u32>| result == (#[trigger] eval(e, d)).0;
                assert(result == eval(spec_parse(expr@)->Ok_0, d).0);
            }
            Ok(CalculateResponse { result })
        },
        Err(e) => Err(e),
    }
}

/// Parses `expr` and analyzes it; the inner `None` where a distribution on
/// the way leaves 64-bit range.
pub fn analyze_dice(expr: String) -> (r: Result<Option<FreqGraph>, ParseError>)
    ensures
        match r {
            Ok(g) => spec_parse(expr@) is Ok && opt_view(g) == checked_graph(spec_parse(expr@)->Ok_0),
            Err(e) => spec_parse(expr@) == Err::<crate::expr::Expr, ParseError>(e),
        },
{
    match Hand::parse(expr.as_str()) {
        Ok(h) => Ok(h.analyze()),
        Err(e) => Err(e),
    }
}

} // verus!
