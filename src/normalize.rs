//! The normalizer: checks grouping balance, inserts implicit
//! multiplication and desugars a leading sign into a subtraction from zero.
use vstd::prelude::*;
use crate::expr::{Op, Val};
use crate::parser::{IndexedToken, ParseError, Token, Tokens};

verus! {

/// A token of the normalized stream; groups stay inline between `Open`
/// and `Close`.
#[derive(Debug, Copy, Clone, PartialEq, Eq, Structural)]
pub enum NormToken {
    Op(Op),
    Val(Val),
    Open,
    Close,
}

/// A normalized token stream: every operator stands between two operands.
#[derive(Debug, PartialEq, Eq)]
pub struct Normalized(pub Vec<NormToken>);

/// Checks that the groups of `ts[i..end]` balance, given the indexes of the
/// groups still open before `i`.
pub open spec fn paren_check(ts: Seq<IndexedToken>, i: int, end: int, open: Seq<usize>) -> Result<(), ParseError>
    decreases end - i,
{
    if i >= end {
        if open.len() == 0 {
            Ok(())
        } else {
            Err(ParseError::UnmatchedParen { index: open.last() })
        }
    } else {
        match ts[i].token {
            Token::Begin => paren_check(ts, i + 1, end, open.push(ts[i].index)),
            Token::End => if open.len() == 0 {
                Err(ParseError::UnmatchedParen { index: ts[i].index })
            } else {
                paren_check(ts, i + 1, end, open.drop_last())
            },
            _ => paren_check(ts, i + 1, end, open),
        }
    }
}

/// What the pair `(left, right)` appends to the normalized stream.
pub open spec fn norm_step(left: IndexedToken, right: IndexedToken) -> Result<Seq<NormToken>, ParseError> {
    match left.token {
        Token::Begin => match right.token {
            Token::Begin => Ok(seq![NormToken::Open]),
            Token::End => Err(ParseError::EmptyExpression { index: left.index }),
            Token::Val(v) => Ok(seq![NormToken::Val(v)]),
            Token::Op(Op::Mul) => Err(ParseError::IllegalExpression { index: right.index }),
            Token::Op(o) => Ok(seq![NormToken::Val(Val::Num(0)), NormToken::Op(o)]),
        },
        Token::Op(_) => match right.token {
            Token::Begin => Ok(seq![NormToken::Open]),
            Token::End => Err(ParseError::IllegalExpression { index: right.index }),
            Token::Val(v) => Ok(seq![NormToken::Val(v)]),
            Token::Op(_) => Err(ParseError::IllegalExpression { index: right.index }),
        },
        _ => match right.token {
            Token::Begin => Ok(seq![NormToken::Op(Op::Mul), NormToken::Open]),
            Token::End => Ok(seq![NormToken::Close]),
            Token::Val(v) => Ok(seq![NormToken::Op(Op::Mul), NormToken::Val(v)]),
            Token::Op(o) => Ok(seq![NormToken::Op(o)]),
        },
    }
}

pub open spec fn prepend_norm(
    p: Seq<NormToken>,
    r: Result<Seq<NormToken>, ParseError>,
) -> Result<Seq<NormToken>, ParseError> {
    match r {
        Ok(t) => Ok(p + t),
        Err(e) => Err(e),
    }
}

/// The steps of the pairs `(ts[k - 1], ts[k])` for `i <= k < end`, in order;
/// the first failing pair decides the error.
pub open spec fn norm_scan(ts: Seq<IndexedToken>, i: int, end: int) -> Result<Seq<NormToken>, ParseError>
    decreases end - i,
{
    if i >= end {
        Ok(seq![])
    } else {
        match norm_step(ts[i - 1], ts[i]) {
            Ok(p) => prepend_norm(p, norm_scan(ts, i + 1, end)),
            Err(e) => Err(e),
        }
    }
}

/// The normalized stream of framed tokens: the groups between the frame
/// must balance; the frame's own closing token leaves no `Close`. Fewer
/// than the two framing tokens hold no expression.
pub open spec fn spec_normalize(ts: Seq<IndexedToken>) -> Result<Seq<NormToken>, ParseError> {
    if ts.len() < 2 {
        Err(ParseError::EmptyExpression { index: 0 })
    } else {
        spec_normalize_framed(ts)
    }
}

pub open spec fn spec_normalize_framed(ts: Seq<IndexedToken>) -> Result<Seq<NormToken>, ParseError> {
    match paren_check(ts, 1, ts.len() - 1, seq![]) {
        Err(e) => Err(e),
        Ok(_) => match norm_scan(ts, 1, ts.len() as int) {
            Ok(q) => Ok(q.drop_last()),
            Err(e) => Err(e),
        },
    }
}

proof fn lemma_prepend_norm_assoc(a: Seq<NormToken>, b: Seq<NormToken>, r: Result<Seq<NormToken>, ParseError>)
    ensures
        prepend_norm(a, prepend_norm(b, r)) == prepend_norm(a + b, r),
{
    if let Ok(t) = r {
        assert(a + (b + t) =~= (a + b) + t);
    }
}

proof fn lemma_scan_err(ts: Seq<IndexedToken>, i: int, n: int, out: Seq<NormToken>)
    requires
        1 <= i < n,
        norm_step(ts[i - 1], ts[i]) is Err,
    ensures
        prepend_norm(out, norm_scan(ts, i, n)) == norm_scan(ts, i, n),
        norm_scan(ts, i, n) == Err::<Seq<NormToken>, ParseError>(norm_step(ts[i - 1], ts[i])->Err_0),
{
}

/// Appends what the pair `(left, right)` stands for.
fn normalize_pair(left: IndexedToken, right: IndexedToken, out: &mut Vec<NormToken>) -> (r: Result<(), ParseError>)
    ensures
        match norm_step(left, right) {
            Ok(p) => r is Ok && final(out)@ == old(out)@ + p,
            Err(e) => r == Err::<(), ParseError>(e),
        },
{
    let ghost start = out@;
    match left.token {
        Token::Begin => match right.token {
            Token::Begin => out.push(NormToken::Open),
            Token::End => return Err(ParseError::EmptyExpression { index: left.index }),
            Token::Val(v) => out.push(NormToken::Val(v)),
            Token::Op(Op::Mul) => return Err(ParseError::IllegalExpression { index: right.index }),
            Token::Op(o) => {
                out.push(NormToken::Val(Val::Num(0)));
                out.push(NormToken::Op(o));
            },
        },
        Token::Op(_) => match right.token {
            Token::Begin => out.push(NormToken::Open),
            Token::End => return Err(ParseError::IllegalExpression { index: right.index }),
            Token::Val(v) => out.push(NormToken::Val(v)),
            Token::Op(_) => return Err(ParseError::IllegalExpression { index: right.index }),
        },
        _ => match right.token {
            Token::Begin => {
                out.push(NormToken::Op(Op::Mul));
                out.push(NormToken::Open);
            },
            Token::End => out.push(NormToken::Close),
            Token::Val(v) => {
                out.push(NormToken::Op(Op::Mul));
                out.push(NormToken::Val(v));
            },
            Token::Op(o) => out.push(NormToken::Op(o)),
        },
    }
    proof {
        if let Ok(p) = norm_step(left, right) {
            assert(out@ =~= start + p);
        }
    }
    Ok(())
}

impl Tokens {
    /// Checks that the groups between the frame balance.
    fn check_parens(&self) -> (r: Result<(), ParseError>)
        requires
            self.0@.len() >= 2,
        ensures
            r == paren_check(self.0@, 1, self.0@.len() - 1, seq![]),
    {
        let ts = &self.0;
        let end = ts.len() - 1;
        let mut open: Vec<usize> = Vec::new();
        let mut i: usize = 1;
        while i < end
            invariant
                ts@ == self.0@,
                end == ts@.len() - 1,
                1 <= i <= end,
                paren_check(ts@, 1, end as int, seq![]) == paren_check(ts@, i as int, end as int, open@),
            decreases end - i,
        {
            let it = ts[i];
            match it.token {
                Token::Begin => open.push(it.index),
                Token::End => {
                    if open.len() == 0 {
                        assert(paren_check(ts@, i as int, end as int, open@) == Err::<(), ParseError>(
                            ParseError::UnmatchedParen { index: it.index },
                        ));
                        return Err(ParseError::UnmatchedParen { index: it.index });
                    }
                    open.pop();
                },
                _ => {},
            }
            i = i + 1;
        }
        if open.len() > 0 {
            return Err(ParseError::UnmatchedParen { index: open[open.len() - 1] });
        }
        Ok(())
    }

    /// Validates grouping and rewrites the tokens into a normalized stream:
    /// an implicit `Mul` between adjacent operands, `0` before a leading
    /// sign, and an error at the first pair that no expression allows.
    pub fn normalize(self) -> (r: Result<Normalized, ParseError>)
        ensures
            match r {
                Ok(n) => spec_normalize(self.0@) == Ok::<Seq<NormToken>, ParseError>(n.0@),
                Err(e) => spec_normalize(self.0@) == Err::<Seq<NormToken>, ParseError>(e),
            },
    {
        if self.0.len() < 2 {
            return Err(ParseError::EmptyExpression { index: 0 });
        }
        if let Err(e) = self.check_parens() {
            return Err(e);
        }
        let ts = &self.0;
        let n = ts.len();
        let mut out: Vec<NormToken> = Vec::new();
        let mut i: usize = 1;
        while i < n
            invariant
                ts@ == self.0@,
                n == ts@.len(),
                1 <= i <= n,
                paren_check(ts@, 1, n - 1, seq![]) is Ok,
                norm_scan(ts@, 1, n as int) == prepend_norm(out@, norm_scan(ts@, i as int, n as int)),
            decreases n - i,
        {
            let ghost before = out@;
            if let Err(e) = normalize_pair(ts[i - 1], ts[i], &mut out) {
                proof {
                    lemma_scan_err(ts@, i as int, n as int, out@);
                }
                return Err(e);
            }
            proof {
                let p = norm_step(ts@[i - 1], ts@[i as int]).unwrap();
                lemma_prepend_norm_assoc(before, p, norm_scan(ts@, i + 1, n as int));
            }
            i = i + 1;
        }
        assert(out@ + seq![] =~= out@);
        out.pop();
        Ok(Normalized(out))
    }
}

} // verus!
