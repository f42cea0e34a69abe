//! The tokenizer: raw text to indexed tokens, framed by a leading `Begin`
//! and a trailing `End`.
use vstd::prelude::*;
use vstd::wrapping::u32_specs;
use crate::expr::{Die, Op, Val};

verus! {

/// Why a text is not a dice expression; each variant carries the
/// character index of the offending token.
#[derive(Debug, Copy, Clone, PartialEq, Eq, Structural)]
pub enum ParseError {
    UnexpectedToken { index: usize, token: char },
    BadDie { index: usize },
    IllegalExpression { index: usize },
    UnmatchedParen { index: usize },
    EmptyExpression { index: usize },
}

/// A token: an opening group (`Begin`), a closing group (`End`), an
/// operator or a leaf value.
#[derive(Debug, Copy, Clone, PartialEq, Eq, Structural)]
pub enum Token {
    Begin,
    End,
    Op(Op),
    Val(Val),
}

/// A token with the character index at which it begins.
#[derive(Debug, Copy, Clone, PartialEq, Eq, Structural)]
pub struct IndexedToken {
    pub index: usize,
    pub token: Token,
}

impl IndexedToken {
    pub fn begin(index: usize) -> (r: Self)
        ensures
            r == (IndexedToken { index, token: Token::Begin }),
    {
        IndexedToken { index, token: Token::Begin }
    }

    pub fn end(index: usize) -> (r: Self)
        ensures
            r == (IndexedToken { index, token: Token::End }),
    {
        IndexedToken { index, token: Token::End }
    }

    pub fn operation(index: usize, op: Op) -> (r: Self)
        ensures
            r == (IndexedToken { index, token: Token::Op(op) }),
    {
        IndexedToken { index, token: Token::Op(op) }
    }

    pub fn value(index: usize, val: Val) -> (r: Self)
        ensures
            r == (IndexedToken { index, token: Token::Val(val) }),
    {
        IndexedToken { index, token: Token::Val(val) }
    }
}

/// The tokens of one expression text.
#[derive(Debug, PartialEq, Eq)]
pub struct Tokens(pub Vec<IndexedToken>);

pub open spec fn is_digit(c: char) -> bool {
    '0' <= c && c <= '9'
}

pub open spec fn is_space(c: char) -> bool {
    c == ' ' || c == '\t' || c == '\n'
}

pub open spec fn digit_value(c: char) -> u32 {
    (c as u32 - '0' as u32) as u32
}

/// The index just past the run of digits that starts at `i`.
pub open spec fn digits_end(s: Seq<char>, i: int) -> int
    decreases s.len() - i,
{
    if 0 <= i < s.len() && is_digit(s[i]) {
        digits_end(s, i + 1)
    } else {
        i
    }
}

/// The digits `s[i..j]` read in base ten, wrapping at 2^32.
pub open spec fn digits_value(s: Seq<char>, i: int, j: int) -> u32
    decreases j - i,
{
    if j <= i {
        0
    } else {
        u32_specs::wrapping_add(
            u32_specs::wrapping_mul(digits_value(s, i, j - 1), 10),
            digit_value(s[j - 1]),
        )
    }
}

/// The token that a single character stands for, if any.
pub open spec fn single_token(c: char) -> Option<Token> {
    if c == '+' {
        Some(Token::Op(Op::Add))
    } else if c == '-' {
        Some(Token::Op(Op::Sub))
    } else if c == '*' {
        Some(Token::Op(Op::Mul))
    } else if c == '(' || c == '[' || c == '{' {
        Some(Token::Begin)
    } else if c == ')' || c == ']' || c == '}' {
        Some(Token::End)
    } else {
        None
    }
}

pub open spec fn prepend(
    p: Seq<IndexedToken>,
    r: Result<Seq<IndexedToken>, ParseError>,
) -> Result<Seq<IndexedToken>, ParseError> {
    match r {
        Ok(t) => Ok(p + t),
        Err(e) => Err(e),
    }
}

pub proof fn lemma_digits_end(s: Seq<char>, i: int)
    ensures
        i <= digits_end(s, i),
        0 <= i ==> digits_end(s, i) <= s.len() || digits_end(s, i) == i,
        forall|k: int| i <= k < digits_end(s, i) ==> 0 <= k < s.len() && is_digit(#[trigger] s[k]),
    decreases s.len() - i,
{
    if 0 <= i < s.len() && is_digit(s[i]) {
        lemma_digits_end(s, i + 1);
    }
}

/// The tokens of `s[i..]`, without the framing tokens.
pub open spec fn lex(s: Seq<char>, i: int) -> Result<Seq<IndexedToken>, ParseError>
    decreases s.len() - i,
{
    if i < 0 || i >= s.len() {
        Ok(seq![])
    } else {
        let c = s[i];
        if is_digit(c) {
            let j = digits_end(s, i);
            proof {
                lemma_digits_end(s, i + 1);
            }
            let t = IndexedToken { index: i as usize, token: Token::Val(Val::Num(digits_value(s, i, j))) };
            prepend(seq![t], lex(s, j))
        } else if c == 'd' {
            let j = digits_end(s, i + 1);
            proof {
                lemma_digits_end(s, i + 1);
            }
            let n = digits_value(s, i + 1, j);
            if n == 0 {
                Err(ParseError::BadDie { index: i as usize })
            } else {
                let t = IndexedToken { index: i as usize, token: Token::Val(Val::Die(Die::spec_new(n))) };
                prepend(seq![t], lex(s, j))
            }
        } else if is_space(c) {
            lex(s, i + 1)
        } else {
            match single_token(c) {
                Some(tok) => prepend(seq![IndexedToken { index: i as usize, token: tok }], lex(s, i + 1)),
                None => Err(ParseError::UnexpectedToken { index: i as usize, token: c }),
            }
        }
    }
}

/// The index of the last token, or 0 where there is none.
pub open spec fn last_index(ts: Seq<IndexedToken>) -> usize {
    if ts.len() == 0 {
        0
    } else {
        ts.last().index
    }
}

/// The framed tokens of a whole text: `Begin` at 0, the tokens, and `End`
/// at the index of the last token.
pub open spec fn spec_tokenize(s: Seq<char>) -> Result<Seq<IndexedToken>, ParseError> {
    match lex(s, 0) {
        Ok(ts) => Ok(
            seq![IndexedToken { index: 0, token: Token::Begin }] + ts + seq![
                IndexedToken { index: last_index(ts), token: Token::End },
            ],
        ),
        Err(e) => Err(e),
    }
}

proof fn lemma_prepend_assoc(
    a: Seq<IndexedToken>,
    b: Seq<IndexedToken>,
    r: Result<Seq<IndexedToken>, ParseError>,
)
    ensures
        prepend(a, prepend(b, r)) == prepend(a + b, r),
{
    if let Ok(t) = r {
        assert(a + (b + t) =~= (a + b) + t);
    }
}

pub proof fn lemma_digits_end_at(s: Seq<char>, i: int, j: int)
    requires
        0 <= i <= j <= s.len(),
        forall|k: int| i <= k < j ==> is_digit(#[trigger] s[k]),
        j == s.len() || !is_digit(s[j]),
    ensures
        digits_end(s, i) == j,
    decreases j - i,
{
    if i < j {
        lemma_digits_end_at(s, i + 1, j);
    }
}

fn char_is_digit(c: char) -> (r: bool)
    ensures
        r == is_digit(c),
{
    '0' <= c && c <= '9'
}

/// Reads the run of digits of `expr` that starts at `start`.
fn read_digits(expr: &str, start: usize, n: usize) -> (r: (usize, u32))
    requires
        n == expr@.len(),
        start <= n,
    ensures
        r.0 == digits_end(expr@, start as int),
        r.1 == digits_value(expr@, start as int, r.0 as int),
        start <= r.0 <= n,
{
    let mut j: usize = start;
    let mut num: u32 = 0;
    while j < n && char_is_digit(expr.get_char(j))
        invariant
            n == expr@.len(),
            start <= j <= n,
            num == digits_value(expr@, start as int, j as int),
            forall|k: int| start <= k < j ==> is_digit(#[trigger] expr@[k]),
        decreases n - j,
    {
        let c = expr.get_char(j);
        num = num.wrapping_mul(10).wrapping_add((c as u32) - ('0' as u32));
        j = j + 1;
    }
    proof {
        lemma_digits_end_at(expr@, start as int, j as int);
    }
    (j, num)
}

impl Tokens {
    /// Scans `expr` left to right into framed tokens, failing on the first
    /// character that starts no token and on a die without faces.
    pub fn tokenize(expr: &str) -> (r: Result<Tokens, ParseError>)
        ensures
            match r {
                Ok(t) => spec_tokenize(expr@) == Ok::<Seq<IndexedToken>, ParseError>(t.0@),
                Err(e) => spec_tokenize(expr@) == Err::<Seq<IndexedToken>, ParseError>(e),
            },
    {
        let n = expr.unicode_len();
        let mut tokens: Vec<IndexedToken> = Vec::new();
        tokens.push(IndexedToken::begin(0));
        let mut i: usize = 0;
        while i < n
            invariant
                n == expr@.len(),
                i <= n,
                tokens@.len() >= 1,
                tokens@[0] == (IndexedToken { index: 0, token: Token::Begin }),
                lex(expr@, 0) == prepend(tokens@.skip(1), lex(expr@, i as int)),
            decreases n - i,
        {
            let c = expr.get_char(i);
            let ghost before = tokens@;
            if char_is_digit(c) {
                let (j, num) = read_digits(expr, i, n);
                tokens.push(IndexedToken::value(i, Val::Num(num)));
                assert(tokens@.skip(1) =~= before.skip(1) + seq![tokens@.last()]);
                proof {
                    lemma_digits_end(expr@, i + 1);
                    lemma_prepend_assoc(before.skip(1), seq![tokens@.last()], lex(expr@, j as int));
                }
                i = j;
            } else if c == 'd' {
                let (j, num) = read_digits(expr, i + 1, n);
                if num == 0 {
                    return Err(ParseError::BadDie { index: i });
                }
                tokens.push(IndexedToken::value(i, Val::Die(Die::new(num))));
                assert(tokens@.skip(1) =~= before.skip(1) + seq![tokens@.last()]);
                proof {
                    lemma_prepend_assoc(before.skip(1), seq![tokens@.last()], lex(expr@, j as int));
                }
                i = j;
            } else if c == ' ' || c == '\t' || c == '\n' {
                i = i + 1;
            } else {
                let tok = if c == '+' {
                    Token::Op(Op::Add)
                } else if c == '-' {
                    Token::Op(Op::Sub)
                } else if c == '*' {
                    Token::Op(Op::Mul)
                } else if c == '(' || c == '[' || c == '{' {
                    Token::Begin
                } else if c == ')' || c == ']' || c == '}' {
                    Token::End
                } else {
                    return Err(ParseError::UnexpectedToken { index: i, token: c });
                };
                tokens.push(IndexedToken { index: i, token: tok });
                assert(tokens@.skip(1) =~= before.skip(1) + seq![tokens@.last()]);
                proof {
                    lemma_prepend_assoc(before.skip(1), seq![tokens@.last()], lex(expr@, i + 1));
                }
                i = i + 1;
            }
        }
        let ghost body = tokens@.skip(1);
        assert(body + seq![] =~= body);
        let last = tokens[tokens.len() - 1].index;
        tokens.push(IndexedToken::end(last));
        assert(tokens@ =~= seq![IndexedToken { index: 0, token: Token::Begin }] + body + seq![tokens@.last()]);
        Ok(Tokens(tokens))
    }
}

} // verus!
