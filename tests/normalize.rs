use libdnd::expr::{Op, Val};
use libdnd::normalize::NormToken;
use libdnd::parser::{IndexedToken, ParseError, Token, Tokens};

fn norm(s: &str) -> Result<Vec<NormToken>, ParseError> {
    Tokens::tokenize(s).unwrap().normalize().map(|n| n.0)
}

#[test]
fn normalize_inserts_implicit_mul() {
    let n = norm("2d6").unwrap();
    assert_eq!(n.len(), 3);
    assert_eq!(n[0], NormToken::Val(Val::Num(2)));
    assert_eq!(n[1], NormToken::Op(Op::Mul));
    assert!(matches!(n[2], NormToken::Val(Val::Die(d)) if d.edges() == 6));
}

#[test]
fn normalize_mul_before_group_and_after_group() {
    let n = norm("2(3)4").unwrap();
    assert_eq!(
        n,
        vec![
            NormToken::Val(Val::Num(2)),
            NormToken::Op(Op::Mul),
            NormToken::Open,
            NormToken::Val(Val::Num(3)),
            NormToken::Close,
            NormToken::Op(Op::Mul),
            NormToken::Val(Val::Num(4)),
        ]
    );
}

#[test]
fn normalize_leading_sign() {
    assert_eq!(
        norm("-3").unwrap(),
        vec![NormToken::Val(Val::Num(0)), NormToken::Op(Op::Sub), NormToken::Val(Val::Num(3))]
    );
    assert_eq!(
        norm("(+3)").unwrap(),
        vec![
            NormToken::Open,
            NormToken::Val(Val::Num(0)),
            NormToken::Op(Op::Add),
            NormToken::Val(Val::Num(3)),
            NormToken::Close,
        ]
    );
}

#[test]
fn normalize_empty_input() {
    assert_eq!(norm(""), Err(ParseError::EmptyExpression { index: 0 }));
    assert_eq!(norm("   "), Err(ParseError::EmptyExpression { index: 0 }));
}

#[test]
fn normalize_empty_group() {
    assert_eq!(norm("1+()"), Err(ParseError::EmptyExpression { index: 2 }));
}

#[test]
fn normalize_illegal_expressions() {
    assert_eq!(norm("1+*2"), Err(ParseError::IllegalExpression { index: 2 }));
    assert_eq!(norm("*2"), Err(ParseError::IllegalExpression { index: 0 }));
    assert_eq!(norm("1+"), Err(ParseError::IllegalExpression { index: 1 }));
    assert_eq!(norm("(1-)"), Err(ParseError::IllegalExpression { index: 3 }));
    assert_eq!(norm("(1+)"), Err(ParseError::IllegalExpression { index: 3 }));
    assert_eq!(norm("1 + "), Err(ParseError::IllegalExpression { index: 2 }));
    assert_eq!(norm("(*1)"), Err(ParseError::IllegalExpression { index: 1 }));
}

#[test]
fn normalize_unmatched_parens() {
    assert_eq!(norm("(1+2"), Err(ParseError::UnmatchedParen { index: 0 }));
    assert_eq!(norm("1+(2*(3)"), Err(ParseError::UnmatchedParen { index: 2 }));
    assert_eq!(norm("1)"), Err(ParseError::UnmatchedParen { index: 1 }));
    assert_eq!(norm("1)(2"), Err(ParseError::UnmatchedParen { index: 1 }));
    assert_eq!(norm("(1]"), Ok(vec![NormToken::Open, NormToken::Val(Val::Num(1)), NormToken::Close]));
}

fn reframe(n: &[NormToken]) -> Tokens {
    let mut ts = vec![IndexedToken::begin(0)];
    for (i, t) in n.iter().enumerate() {
        let token = match t {
            NormToken::Op(o) => Token::Op(*o),
            NormToken::Val(v) => Token::Val(*v),
            NormToken::Open => Token::Begin,
            NormToken::Close => Token::End,
        };
        ts.push(IndexedToken { index: i, token });
    }
    ts.push(IndexedToken::end(n.len()));
    Tokens(ts)
}

#[test]
fn normalize_is_idempotent() {
    for s in ["2d6", "-d20 + 3(d4 - 1)", "2(3)4", "(+3)[d6]{2}", "1*2+3"] {
        let once = norm(s).unwrap();
        let twice = reframe(&once).normalize().unwrap().0;
        assert_eq!(once, twice);
    }
}

#[test]
fn normalize_unframed_tokens_hold_no_expression() {
    assert_eq!(Tokens(vec![]).normalize().map(|n| n.0), Err(ParseError::EmptyExpression { index: 0 }));
    assert_eq!(
        Tokens(vec![IndexedToken::begin(0)]).normalize().map(|n| n.0),
        Err(ParseError::EmptyExpression { index: 0 })
    );
}
