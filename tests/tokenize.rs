use libdnd::expr::{Die, Op, Val};
use libdnd::parser::{IndexedToken, ParseError, Tokens};
use std::str::FromStr;

#[test]
fn tokenize_expr_ok() {
    let expr = "d20 - 3 + 2(d6 * 2)";
    let tokens = Tokens::from_str(expr).expect("Unable to tokenize valid expr");
    assert_eq!(
        tokens.0,
        vec![
            IndexedToken::begin(0),
            IndexedToken::value(0, Val::Die(Die::new(20))),
            IndexedToken::operation(4, Op::Sub),
            IndexedToken::value(6, Val::Num(3)),
            IndexedToken::operation(8, Op::Add),
            IndexedToken::value(10, Val::Num(2)),
            IndexedToken::begin(11),
            IndexedToken::value(12, Val::Die(Die::new(6))),
            IndexedToken::operation(15, Op::Mul),
            IndexedToken::value(17, Val::Num(2)),
            IndexedToken::end(18),
            IndexedToken::end(18),
        ]
    );
}

#[test]
fn tokenize_expr_unexpected_token() {
    let expr = "d20 * 200%";
    let tokens = Tokens::from_str(expr);
    assert_eq!(
        tokens,
        Err(ParseError::UnexpectedToken {
            index: 9,
            token: '%'
        })
    )
}

#[test]
fn tokenize_expr_bad_die() {
    let expr = "d20 + d0 * 3";
    let tokens = Tokens::from_str(expr);
    assert_eq!(tokens, Err(ParseError::BadDie { index: 6 }))
}

#[test]
fn tokenize_bare_d_is_bad_die() {
    assert_eq!(Tokens::tokenize("1 + d"), Err(ParseError::BadDie { index: 4 }));
}

#[test]
fn tokenize_empty_is_frame_only() {
    let tokens = Tokens::tokenize("").unwrap();
    assert_eq!(tokens.0, vec![IndexedToken::begin(0), IndexedToken::end(0)]);
}

#[test]
fn tokenize_brackets_and_whitespace() {
    let tokens = Tokens::tokenize("[1]\t{2}\n").unwrap();
    assert_eq!(
        tokens.0,
        vec![
            IndexedToken::begin(0),
            IndexedToken::begin(0),
            IndexedToken::value(1, Val::Num(1)),
            IndexedToken::end(2),
            IndexedToken::begin(4),
            IndexedToken::value(5, Val::Num(2)),
            IndexedToken::end(6),
            IndexedToken::end(6),
        ]
    );
}

#[test]
fn tokenize_multi_digit_numbers() {
    let tokens = Tokens::tokenize("1234d100").unwrap();
    assert_eq!(
        tokens.0,
        vec![
            IndexedToken::begin(0),
            IndexedToken::value(0, Val::Num(1234)),
            IndexedToken::value(4, Val::Die(Die::new(100))),
            IndexedToken::end(4),
        ]
    );
}

#[test]
fn tokenize_index_counts_characters() {
    assert_eq!(
        Tokens::tokenize("1 é"),
        Err(ParseError::UnexpectedToken { index: 2, token: 'é' })
    );
}
