use libdnd::dto::{analyze_dice, calculate_dice};
use libdnd::hand::Hand;
use libdnd::parser::ParseError;
use std::str::FromStr;

fn value(s: &str) -> i64 {
    Hand::from_str(s).unwrap().throw()
}

fn weights(s: &str) -> (i64, Vec<u64>) {
    let g = Hand::parse(s).unwrap().analyze().unwrap();
    (g.offset(), g.values().clone())
}

#[test]
fn throw_parenthesized_product() {
    assert_eq!(value("(2+3)*4"), 20);
}

#[test]
fn throw_precedence() {
    assert_eq!(value("1+2*3"), 7);
    assert_eq!(value("1*2+3"), 5);
    assert_eq!(value("1-2*3+4"), -1);
    assert_eq!(value("10-2-3"), 5);
    assert_eq!(value("2*3*4-1"), 23);
    assert_eq!(value("-3+5"), 2);
    assert_eq!(value("2(3+1)"), 8);
    assert_eq!(value("(1+1)(2)"), 4);
}

#[test]
fn throw_die_in_range() {
    for _ in 0..200 {
        let v = value("d20");
        assert!((1..=20).contains(&v));
    }
}

#[test]
fn throw_two_d6_in_range() {
    for _ in 0..200 {
        let v = value("2d6");
        assert!((2..=12).contains(&v));
    }
}

#[test]
fn throw_pool_of_zero_dice() {
    assert_eq!(value("0d6"), 0);
    assert_eq!(value("(1-3)d6"), 0);
}

#[test]
fn parse_empty_fails() {
    assert!(matches!(Hand::parse(""), Err(ParseError::EmptyExpression { index: 0 })));
}

#[test]
fn analyze_number_is_a_point() {
    assert_eq!(weights("7"), (7, vec![1]));
}

#[test]
fn analyze_die_is_uniform() {
    assert_eq!(weights("d20"), (1, vec![1; 20]));
}

#[test]
fn analyze_two_d6() {
    let (offset, w) = weights("2d6");
    assert_eq!(offset, 2);
    assert_eq!(w, vec![1, 2, 3, 4, 5, 6, 5, 4, 3, 2, 1]);
    assert_eq!(w.iter().sum::<u64>(), 36);
}

#[test]
fn analyze_sum_and_difference() {
    assert_eq!(weights("d6+1"), (2, vec![1; 6]));
    assert_eq!(weights("d4-1"), (0, vec![1; 4]));
    assert_eq!(weights("d4-d2"), (0, vec![1, 2, 2, 2, 1]));
}

#[test]
fn analyze_general_product() {
    assert_eq!(weights("2*3"), (6, vec![1]));
    assert_eq!(weights("d2*(2)"), (2, vec![1, 0, 1]));
    assert_eq!(weights("d2*(1+d2)"), (2, vec![1, 1, 1, 0, 1]));
}

#[test]
fn analyze_product_with_negative_outcomes() {
    assert_eq!(weights("(d2-2)*(d2+1)"), (-3, vec![1, 1, 0, 2]));
}

#[test]
fn analyze_pool_over_a_distribution() {
    assert_eq!(weights("(d2)d2"), (1, vec![1, 2, 2, 1]));
    assert_eq!(weights("d2d1"), (1, vec![1, 1]));
    assert_eq!(weights("(d2-1)d6"), (0, vec![1, 1, 1, 1, 1, 1, 1]));
    assert_eq!(weights("0d6"), (0, vec![1]));
}

#[test]
fn analyze_overflow_is_none() {
    let h = Hand::parse("4294967295*4294967295*4294967295").unwrap();
    assert!(h.analyze().is_none());
}

#[test]
fn commands() {
    assert_eq!(calculate_dice(String::from("(2+3)*4")).unwrap().result, 20);
    assert!(matches!(calculate_dice(String::from("d0")), Err(ParseError::BadDie { index: 0 })));
    let g = analyze_dice(String::from("2d6")).unwrap().unwrap();
    assert_eq!(g.offset(), 2);
    assert!(matches!(analyze_dice(String::from("(")), Err(ParseError::UnmatchedParen { index: 0 })));
}

#[test]
fn dice_free_expression_is_a_point_and_its_value() {
    assert_eq!(weights("3+4*2-(1)"), (10, vec![1]));
    assert_eq!(value("3+4*2-(1)"), 10);
}

#[test]
fn total_weight_is_product_of_faces() {
    let total = |s: &str| weights(s).1.iter().sum::<u64>();
    assert_eq!(total("d6 + 2d4"), 96);
    assert_eq!(total("2d6 * (3)"), 36);
    assert_eq!(total("d4 - d2"), 8);
    assert_eq!(total("d6 + (1+1)d4"), 96);
    assert_eq!(total("d2d6"), 42);
    assert_eq!(total("7"), 1);
}

#[test]
fn throw_pool_with_random_count_in_range() {
    for _ in 0..200 {
        let v = value("d2d1");
        assert!(v == 1 || v == 2);
    }
}
