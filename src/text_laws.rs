//! What the parser gives for a few shapes of text.
use vstd::prelude::*;
use crate::builder::{atom, binary, sum, sum_rest, term, term_rest};
use crate::expr::{Die, Expr, Op, Val};
use crate::hand::spec_parse;
use crate::analysis::graph_of;
use crate::dist::{point, uniform};
use crate::laws::{dice_free, exact, lemma_die_law, lemma_numbers_agree};
use crate::throw::eval;
use crate::normalize::{norm_scan, norm_step, paren_check, spec_normalize, NormToken};
use crate::parser::{
    digits_end, digits_value, is_digit, lemma_digits_end, lemma_digits_end_at, lex, spec_tokenize, IndexedToken,
    Token,
};

verus! {

pub open spec fn no_die_token(ts: Seq<IndexedToken>) -> bool {
    forall|k: int| 0 <= k < ts.len() ==> !(#[trigger] ts[k].token matches Token::Val(Val::Die(_)))
}

pub open spec fn no_die_norm(n: Seq<NormToken>) -> bool {
    forall|k: int| 0 <= k < n.len() ==> !(#[trigger] n[k] matches NormToken::Val(Val::Die(_)))
}

pub open spec fn no_letter_d(s: Seq<char>) -> bool {
    forall|k: int| 0 <= k < s.len() ==> #[trigger] s[k] != 'd'
}

proof fn lemma_lex_no_die(s: Seq<char>, i: int)
    requires
        no_letter_d(s),
        lex(s, i) is Ok,
    ensures
        no_die_token(lex(s, i)->Ok_0),
    decreases s.len() - i,
{
    if 0 <= i < s.len() {
        let c = s[i];
        if is_digit(c) {
            lemma_digits_end(s, i + 1);
            lemma_lex_no_die(s, digits_end(s, i));
        } else if c == 'd' {
        } else {
            lemma_lex_no_die(s, i + 1);
        }
    }
}

proof fn lemma_scan_no_die(ts: Seq<IndexedToken>, i: int, end: int)
    requires
        no_die_token(ts),
        1 <= i <= end <= ts.len(),
        norm_scan(ts, i, end) is Ok,
    ensures
        no_die_norm(norm_scan(ts, i, end)->Ok_0),
    decreases end - i,
{
    if i < end {
        lemma_scan_no_die(ts, i + 1, end);
        assert(!(ts[i].token matches Token::Val(Val::Die(_))));
        let p = norm_step(ts[i - 1], ts[i])->Ok_0;
        let r = norm_scan(ts, i + 1, end)->Ok_0;
        assert(no_die_norm(p));
        assert forall|k: int| 0 <= k < (p + r).len() implies !(#[trigger] (p + r)[k] matches NormToken::Val(
            Val::Die(_),
        )) by {
            if k >= p.len() {
                assert((p + r)[k] == r[k - p.len()]);
            }
        }
    }
}

proof fn lemma_atom_free(ts: Seq<NormToken>, i: int)
    requires
        no_die_norm(ts),
    ensures
        dice_free(atom(ts, i).0),
    decreases ts.len() - i, 0nat,
{
    if 0 <= i < ts.len() && ts[i] == NormToken::Open {
        lemma_sum_free(ts, i + 1);
    }
}

proof fn lemma_term_rest_free(ts: Seq<NormToken>, acc: Expr, i: int)
    requires
        no_die_norm(ts),
        dice_free(acc),
    ensures
        dice_free(term_rest(ts, acc, i).0),
    decreases ts.len() - i, 1nat,
{
    if 0 <= i < ts.len() && ts[i] == NormToken::Op(Op::Mul) {
        lemma_atom_free(ts, i + 1);
        let (a, j) = atom(ts, i + 1);
        if !(j <= i || j > ts.len()) {
            lemma_term_rest_free(ts, binary(Op::Mul, acc, a), j);
        }
    }
}

proof fn lemma_term_free(ts: Seq<NormToken>, i: int)
    requires
        no_die_norm(ts),
    ensures
        dice_free(term(ts, i).0),
    decreases ts.len() - i, 2nat,
{
    lemma_atom_free(ts, i);
    let (a, j) = atom(ts, i);
    if !(j < i || j > ts.len()) {
        lemma_term_rest_free(ts, a, j);
    }
}

proof fn lemma_sum_rest_free(ts: Seq<NormToken>, acc: Expr, i: int)
    requires
        no_die_norm(ts),
        dice_free(acc),
    ensures
        dice_free(sum_rest(ts, acc, i).0),
    decreases ts.len() - i, 3nat,
{
    if 0 <= i < ts.len() && (ts[i] == NormToken::Op(Op::Add) || ts[i] == NormToken::Op(Op::Sub)) {
        let op = if ts[i] == NormToken::Op(Op::Add) { Op::Add } else { Op::Sub };
        lemma_term_free(ts, i + 1);
        let (t, j) = term(ts, i + 1);
        if !(j <= i || j > ts.len()) {
            lemma_sum_rest_free(ts, binary(op, acc, t), j);
        }
    }
}

proof fn lemma_sum_free(ts: Seq<NormToken>, i: int)
    requires
        no_die_norm(ts),
    ensures
        dice_free(sum(ts, i).0),
    decreases ts.len() - i, 4nat,
{
    lemma_term_free(ts, i);
    let (t, j) = term(ts, i);
    if !(j < i || j > ts.len()) {
        lemma_sum_rest_free(ts, t, j);
    }
}

/// A text without the letter `d` parses, where it parses, to a tree
/// without dice.
pub proof fn lemma_parse_dice_free(s: Seq<char>)
    requires
        no_letter_d(s),
        spec_parse(s) is Ok,
    ensures
        dice_free(spec_parse(s)->Ok_0),
{
    lemma_lex_no_die(s, 0);
    let ts = spec_tokenize(s)->Ok_0;
    let body = lex(s, 0)->Ok_0;
    assert(forall|k: int| 1 <= k < ts.len() - 1 ==> ts[k] == body[k - 1]);
    assert(no_die_token(ts));
    lemma_scan_no_die(ts, 1, ts.len() as int);
    let n = spec_normalize(ts)->Ok_0;
    assert(no_die_norm(n));
    lemma_sum_free(n, 0);
}

/// A text that is one run of digits parses to the number leaf of its value
/// (wrapping at 2^32).
pub proof fn lemma_parse_number(s: Seq<char>)
    requires
        s.len() >= 1,
        forall|k: int| 0 <= k < s.len() ==> is_digit(#[trigger] s[k]),
    ensures
        spec_parse(s) == Ok::<Expr, crate::parser::ParseError>(
            Expr::Value(Val::Num(digits_value(s, 0, s.len() as int))),
        ),
{
    lemma_digits_end_at(s, 0, s.len() as int);
    let t = IndexedToken { index: 0, token: Token::Val(Val::Num(digits_value(s, 0, s.len() as int))) };
    assert(lex(s, s.len() as int) == Ok::<Seq<IndexedToken>, crate::parser::ParseError>(seq![]));
    assert(seq![t] + Seq::<IndexedToken>::empty() =~= seq![t]);
    lemma_single_value(s, t);
}

/// A text `d` followed by a run of digits of positive value parses to the
/// leaf of a die with that many faces.
pub proof fn lemma_parse_die(s: Seq<char>)
    requires
        s.len() >= 2,
        s[0] == 'd',
        forall|k: int| 1 <= k < s.len() ==> is_digit(#[trigger] s[k]),
        digits_value(s, 1, s.len() as int) > 0,
    ensures
        spec_parse(s) == Ok::<Expr, crate::parser::ParseError>(
            Expr::Value(Val::Die(Die::spec_new(digits_value(s, 1, s.len() as int)))),
        ),
{
    lemma_digits_end_at(s, 1, s.len() as int);
    let t = IndexedToken { index: 0, token: Token::Val(Val::Die(Die::spec_new(digits_value(s, 1, s.len() as int)))) };
    assert(lex(s, s.len() as int) == Ok::<Seq<IndexedToken>, crate::parser::ParseError>(seq![]));
    assert(seq![t] + Seq::<IndexedToken>::empty() =~= seq![t]);
    assert(!is_digit(s[0]));
    lemma_single_value(s, t);
}

proof fn lemma_single_value(s: Seq<char>, t: IndexedToken)
    requires
        lex(s, 0) == Ok::<Seq<IndexedToken>, crate::parser::ParseError>(seq![t]),
        t.index == 0,
        t.token is Val,
    ensures
        spec_parse(s) == Ok::<Expr, crate::parser::ParseError>(Expr::Value(t.token->Val_0)),
{
    let ts = spec_tokenize(s)->Ok_0;
    assert(ts =~= seq![
        IndexedToken { index: 0, token: Token::Begin },
        t,
        IndexedToken { index: 0, token: Token::End },
    ]);
    let v = t.token->Val_0;
    assert(norm_step(ts[0], ts[1]) == Ok::<Seq<NormToken>, crate::parser::ParseError>(seq![NormToken::Val(v)]));
    assert(norm_step(ts[1], ts[2]) == Ok::<Seq<NormToken>, crate::parser::ParseError>(seq![NormToken::Close]));
    assert(norm_scan(ts, 3, 3) == Ok::<Seq<NormToken>, crate::parser::ParseError>(seq![]));
    assert(seq![NormToken::Close] + Seq::<NormToken>::empty() =~= seq![NormToken::Close]);
    assert(norm_scan(ts, 2, 3) == Ok::<Seq<NormToken>, crate::parser::ParseError>(seq![NormToken::Close]));
    assert(seq![NormToken::Val(v)] + seq![NormToken::Close] =~= seq![NormToken::Val(v), NormToken::Close]);
    assert(seq![NormToken::Val(v), NormToken::Close].drop_last() =~= seq![NormToken::Val(v)]);
    let n = seq![NormToken::Val(v)];
    assert(paren_check(ts, 2, 2, seq![]) == Ok::<(), crate::parser::ParseError>(()));
    assert(paren_check(ts, 1, 2, seq![]) == Ok::<(), crate::parser::ParseError>(()));
    assert(norm_scan(ts, 1, 3) == Ok::<Seq<NormToken>, crate::parser::ParseError>(
        seq![NormToken::Val(v), NormToken::Close],
    ));
    assert(spec_normalize(ts) == Ok::<Seq<NormToken>, crate::parser::ParseError>(n));
    assert(atom(n, 0) == (Expr::Value(v), 1int));
    assert(term_rest(n, Expr::Value(v), 1) == (Expr::Value(v), 1int));
    assert(term(n, 0) == (Expr::Value(v), 1int));
    assert(sum_rest(n, Expr::Value(v), 1) == (Expr::Value(v), 1int));
    assert(sum(n, 0) == (Expr::Value(v), 1int));
}

/// On a text without dice, analysis and throwing agree: the distribution
/// of the parsed tree is the single point at its exact value, a throw takes
/// no draws and gives that value wherever it fits in 64 bits.
pub proof fn lemma_text_without_dice(s: Seq<char>, d: Seq<u32>)
    requires
        no_letter_d(s),
        spec_parse(s) is Ok,
    ensures
        graph_of(spec_parse(s)->Ok_0) == point(exact(spec_parse(s)->Ok_0)),
        eval(spec_parse(s)->Ok_0, d).1 == 0,
        i64::MIN <= exact(spec_parse(s)->Ok_0) <= i64::MAX ==> eval(spec_parse(s)->Ok_0, d).0 == exact(
            spec_parse(s)->Ok_0,
        ),
{
    lemma_parse_dice_free(s);
    lemma_numbers_agree(spec_parse(s)->Ok_0, d);
}

/// A text that is one run of digits throws its value, whatever is drawn,
/// and analyzes to the single point at its value.
pub proof fn lemma_number_text(s: Seq<char>, d: Seq<u32>)
    requires
        s.len() >= 1,
        forall|k: int| 0 <= k < s.len() ==> is_digit(#[trigger] s[k]),
    ensures
        eval(spec_parse(s)->Ok_0, d).0 == digits_value(s, 0, s.len() as int),
        graph_of(spec_parse(s)->Ok_0) == point(digits_value(s, 0, s.len() as int) as int),
{
    lemma_parse_number(s);
}

/// A text `d<faces>` throws between 1 and `faces` whatever is drawn, and
/// analyzes to weight 1 on each of `1..=faces`.
pub proof fn lemma_die_text(s: Seq<char>, d: Seq<u32>)
    requires
        s.len() >= 2,
        s[0] == 'd',
        forall|k: int| 1 <= k < s.len() ==> is_digit(#[trigger] s[k]),
        digits_value(s, 1, s.len() as int) > 0,
    ensures
        1 <= eval(spec_parse(s)->Ok_0, d).0 <= digits_value(s, 1, s.len() as int),
        graph_of(spec_parse(s)->Ok_0) == uniform(digits_value(s, 1, s.len() as int) as nat),
{
    let f = digits_value(s, 1, s.len() as int);
    lemma_parse_die(s);
    Die::lemma_new_faces(f);
    lemma_die_law(Die::spec_new(f), d);
}

} // verus!
