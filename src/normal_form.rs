//! The normal form that the normalizer produces: every adjacent pair of its
//! framed stream passes through unchanged, and its groups balance.
use vstd::prelude::*;
use crate::normalize::{norm_scan, norm_step, paren_check, NormToken};
use crate::parser::{IndexedToken, Token};

verus! {

/// The token that a normalized token was read from.
pub open spec fn as_token(t: NormToken) -> Token {
    match t {
        NormToken::Op(o) => Token::Op(o),
        NormToken::Val(v) => Token::Val(v),
        NormToken::Open => Token::Begin,
        NormToken::Close => Token::End,
    }
}

/// The normalized token that a token passes through as.
pub open spec fn as_norm(t: Token) -> NormToken {
    match t {
        Token::Op(o) => NormToken::Op(o),
        Token::Val(v) => NormToken::Val(v),
        Token::Begin => NormToken::Open,
        Token::End => NormToken::Close,
    }
}

pub open spec fn tok(n: Seq<NormToken>) -> Seq<Token> {
    n.map_values(|t: NormToken| as_token(t))
}

pub open spec fn kinds(ts: Seq<IndexedToken>) -> Seq<Token> {
    ts.map_values(|t: IndexedToken| t.token)
}

/// A token after which an operand is expected.
pub open spec fn starts(t: Token) -> bool {
    t is Begin || t is Op
}

/// The pair is one that normalization passes through unchanged.
pub open spec fn passes(l: Token, r: Token) -> bool {
    if starts(l) {
        r is Begin || r is Val
    } else {
        r is Op || r is End
    }
}

pub open spec fn chain_ok(s: Seq<Token>) -> bool {
    forall|k: int| 1 <= k < s.len() ==> passes(#[trigger] s[k - 1], s[k])
}

/// The depth after reading `s` from depth `d`, or `None` where a group
/// closes below depth 0.
pub open spec fn run(s: Seq<Token>, d: int) -> Option<int>
    decreases s.len(),
{
    if s.len() == 0 {
        Some(d)
    } else {
        match s[0] {
            Token::Begin => run(s.skip(1), d + 1),
            Token::End => if d <= 0 {
                None
            } else {
                run(s.skip(1), d - 1)
            },
            _ => run(s.skip(1), d),
        }
    }
}

pub proof fn lemma_paren_run(ts: Seq<IndexedToken>, i: int, end: int, open: Seq<usize>)
    requires
        0 <= i <= end <= ts.len(),
    ensures
        (paren_check(ts, i, end, open) is Ok) == (run(kinds(ts).subrange(i, end), open.len() as int) == Some(0int)),
    decreases end - i,
{
    let s = kinds(ts).subrange(i, end);
    if i < end {
        assert(s.skip(1) =~= kinds(ts).subrange(i + 1, end));
        assert(s[0] == ts[i].token);
        match ts[i].token {
            Token::Begin => lemma_paren_run(ts, i + 1, end, open.push(ts[i].index)),
            Token::End => if open.len() > 0 {
                lemma_paren_run(ts, i + 1, end, open.drop_last());
            },
            _ => lemma_paren_run(ts, i + 1, end, open),
        }
    }
}

pub proof fn lemma_run_concat(x: Seq<Token>, y: Seq<Token>, d: int)
    ensures
        run(x + y, d) == match run(x, d) {
            None => None,
            Some(e) => run(y, e),
        },
    decreases x.len(),
{
    if x.len() == 0 {
        assert(x + y =~= y);
    } else {
        assert((x + y).skip(1) =~= x.skip(1) + y);
        assert((x + y)[0] == x[0]);
        let d2 = match x[0] {
            Token::Begin => d + 1,
            Token::End => d - 1,
            _ => d,
        };
        lemma_run_concat(x.skip(1), y, d2);
    }
}

proof fn lemma_tok_concat(a: Seq<NormToken>, b: Seq<NormToken>)
    ensures
        tok(a + b) == tok(a) + tok(b),
{
    assert(tok(a + b) =~= tok(a) + tok(b));
}

/// One step of the normalizer moves the depth as its right token does.
proof fn lemma_step_run(left: IndexedToken, right: IndexedToken, d: int)
    requires
        norm_step(left, right) is Ok,
    ensures
        run(tok(norm_step(left, right)->Ok_0), d) == run(seq![right.token], d),
{
    let p = norm_step(left, right)->Ok_0;
    let t = tok(p);
    let r = seq![right.token];
    assert(r.skip(1) =~= Seq::<Token>::empty());
    if p.len() == 1 {
        assert(t.skip(1) =~= Seq::<Token>::empty());
    } else {
        assert(t.skip(1) =~= seq![t[1]]);
        assert(t.skip(1).skip(1) =~= Seq::<Token>::empty());
    }
}

/// The normalized tokens of a scan move the depth as the tokens scanned.
pub proof fn lemma_scan_run(ts: Seq<IndexedToken>, i: int, end: int, d: int)
    requires
        1 <= i <= end <= ts.len(),
        norm_scan(ts, i, end) is Ok,
    ensures
        run(tok(norm_scan(ts, i, end)->Ok_0), d) == run(kinds(ts).subrange(i, end), d),
    decreases end - i,
{
    if i == end {
        assert(tok(Seq::<NormToken>::empty()) =~= kinds(ts).subrange(i, end));
    } else {
        let p = norm_step(ts[i - 1], ts[i])->Ok_0;
        let rest = norm_scan(ts, i + 1, end)->Ok_0;
        lemma_tok_concat(p, rest);
        lemma_run_concat(tok(p), tok(rest), d);
        let s = kinds(ts).subrange(i, end);
        assert(s =~= seq![ts[i].token] + kinds(ts).subrange(i + 1, end));
        lemma_run_concat(seq![ts[i].token], kinds(ts).subrange(i + 1, end), d);
        lemma_step_run(ts[i - 1], ts[i], d);
        match run(tok(p), d) {
            Some(e) => lemma_scan_run(ts, i + 1, end, e),
            None => {},
        }
    }
}

/// A scan one pair longer appends that pair's step.
pub proof fn lemma_scan_split(ts: Seq<IndexedToken>, i: int, end: int)
    requires
        1 <= i <= end < ts.len(),
        norm_scan(ts, i, end + 1) is Ok,
    ensures
        norm_scan(ts, i, end) is Ok,
        norm_step(ts[end - 1], ts[end]) is Ok,
        norm_scan(ts, i, end + 1)->Ok_0 == norm_scan(ts, i, end)->Ok_0 + norm_step(ts[end - 1], ts[end])->Ok_0,
    decreases end - i,
{
    if i == end {
        let p = norm_step(ts[end - 1], ts[end])->Ok_0;
        assert(Seq::<NormToken>::empty() + p =~= p);
        assert(p + Seq::<NormToken>::empty() =~= p);
    } else {
        lemma_scan_split(ts, i + 1, end);
        let p = norm_step(ts[i - 1], ts[i])->Ok_0;
        let a = norm_scan(ts, i + 1, end)->Ok_0;
        let b = norm_step(ts[end - 1], ts[end])->Ok_0;
        assert(p + (a + b) =~= (p + a) + b);
    }
}

pub proof fn lemma_chain_push(s: Seq<Token>, t: Token)
    requires
        chain_ok(s),
        s.len() >= 1,
        passes(s.last(), t),
    ensures
        chain_ok(s.push(t)),
{
    assert forall|k: int| 1 <= k < s.push(t).len() implies passes(#[trigger] s.push(t)[k - 1], s.push(t)[k]) by {
        if k < s.len() {
            assert(s.push(t)[k - 1] == s[k - 1]);
            assert(s.push(t)[k] == s[k]);
        }
    }
}

pub open spec fn framed(p: Seq<NormToken>) -> Seq<Token> {
    seq![Token::Begin] + tok(p)
}

/// A step keeps the framed output a chain, ending in a token of the same
/// kind as the step's right token.
proof fn lemma_step_chain(prev: Seq<NormToken>, left: IndexedToken, right: IndexedToken)
    requires
        chain_ok(framed(prev)),
        starts(framed(prev).last()) == starts(left.token),
        norm_step(left, right) is Ok,
    ensures
        chain_ok(framed(prev + norm_step(left, right)->Ok_0)),
        starts(framed(prev + norm_step(left, right)->Ok_0).last()) == starts(right.token),
{
    let p = norm_step(left, right)->Ok_0;
    let f = framed(prev);
    lemma_tok_concat(prev, p);
    if p.len() == 1 {
        assert(framed(prev + p) =~= f.push(as_token(p[0])));
        lemma_chain_push(f, as_token(p[0]));
    } else {
        assert(framed(prev + p) =~= f.push(as_token(p[0])).push(as_token(p[1])));
        lemma_chain_push(f, as_token(p[0]));
        lemma_chain_push(f.push(as_token(p[0])), as_token(p[1]));
    }
}

/// The output of a scan extends a chain.
pub proof fn lemma_scan_chain(ts: Seq<IndexedToken>, i: int, end: int, prev: Seq<NormToken>)
    requires
        1 <= i <= end <= ts.len(),
        norm_scan(ts, i, end) is Ok,
        chain_ok(framed(prev)),
        starts(framed(prev).last()) == starts(ts[i - 1].token),
    ensures
        chain_ok(framed(prev + norm_scan(ts, i, end)->Ok_0)),
        starts(framed(prev + norm_scan(ts, i, end)->Ok_0).last()) == starts(ts[end - 1].token),
    decreases end - i,
{
    if i == end {
        assert(prev + norm_scan(ts, i, end)->Ok_0 =~= prev);
    } else {
        let p = norm_step(ts[i - 1], ts[i])->Ok_0;
        let rest = norm_scan(ts, i + 1, end)->Ok_0;
        lemma_step_chain(prev, ts[i - 1], ts[i]);
        lemma_scan_chain(ts, i + 1, end, prev + p);
        assert(prev + p + rest =~= prev + (p + rest));
    }
}

/// A scan over passing pairs gives each right token unchanged.
pub proof fn lemma_scan_passes(ts: Seq<IndexedToken>, i: int, end: int)
    requires
        1 <= i <= end <= ts.len(),
        forall|k: int| i <= k < end ==> passes(ts[k - 1].token, #[trigger] ts[k].token),
    ensures
        norm_scan(ts, i, end) == Ok::<Seq<NormToken>, crate::parser::ParseError>(
            Seq::new((end - i) as nat, |k: int| as_norm(ts[i + k].token)),
        ),
    decreases end - i,
{
    if i == end {
        assert(Seq::new((end - i) as nat, |k: int| as_norm(ts[i + k].token)) =~= Seq::<NormToken>::empty());
    } else {
        lemma_scan_passes(ts, i + 1, end);
        assert(norm_step(ts[i - 1], ts[i]) == Ok::<Seq<NormToken>, crate::parser::ParseError>(
            seq![as_norm(ts[i].token)],
        ));
        assert(seq![as_norm(ts[i].token)] + Seq::new((end - i - 1) as nat, |k: int| as_norm(ts[i + 1 + k].token))
            =~= Seq::new((end - i) as nat, |k: int| as_norm(ts[i + k].token)));
    }
}

} // verus!
