//! The grammar as a relation between token sequences and trees, and the
//! proofs that the parser builds exactly the trees that the grammar derives:
//! it is sound, it is complete, and it takes as many tokens as it can.

use crate::ast::{is_numeral, Expr};
use crate::lexer::{
    is_arithmetic_text, lemma_arithmetic_text_lexes, stream_error, token_stream, TokenKind,
    TokenView,
};
use crate::parser::{
    closing, expected_kind_text, expected_primary_text, expression, expression_rest, factor,
    is_additive, is_multiplicative, lemma_expression_rest_sound, lemma_expression_sound,
    lemma_factor_sound, lemma_primary_sound, lemma_term_rest_sound, lemma_term_sound, operator_of,
    parsed, primary, term, term_rest, ErrorView, Outcome,
};
use vstd::prelude::*;

verus! {

/// `Primary <- Number | '(' Expression ')'`: the tokens `w`, all of them, are
/// a primary with the tree `e`.
pub open spec fn derives_primary(w: Seq<TokenView>, e: Expr) -> bool
    decreases w.len(), 0int,
{
    ||| (w.len() == 1 && w[0].kind == TokenKind::Number && is_numeral(w[0].spelling) && e
        == Expr::Number(w[0].spelling))
    ||| (w.len() >= 2 && w[0].kind == TokenKind::LeftParen && w[w.len() - 1].kind
        == TokenKind::RightParen && derives_expression(w.subrange(1, w.len() - 1), e))
}

/// `Factor <- ('+' | '-') Primary | Primary`
pub open spec fn derives_factor(w: Seq<TokenView>, e: Expr) -> bool
    decreases w.len(), 1int,
{
    ||| derives_primary(w, e)
    ||| (w.len() >= 1 && is_additive(w[0].kind) && match e {
        Expr::UnaryExpr { op, rhs } => Some(op) == operator_of(w[0].kind) && derives_primary(
            w.skip(1),
            *rhs,
        ),
        _ => false,
    })
}

/// `Term <- Factor (('*' | '/') Factor)*`, grouped to the left: a term is a
/// factor, or a term, an operator and a factor.
pub open spec fn derives_term(w: Seq<TokenView>, e: Expr) -> bool
    decreases w.len(), 2int,
{
    ||| derives_factor(w, e)
    ||| match e {
        Expr::BinaryExpr { lhs, op, rhs } => exists|k: int|
            0 <= k < w.len() && is_multiplicative((#[trigger] w[k]).kind) && Some(op)
                == operator_of(w[k].kind) && derives_term(w.subrange(0, k), *lhs) && derives_factor(
                w.subrange(k + 1, w.len() as int),
                *rhs,
            ),
        _ => false,
    }
}

/// `Expression <- Term (('+' | '-') Term)*`, grouped to the left: an
/// expression is a term, or an expression, an operator and a term.
pub open spec fn derives_expression(w: Seq<TokenView>, e: Expr) -> bool
    decreases w.len(), 3int,
{
    ||| derives_term(w, e)
    ||| match e {
        Expr::BinaryExpr { lhs, op, rhs } => exists|k: int|
            0 <= k < w.len() && is_additive((#[trigger] w[k]).kind) && Some(op) == operator_of(
                w[k].kind,
            ) && derives_expression(w.subrange(0, k), *lhs) && derives_term(
                w.subrange(k + 1, w.len() as int),
                *rhs,
            ),
        _ => false,
    }
}

/// The tokens that a rule has passed over: those of `toks` before what is
/// left.
pub open spec fn consumed(toks: Seq<TokenView>, o: Outcome) -> Seq<TokenView> {
    toks.take(toks.len() - o.rest.len())
}

/// A primary that the parser builds is one that the grammar derives from the
/// tokens that were passed over.
pub proof fn lemma_primary_derives(toks: Seq<TokenView>)
    ensures
        primary(toks).result matches Ok(e) ==> derives_primary(consumed(toks, primary(toks)), e),
    decreases toks.len(), 0int,
{
    let o = primary(toks);
    lemma_primary_sound(toks);
    if let Ok(e) = o.result {
        let w = consumed(toks, o);
        if toks[0].kind == TokenKind::LeftParen {
            let inner = expression(toks.skip(1));
            lemma_expression_sound(toks.skip(1));
            lemma_expression_derives(toks.skip(1));
            assert(closing(inner.rest, TokenKind::RightParen).0 is Ok);
            assert(o.rest == inner.rest.skip(1));
            assert(w.subrange(1, w.len() - 1) =~= consumed(toks.skip(1), inner));
            assert(w[w.len() - 1] == inner.rest[0]);
        }
    }
}

/// A factor that the parser builds is one that the grammar derives.
pub proof fn lemma_factor_derives(toks: Seq<TokenView>)
    ensures
        factor(toks).result matches Ok(e) ==> derives_factor(consumed(toks, factor(toks)), e),
    decreases toks.len(), 1int,
{
    let o = factor(toks);
    lemma_factor_sound(toks);
    if let Ok(e) = o.result {
        let w = consumed(toks, o);
        if is_additive(toks[0].kind) {
            let operand = primary(toks.skip(1));
            lemma_primary_sound(toks.skip(1));
            lemma_primary_derives(toks.skip(1));
            assert(w.skip(1) =~= consumed(toks.skip(1), operand));
        } else {
            lemma_primary_derives(toks);
        }
    }
}

/// The tail of a term extends a derived term to a derived term.
pub proof fn lemma_term_rest_derives(w0: Seq<TokenView>, lhs: Expr, toks: Seq<TokenView>)
    requires
        derives_term(w0, lhs),
        lhs.wf(),
    ensures
        term_rest(lhs, toks).result matches Ok(e) ==> derives_term(
            w0 + consumed(toks, term_rest(lhs, toks)),
            e,
        ),
    decreases toks.len(), 2int,
{
    let o = term_rest(lhs, toks);
    lemma_term_rest_sound(lhs, toks);
    if toks.len() > 0 && is_multiplicative(toks[0].kind) {
        let right = factor(toks.skip(1));
        lemma_factor_sound(toks.skip(1));
        lemma_factor_derives(toks.skip(1));
        if let Ok(rhs) = right.result {
            let op = operator_of(toks[0].kind)->Some_0;
            let folded = Expr::BinaryExpr { lhs: Box::new(lhs), op, rhs: Box::new(rhs) };
            let c = consumed(toks.skip(1), right);
            let w1 = w0 + seq![toks[0]] + c;
            let k = w0.len() as int;
            assert(w1.subrange(0, k) =~= w0);
            assert(w1.subrange(k + 1, w1.len() as int) =~= c);
            assert(w1[k] == toks[0]);
            assert(derives_term(w1.subrange(0, k), lhs));
            assert(derives_factor(w1.subrange(k + 1, w1.len() as int), rhs));
            assert(derives_term(w1, folded));
            lemma_term_rest_sound(folded, right.rest);
            lemma_term_rest_derives(w1, folded, right.rest);
            assert(right.rest =~= toks.skip(toks.len() - right.rest.len()));
            assert(w1 + consumed(right.rest, o) =~= w0 + consumed(toks, o));
        }
    } else {
        assert(w0 + consumed(toks, o) =~= w0);
    }
}

/// A term that the parser builds is one that the grammar derives.
pub proof fn lemma_term_derives(toks: Seq<TokenView>)
    ensures
        term(toks).result matches Ok(e) ==> derives_term(consumed(toks, term(toks)), e),
    decreases toks.len(), 3int,
{
    let o = term(toks);
    let first = factor(toks);
    lemma_factor_sound(toks);
    lemma_factor_derives(toks);
    if let Ok(lhs) = first.result {
        let w0 = consumed(toks, first);
        lemma_term_rest_sound(lhs, first.rest);
        lemma_term_rest_derives(w0, lhs, first.rest);
        assert(w0 + consumed(first.rest, o) =~= consumed(toks, o));
    }
}

/// The tail of an expression extends a derived expression to a derived
/// expression.
pub proof fn lemma_expression_rest_derives(w0: Seq<TokenView>, lhs: Expr, toks: Seq<TokenView>)
    requires
        derives_expression(w0, lhs),
        lhs.wf(),
    ensures
        expression_rest(lhs, toks).result matches Ok(e) ==> derives_expression(
            w0 + consumed(toks, expression_rest(lhs, toks)),
            e,
        ),
    decreases toks.len(), 4int,
{
    let o = expression_rest(lhs, toks);
    lemma_expression_rest_sound(lhs, toks);
    if toks.len() > 0 && is_additive(toks[0].kind) {
        let right = term(toks.skip(1));
        lemma_term_sound(toks.skip(1));
        lemma_term_derives(toks.skip(1));
        if let Ok(rhs) = right.result {
            let op = operator_of(toks[0].kind)->Some_0;
            let folded = Expr::BinaryExpr { lhs: Box::new(lhs), op, rhs: Box::new(rhs) };
            let c = consumed(toks.skip(1), right);
            let w1 = w0 + seq![toks[0]] + c;
            let k = w0.len() as int;
            assert(w1.subrange(0, k) =~= w0);
            assert(w1.subrange(k + 1, w1.len() as int) =~= c);
            assert(w1[k] == toks[0]);
            assert(derives_expression(w1.subrange(0, k), lhs));
            assert(derives_term(w1.subrange(k + 1, w1.len() as int), rhs));
            assert(derives_expression(w1, folded));
            lemma_expression_rest_sound(folded, right.rest);
            lemma_expression_rest_derives(w1, folded, right.rest);
            assert(right.rest =~= toks.skip(toks.len() - right.rest.len()));
            assert(w1 + consumed(right.rest, o) =~= w0 + consumed(toks, o));
        }
    } else {
        assert(w0 + consumed(toks, o) =~= w0);
    }
}

/// The parser is sound for the grammar: an expression that it builds is one
/// that the grammar derives from the tokens that were passed over.
pub proof fn lemma_expression_derives(toks: Seq<TokenView>)
    ensures
        expression(toks).result matches Ok(e) ==> derives_expression(
            consumed(toks, expression(toks)),
            e,
        ),
    decreases toks.len(), 5int,
{
    let o = expression(toks);
    let first = term(toks);
    lemma_term_sound(toks);
    lemma_term_derives(toks);
    if let Ok(lhs) = first.result {
        let w0 = consumed(toks, first);
        lemma_expression_rest_sound(lhs, first.rest);
        lemma_expression_rest_derives(w0, lhs, first.rest);
        assert(w0 + consumed(first.rest, o) =~= consumed(toks, o));
    }
}

/// A term ends where no `*` or `/` follows.
pub proof fn lemma_term_rest_stops(lhs: Expr, toks: Seq<TokenView>)
    ensures
        term_rest(lhs, toks).result is Ok ==> term_rest(lhs, toks).rest.len() == 0
            || !is_multiplicative(term_rest(lhs, toks).rest[0].kind),
    decreases toks.len(),
{
    if toks.len() > 0 && is_multiplicative(toks[0].kind) {
        let right = factor(toks.skip(1));
        lemma_factor_sound(toks.skip(1));
        if let Ok(rhs) = right.result {
            let op = operator_of(toks[0].kind)->Some_0;
            let folded = Expr::BinaryExpr { lhs: Box::new(lhs), op, rhs: Box::new(rhs) };
            lemma_term_rest_stops(folded, right.rest);
        }
    }
}

/// An expression ends where no operator follows, given that its first
/// operand ended so.
pub proof fn lemma_expression_rest_stops(lhs: Expr, toks: Seq<TokenView>)
    requires
        toks.len() == 0 || !is_multiplicative(toks[0].kind),
    ensures
        expression_rest(lhs, toks).result is Ok ==> expression_rest(lhs, toks).rest.len() == 0 || !(
        is_additive(expression_rest(lhs, toks).rest[0].kind) || is_multiplicative(
            expression_rest(lhs, toks).rest[0].kind,
        )),
    decreases toks.len(),
{
    if toks.len() > 0 && is_additive(toks[0].kind) {
        let right = term(toks.skip(1));
        lemma_term_sound(toks.skip(1));
        lemma_factor_sound(toks.skip(1));
        if let Ok(rhs) = right.result {
            let first = factor(toks.skip(1));
            lemma_term_rest_stops(first.result->Ok_0, first.rest);
            let op = operator_of(toks[0].kind)->Some_0;
            let folded = Expr::BinaryExpr { lhs: Box::new(lhs), op, rhs: Box::new(rhs) };
            lemma_expression_rest_stops(folded, right.rest);
        }
    }
}

/// The parser takes as much as it can: after an expression either no token
/// is left or the next one is no operator.
pub proof fn lemma_expression_stops(toks: Seq<TokenView>)
    ensures
        expression(toks).result is Ok ==> expression(toks).rest.len() == 0 || !(is_additive(
            expression(toks).rest[0].kind,
        ) || is_multiplicative(expression(toks).rest[0].kind)),
{
    let first = term(toks);
    lemma_term_sound(toks);
    lemma_factor_sound(toks);
    if let Ok(lhs) = first.result {
        let head = factor(toks);
        lemma_term_rest_stops(head.result->Ok_0, head.rest);
        lemma_expression_rest_stops(lhs, first.rest);
    }
}

/// Two signs in a row are rejected: the second stands where a primary has to
/// start, and the error names it.
pub proof fn lemma_double_sign_rejected(toks: Seq<TokenView>)
    requires
        toks.len() >= 2,
        is_additive(toks[0].kind),
        is_additive(toks[1].kind),
    ensures
        expression(toks).result == Err::<Expr, ErrorView>(
            ErrorView::Parse(expected_primary_text(toks[1].kind)),
        ),
{
    assert(toks.skip(1)[0] == toks[1]);
    assert(primary(toks.skip(1)).result is Err);
    assert(factor(toks).result is Err);
    assert(term(toks).result is Err);
}

/// A number whose spelling is no numeral is rejected with that spelling,
/// wherever an expression starts with it.
pub proof fn lemma_malformed_numeral_rejected(toks: Seq<TokenView>)
    requires
        toks.len() >= 1,
        toks[0].kind == TokenKind::Number,
        !is_numeral(toks[0].spelling),
    ensures
        expression(toks).result == Err::<Expr, ErrorView>(
            ErrorView::InvalidNumber(toks[0].spelling),
        ),
{
    assert(primary(toks).result is Err);
    assert(factor(toks).result is Err);
    assert(term(toks).result is Err);
}

/// A parenthesis that is never closed is rejected: where the tokens end
/// after the expression inside, the error names `RightParen` as expected and
/// `Eof` as found.
pub proof fn lemma_unclosed_parenthesis_rejected(toks: Seq<TokenView>)
    requires
        toks.len() >= 1,
        toks[0].kind == TokenKind::LeftParen,
        expression(toks.skip(1)).result is Ok,
        expression(toks.skip(1)).rest.len() == 0,
    ensures
        expression(toks).result == Err::<Expr, ErrorView>(
            ErrorView::Parse(expected_kind_text(TokenKind::RightParen, TokenKind::Eof)),
        ),
{
    assert(primary(toks).result is Err);
    assert(factor(toks).result is Err);
    assert(term(toks).result is Err);
}

/// What may follow a term: the end of the tokens, or a token other than `*`
/// and `/`.
pub open spec fn follows_term(x: Seq<TokenView>) -> bool {
    x.len() == 0 || !is_multiplicative(x[0].kind)
}

/// What may follow an expression: the end of the tokens, or a token that is
/// no operator.
pub open spec fn follows_expression(x: Seq<TokenView>) -> bool {
    x.len() == 0 || !(is_additive(x[0].kind) || is_multiplicative(x[0].kind))
}

/// A derived primary is parsed as it is derived, whatever follows it.
pub proof fn lemma_primary_complete(w: Seq<TokenView>, e: Expr, x: Seq<TokenView>)
    requires
        derives_primary(w, e),
    ensures
        primary(w + x) == (Outcome { result: Ok(e), rest: x }),
    decreases w.len(), 0int,
{
    let toks = w + x;
    assert(toks[0] == w[0]);
    if w.len() == 1 {
        assert(toks.skip(1) =~= x);
    } else {
        let inner = w.subrange(1, w.len() - 1);
        let after = seq![w[w.len() - 1]] + x;
        assert(after[0] == w[w.len() - 1]);
        lemma_expression_complete(inner, e, after);
        assert(toks.skip(1) =~= inner + after);
        assert(after.skip(1) =~= x);
    }
}

/// A derived factor is parsed as it is derived, whatever follows it.
pub proof fn lemma_factor_complete(w: Seq<TokenView>, e: Expr, x: Seq<TokenView>)
    requires
        derives_factor(w, e),
    ensures
        factor(w + x) == (Outcome { result: Ok(e), rest: x }),
    decreases w.len(), 1int,
{
    let toks = w + x;
    if derives_primary(w, e) {
        assert(toks[0] == w[0]);
        lemma_primary_complete(w, e, x);
    } else {
        assert(toks[0] == w[0]);
        match e {
            Expr::UnaryExpr { op, rhs } => {
                lemma_primary_complete(w.skip(1), *rhs, x);
                assert(toks.skip(1) =~= w.skip(1) + x);
            },
            _ => {},
        }
    }
}

/// A derived term starts with a factor, and parsing the tail of the term
/// after that factor leads to the term itself, whatever follows it.
pub proof fn lemma_term_split(w: Seq<TokenView>, e: Expr) -> (r: (
    Seq<TokenView>,
    Expr,
    Seq<TokenView>,
))
    requires
        derives_term(w, e),
    ensures
        w == r.0 + r.2,
        derives_factor(r.0, r.1),
        forall|x: Seq<TokenView>| #[trigger] term_rest(r.1, r.2 + x) == term_rest(e, x),
    decreases w.len(), 2int,
{
    if derives_factor(w, e) {
        let tail = Seq::<TokenView>::empty();
        assert(w =~= w + tail);
        assert forall|x: Seq<TokenView>| #[trigger] term_rest(e, tail + x) == term_rest(e, x) by {
            assert(tail + x =~= x);
        }
        (w, e, tail)
    } else {
        match e {
            Expr::BinaryExpr { lhs, op, rhs } => {
                let k = choose|k: int|
                    0 <= k < w.len() && is_multiplicative((#[trigger] w[k]).kind) && Some(op)
                        == operator_of(w[k].kind) && derives_term(w.subrange(0, k), *lhs)
                        && derives_factor(w.subrange(k + 1, w.len() as int), *rhs);
                let wl = w.subrange(0, k);
                let wr = w.subrange(k + 1, w.len() as int);
                let (w0, f0, tl) = lemma_term_split(wl, *lhs);
                let tail = tl + seq![w[k]] + wr;
                assert(w =~= w0 + tail) by {
                    assert(wl =~= w0 + tl);
                    assert(w =~= wl + seq![w[k]] + wr);
                }
                assert forall|x: Seq<TokenView>| #[trigger]
                    term_rest(f0, tail + x) == term_rest(e, x) by {
                    let x1 = seq![w[k]] + wr + x;
                    assert(tail + x =~= tl + x1);
                    assert(term_rest(f0, tl + x1) == term_rest(*lhs, x1));
                    lemma_factor_complete(wr, *rhs, x);
                    assert(x1.skip(1) =~= wr + x);
                    assert(x1[0] == w[k]);
                    assert(term_rest(*lhs, x1) == term_rest(e, x));
                }
                (w0, f0, tail)
            },
            _ => (w, e, Seq::empty()),
        }
    }
}

/// A derived term is parsed as it is derived, given that neither `*` nor
/// `/` follows it.
pub proof fn lemma_term_complete(w: Seq<TokenView>, e: Expr, x: Seq<TokenView>)
    requires
        derives_term(w, e),
        follows_term(x),
    ensures
        term(w + x) == (Outcome { result: Ok(e), rest: x }),
    decreases w.len(), 3int,
{
    let (w0, f0, tail) = lemma_term_split(w, e);
    lemma_factor_complete(w0, f0, tail + x);
    assert(w + x =~= w0 + (tail + x));
    assert(term_rest(f0, tail + x) == term_rest(e, x));
}

/// A derived expression starts with a term, and parsing the tail of the
/// expression after that term leads to the expression itself.
pub proof fn lemma_expression_split(w: Seq<TokenView>, e: Expr) -> (r: (
    Seq<TokenView>,
    Expr,
    Seq<TokenView>,
))
    requires
        derives_expression(w, e),
    ensures
        w == r.0 + r.2,
        derives_term(r.0, r.1),
        r.2.len() == 0 || is_additive(r.2[0].kind),
        forall|x: Seq<TokenView>|
            follows_term(x) ==> #[trigger] expression_rest(r.1, r.2 + x) == expression_rest(e, x),
    decreases w.len(), 4int,
{
    if derives_term(w, e) {
        let tail = Seq::<TokenView>::empty();
        assert(w =~= w + tail);
        assert forall|x: Seq<TokenView>| #[trigger]
            expression_rest(e, tail + x) == expression_rest(e, x) by {
            assert(tail + x =~= x);
        }
        (w, e, tail)
    } else {
        match e {
            Expr::BinaryExpr { lhs, op, rhs } => {
                let k = choose|k: int|
                    0 <= k < w.len() && is_additive((#[trigger] w[k]).kind) && Some(op)
                        == operator_of(w[k].kind) && derives_expression(w.subrange(0, k), *lhs)
                        && derives_term(w.subrange(k + 1, w.len() as int), *rhs);
                let wl = w.subrange(0, k);
                let wr = w.subrange(k + 1, w.len() as int);
                let (w0, t0, tl) = lemma_expression_split(wl, *lhs);
                let tail = tl + seq![w[k]] + wr;
                assert(w =~= w0 + tail) by {
                    assert(wl =~= w0 + tl);
                    assert(w =~= wl + seq![w[k]] + wr);
                }
                assert(tail[0] == if tl.len() > 0 {
                    tl[0]
                } else {
                    w[k]
                });
                assert forall|x: Seq<TokenView>| follows_term(x) implies #[trigger]
                    expression_rest(t0, tail + x) == expression_rest(e, x) by {
                    let x1 = seq![w[k]] + wr + x;
                    assert(x1[0] == w[k]);
                    assert(follows_term(x1));
                    assert(tail + x =~= tl + x1);
                    assert(expression_rest(t0, tl + x1) == expression_rest(*lhs, x1));
                    lemma_term_complete(wr, *rhs, x);
                    assert(x1.skip(1) =~= wr + x);
                    assert(expression_rest(*lhs, x1) == expression_rest(e, x));
                }
                (w0, t0, tail)
            },
            _ => (w, e, Seq::empty()),
        }
    }
}

/// The parser is complete for the grammar: an expression that the grammar
/// derives from the first tokens is the one that the parser builds, and it
/// leaves what follows, given that no operator follows.
pub proof fn lemma_expression_complete(w: Seq<TokenView>, e: Expr, x: Seq<TokenView>)
    requires
        derives_expression(w, e),
        follows_expression(x),
    ensures
        expression(w + x) == (Outcome { result: Ok(e), rest: x }),
    decreases w.len(), 5int,
{
    let (w0, t0, tail) = lemma_expression_split(w, e);
    assert(follows_term(tail + x)) by {
        if tail.len() > 0 {
            assert((tail + x)[0] == tail[0]);
        } else {
            assert(tail + x =~= x);
        }
    }
    lemma_term_complete(w0, t0, tail + x);
    assert(w + x =~= w0 + (tail + x));
    assert(expression_rest(t0, tail + x) == expression_rest(e, x));
}

/// On arithmetic text the lexer never fails, so a parse from its start gives
/// what the grammar gives.
pub proof fn lemma_arithmetic_text_parses_by_grammar(s: Seq<char>)
    requires
        is_arithmetic_text(s),
    ensures
        parsed(token_stream(s, 0), stream_error(s, 0)) == expression(token_stream(s, 0)).result,
{
    lemma_arithmetic_text_lexes(s);
}

} // verus!
