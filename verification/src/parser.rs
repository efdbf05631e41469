//! Recursive-descent parsing of a token sequence into an expression tree.
//!
//! The grammar, from the loosest binding to the tightest:
//!
//! ```text
//! Expression <- Term (('+' | '-') Term)*
//! Term       <- Factor (('*' | '/') Factor)*
//! Factor     <- ('+' | '-') Primary | Primary
//! Primary    <- Number | '(' Expression ')'
//! ```
//!
//! Both binary levels associate to the left. A sign applies to one primary
//! only, and two signs in a row are an error. Tokens that follow a complete
//! expression are left unread. Where the lexer fails on the token that the
//! parser asks for, the parse fails with the lexer's error.

use crate::ast::{check_numeral, is_numeral, Ast, Expr, Op};
use crate::grammar::{
    consumed, derives_expression, lemma_expression_derives, lemma_expression_stops,
};
use crate::lexer;
use crate::lexer::{
    lemma_stream_error_kept, lemma_stream_stays_ended, stream_error, token_stream, Lexer, Token,
    TokenKind, TokenView,
};
use vstd::prelude::*;
use vstd::string::*;

verus! {

/// Why a parse failed.
#[derive(Debug, Clone, PartialEq)]
pub enum Error {
    /// The tokens ended where an expression had to start.
    NoMoreTokens,
    /// A token of another kind stands where the grammar asks for one; the
    /// text names what was expected and what was found.
    Parse(String),
    /// A number's spelling is no numeral; it holds the spelling.
    InvalidNumber(String),
    /// The lexer failed where the parser asked it for a token.
    Lexer(lexer::Error),
}

/// The mathematical value of an [`Error`].
pub ghost enum ErrorView {
    NoMoreTokens,
    Parse(Seq<char>),
    InvalidNumber(Seq<char>),
    Lexer(lexer::Error),
}

impl View for Error {
    type V = ErrorView;

    open spec fn view(&self) -> ErrorView {
        match self {
            Error::NoMoreTokens => ErrorView::NoMoreTokens,
            Error::Parse(text) => ErrorView::Parse(text@),
            Error::InvalidNumber(spelling) => ErrorView::InvalidNumber(spelling@),
            Error::Lexer(err) => ErrorView::Lexer(*err),
        }
    }
}

impl ErrorView {
    /// The error in words.
    pub open spec fn text(self) -> Seq<char> {
        match self {
            ErrorView::NoMoreTokens => "ran out of tokens while parsing"@,
            ErrorView::Parse(text) => "Parsing error: "@ + text,
            ErrorView::InvalidNumber(_) => "invalid float literal"@,
            ErrorView::Lexer(err) => err.text(),
        }
    }
}

impl Error {
    /// The error in words.
    pub fn message(&self) -> (text: String)
        ensures
            text@ == self@.text(),
    {
        match self {
            Error::NoMoreTokens => String::from_str("ran out of tokens while parsing"),
            Error::Parse(text) => String::from_str("Parsing error: ").concat(text.as_str()),
            Error::InvalidNumber(_) => String::from_str("invalid float literal"),
            Error::Lexer(err) => err.message(),
        }
    }
}

/// The name of a token kind, as diagnostics write it.
pub open spec fn kind_name(kind: TokenKind) -> Seq<char> {
    match kind {
        TokenKind::Asterisk => "Asterisk"@,
        TokenKind::Eof => "Eof"@,
        TokenKind::LeftParen => "LeftParen"@,
        TokenKind::Minus => "Minus"@,
        TokenKind::Number => "Number"@,
        TokenKind::Plus => "Plus"@,
        TokenKind::RightParen => "RightParen"@,
        TokenKind::Slash => "Slash"@,
    }
}

/// The diagnostic for a token of kind `found` where `expected` had to stand.
pub open spec fn expected_kind_text(expected: TokenKind, found: TokenKind) -> Seq<char> {
    "Expected "@ + kind_name(expected) + ", but found "@ + kind_name(found)
}

/// The diagnostic for a token of kind `found` where an operator had to stand.
pub open spec fn expected_operator_text(found: TokenKind) -> Seq<char> {
    "Expected an operator, but found "@ + kind_name(found)
}

/// The diagnostic for a token of kind `found` where a primary had to start.
pub open spec fn expected_primary_text(found: TokenKind) -> Seq<char> {
    "Expected number or parenthesised expression. Found: "@ + kind_name(found)
}

/// The operator that a token kind stands for, if any.
pub open spec fn operator_of(kind: TokenKind) -> Option<Op> {
    match kind {
        TokenKind::Plus => Some(Op::Add),
        TokenKind::Minus => Some(Op::Sub),
        TokenKind::Asterisk => Some(Op::Mul),
        TokenKind::Slash => Some(Op::Div),
        _ => None,
    }
}

/// Whether a token of this kind continues an expression: `+` or `-`.
pub open spec fn is_additive(kind: TokenKind) -> bool {
    kind == TokenKind::Plus || kind == TokenKind::Minus
}

/// Whether a token of this kind continues a term: `*` or `/`.
pub open spec fn is_multiplicative(kind: TokenKind) -> bool {
    kind == TokenKind::Asterisk || kind == TokenKind::Slash
}

/// What parsing one grammar rule gives: the tree or the error, and the tokens
/// that are left, the first of them being the current one.
pub ghost struct Outcome {
    pub result: Result<Expr, ErrorView>,
    pub rest: Seq<TokenView>,
}

/// `Number`: the current token's spelling has to be a numeral.
pub open spec fn number(toks: Seq<TokenView>) -> Outcome {
    if toks.len() == 0 {
        Outcome { result: Err(ErrorView::NoMoreTokens), rest: toks }
    } else if is_numeral(toks[0].spelling) {
        Outcome { result: Ok(Expr::Number(toks[0].spelling)), rest: toks.skip(1) }
    } else {
        Outcome { result: Err(ErrorView::InvalidNumber(toks[0].spelling)), rest: toks }
    }
}

/// A token of kind `expected` has to stand first, and is passed over. Where
/// the tokens have ended, `Eof` is what was found.
pub open spec fn closing(toks: Seq<TokenView>, expected: TokenKind) -> (Result<(), ErrorView>, Seq<
    TokenView,
>) {
    if toks.len() == 0 {
        (Err(ErrorView::Parse(expected_kind_text(expected, TokenKind::Eof))), toks)
    } else if toks[0].kind == expected {
        (Ok(()), toks.skip(1))
    } else {
        (Err(ErrorView::Parse(expected_kind_text(expected, toks[0].kind))), toks)
    }
}

/// `Primary <- Number | '(' Expression ')'`
pub open spec fn primary(toks: Seq<TokenView>) -> Outcome
    decreases toks.len(), 0int,
{
    if toks.len() == 0 {
        Outcome { result: Err(ErrorView::NoMoreTokens), rest: toks }
    } else if toks[0].kind == TokenKind::Number {
        number(toks)
    } else if toks[0].kind == TokenKind::LeftParen {
        let inner = expression(toks.skip(1));
        match inner.result {
            Ok(e) => match closing(inner.rest, TokenKind::RightParen) {
                (Ok(_), rest) => Outcome { result: Ok(e), rest },
                (Err(err), rest) => Outcome { result: Err(err), rest },
            },
            Err(_) => inner,
        }
    } else {
        Outcome { result: Err(ErrorView::Parse(expected_primary_text(toks[0].kind))), rest: toks }
    }
}

/// `Factor <- ('+' | '-') Primary | Primary`
pub open spec fn factor(toks: Seq<TokenView>) -> Outcome
    decreases toks.len(), 1int,
{
    if toks.len() == 0 {
        Outcome { result: Err(ErrorView::NoMoreTokens), rest: toks }
    } else if is_additive(toks[0].kind) {
        let operand = primary(toks.skip(1));
        match operand.result {
            Ok(e) => Outcome {
                result: Ok(Expr::UnaryExpr { op: operator_of(toks[0].kind)->Some_0, rhs: Box::new(e) }),
                rest: operand.rest,
            },
            Err(_) => operand,
        }
    } else {
        primary(toks)
    }
}

/// `(('*' | '/') Factor)*` after the left operand `lhs`, folded to the left.
/// (A rule never leaves more tokens than it was given: the test on the
/// lengths is there for the definition's sake and always holds.)
pub open spec fn term_rest(lhs: Expr, toks: Seq<TokenView>) -> Outcome
    decreases toks.len(), 2int,
{
    if toks.len() > 0 && is_multiplicative(toks[0].kind) {
        let right = factor(toks.skip(1));
        match right.result {
            Ok(rhs) if right.rest.len() < toks.len() => term_rest(
                Expr::BinaryExpr {
                    lhs: Box::new(lhs),
                    op: operator_of(toks[0].kind)->Some_0,
                    rhs: Box::new(rhs),
                },
                right.rest,
            ),
            _ => right,
        }
    } else {
        Outcome { result: Ok(lhs), rest: toks }
    }
}

/// `Term <- Factor (('*' | '/') Factor)*`
pub open spec fn term(toks: Seq<TokenView>) -> Outcome
    decreases toks.len(), 3int,
{
    let first = factor(toks);
    match first.result {
        Ok(lhs) if first.rest.len() <= toks.len() => term_rest(lhs, first.rest),
        _ => first,
    }
}

/// `(('+' | '-') Term)*` after the left operand `lhs`, folded to the left.
pub open spec fn expression_rest(lhs: Expr, toks: Seq<TokenView>) -> Outcome
    decreases toks.len(), 4int,
{
    if toks.len() > 0 && is_additive(toks[0].kind) {
        let right = term(toks.skip(1));
        match right.result {
            Ok(rhs) if right.rest.len() < toks.len() => expression_rest(
                Expr::BinaryExpr {
                    lhs: Box::new(lhs),
                    op: operator_of(toks[0].kind)->Some_0,
                    rhs: Box::new(rhs),
                },
                right.rest,
            ),
            _ => right,
        }
    } else {
        Outcome { result: Ok(lhs), rest: toks }
    }
}

/// `Expression <- Term (('+' | '-') Term)*`
pub open spec fn expression(toks: Seq<TokenView>) -> Outcome
    decreases toks.len(), 5int,
{
    let first = term(toks);
    match first.result {
        Ok(lhs) if first.rest.len() <= toks.len() => expression_rest(lhs, first.rest),
        _ => first,
    }
}

/// What a rule leaves is the end of what it was given, and the tree that it
/// builds is well formed.
pub open spec fn sound(o: Outcome, toks: Seq<TokenView>) -> bool {
    &&& o.rest.len() <= toks.len()
    &&& o.rest == toks.skip(toks.len() - o.rest.len())
    &&& (o.result matches Ok(e) ==> e.wf())
}

/// Every primary is sound.
pub proof fn lemma_primary_sound(toks: Seq<TokenView>)
    ensures
        sound(primary(toks), toks),
    decreases toks.len(), 0int,
{
    assert(toks.skip(0) =~= toks);
    if toks.len() > 0 && toks[0].kind == TokenKind::LeftParen {
        lemma_expression_sound(toks.skip(1));
        let inner = expression(toks.skip(1));
        let closed = closing(inner.rest, TokenKind::RightParen).1;
        assert(inner.rest.skip(0) =~= inner.rest);
        assert(inner.rest =~= toks.skip(toks.len() - inner.rest.len()));
        assert(closed =~= toks.skip(toks.len() - closed.len()));
    }
}

/// Every factor is sound.
pub proof fn lemma_factor_sound(toks: Seq<TokenView>)
    ensures
        sound(factor(toks), toks),
    decreases toks.len(), 1int,
{
    assert(toks.skip(0) =~= toks);
    if toks.len() > 0 && is_additive(toks[0].kind) {
        lemma_primary_sound(toks.skip(1));
        let operand = primary(toks.skip(1));
        assert(operand.rest =~= toks.skip(toks.len() - operand.rest.len()));
    } else {
        lemma_primary_sound(toks);
    }
}

/// The tail of a term is sound where its left operand is well formed.
pub proof fn lemma_term_rest_sound(lhs: Expr, toks: Seq<TokenView>)
    requires
        lhs.wf(),
    ensures
        sound(term_rest(lhs, toks), toks),
    decreases toks.len(), 2int,
{
    assert(toks.skip(0) =~= toks);
    if toks.len() > 0 && is_multiplicative(toks[0].kind) {
        lemma_factor_sound(toks.skip(1));
        let right = factor(toks.skip(1));
        assert(right.rest =~= toks.skip(toks.len() - right.rest.len()));
        if let Ok(rhs) = right.result {
            let folded = Expr::BinaryExpr {
                lhs: Box::new(lhs),
                op: operator_of(toks[0].kind)->Some_0,
                rhs: Box::new(rhs),
            };
            lemma_term_rest_sound(folded, right.rest);
            let o = term_rest(folded, right.rest);
            assert(o.rest =~= toks.skip(toks.len() - o.rest.len()));
        }
    }
}

/// Every term is sound.
pub proof fn lemma_term_sound(toks: Seq<TokenView>)
    ensures
        sound(term(toks), toks),
    decreases toks.len(), 3int,
{
    lemma_factor_sound(toks);
    let first = factor(toks);
    if let Ok(lhs) = first.result {
        lemma_term_rest_sound(lhs, first.rest);
        let o = term_rest(lhs, first.rest);
        assert(o.rest =~= toks.skip(toks.len() - o.rest.len()));
    }
}

/// The tail of an expression is sound where its left operand is well formed.
pub proof fn lemma_expression_rest_sound(lhs: Expr, toks: Seq<TokenView>)
    requires
        lhs.wf(),
    ensures
        sound(expression_rest(lhs, toks), toks),
    decreases toks.len(), 4int,
{
    assert(toks.skip(0) =~= toks);
    if toks.len() > 0 && is_additive(toks[0].kind) {
        lemma_term_sound(toks.skip(1));
        let right = term(toks.skip(1));
        assert(right.rest =~= toks.skip(toks.len() - right.rest.len()));
        if let Ok(rhs) = right.result {
            let folded = Expr::BinaryExpr {
                lhs: Box::new(lhs),
                op: operator_of(toks[0].kind)->Some_0,
                rhs: Box::new(rhs),
            };
            lemma_expression_rest_sound(folded, right.rest);
            let o = expression_rest(folded, right.rest);
            assert(o.rest =~= toks.skip(toks.len() - o.rest.len()));
        }
    }
}

/// Every expression is sound: parsing leaves an end of the tokens, and a
/// tree that it builds holds numerals only and signs only in its unary nodes.
pub proof fn lemma_expression_sound(toks: Seq<TokenView>)
    ensures
        sound(expression(toks), toks),
    decreases toks.len(), 5int,
{
    lemma_term_sound(toks);
    let first = term(toks);
    if let Ok(lhs) = first.result {
        lemma_expression_rest_sound(lhs, first.rest);
        let o = expression_rest(lhs, first.rest);
        assert(o.rest =~= toks.skip(toks.len() - o.rest.len()));
    }
}

/// What a parse gives on the tokens `toks`, after which the lexer gives the
/// end of the input (`None`) or fails with `ending`: where the parser comes
/// to the end of the tokens and the lexer failed there, the lexer's error;
/// otherwise what the grammar gives.
pub open spec fn parsed(toks: Seq<TokenView>, ending: Option<lexer::Error>) -> Result<
    Expr,
    ErrorView,
> {
    match ending {
        Some(err) if expression(toks).rest.len() == 0 => Err(ErrorView::Lexer(err)),
        _ => expression(toks).result,
    }
}

/// Whether an executable result is the one that the grammar gives.
pub open spec fn agrees(r: Result<Ast, Error>, o: Result<Expr, ErrorView>) -> bool {
    match (r, o) {
        (Ok(ast), Ok(e)) => ast@ == e,
        (Err(err), Err(ev)) => err@ == ev,
        _ => false,
    }
}

/// The name of a token kind, as diagnostics write it.
pub fn name_of(kind: TokenKind) -> (name: &'static str)
    ensures
        name@ == kind_name(kind),
{
    match kind {
        TokenKind::Asterisk => "Asterisk",
        TokenKind::Eof => "Eof",
        TokenKind::LeftParen => "LeftParen",
        TokenKind::Minus => "Minus",
        TokenKind::Number => "Number",
        TokenKind::Plus => "Plus",
        TokenKind::RightParen => "RightParen",
        TokenKind::Slash => "Slash",
    }
}

/// A parser over the tokens of one lexer, which it asks for one token at a
/// time.
pub struct Parser {
    curr_tok: Option<Token>,
    lex_error: Option<lexer::Error>,
    lexer: Lexer,
}

impl Parser {
    /// The lexer is in a valid state.
    pub closed spec fn wf(&self) -> bool {
        self.lexer.wf()
    }

    /// The tokens that the lexer has not handed out yet: what [`Parser::parse`]
    /// works on.
    pub closed spec fn upcoming(&self) -> Seq<TokenView> {
        token_stream(self.lexer.input(), self.lexer.pos())
    }

    /// The current token, if there is one, and the tokens after it.
    pub closed spec fn remaining(&self) -> Seq<TokenView> {
        match self.curr_tok {
            Some(tok) => seq![tok@] + self.upcoming(),
            None => Seq::empty(),
        }
    }

    /// How the lexer's tokens will end: at the end of the input (`None`) or
    /// at a character that begins no token.
    pub closed spec fn ending(&self) -> Option<lexer::Error> {
        stream_error(self.lexer.input(), self.lexer.pos())
    }

    /// Where there is no current token, none is to come either, and the
    /// error that ended the tokens, if one did, has been kept.
    spec fn settled(&self) -> bool {
        match self.curr_tok {
            Some(_) => self.lex_error is None,
            None => self.upcoming().len() == 0 && self.lex_error == self.ending(),
        }
    }

    /// A parser over what `lexer` has not lexed yet. No token is fetched
    /// before [`Parser::parse`] is called.
    pub fn new(lexer: Lexer) -> (parser: Self)
        requires
            lexer.wf(),
        ensures
            parser.wf(),
            parser.upcoming() == token_stream(lexer.input(), lexer.pos()),
            parser.ending() == stream_error(lexer.input(), lexer.pos()),
            parser.remaining().len() == 0,
    {
        Self { lexer, curr_tok: None, lex_error: None }
    }

    /// Fetches the next token and makes it the current one. Where the lexer
    /// fails there is no current token, and the error is kept.
    fn match_it(&mut self)
        requires
            old(self).wf(),
        ensures
            final(self).wf(),
            final(self).settled(),
            final(self).ending() == old(self).ending(),
            final(self).remaining() == old(self).upcoming(),
            old(self).remaining().len() > 0 ==> final(self).remaining() == old(
                self,
            ).remaining().skip(1),
    {
        proof {
            self.lexer.lemma_pos_in_bounds();
            lemma_stream_error_kept(self.lexer.input(), self.lexer.pos());
            if self.upcoming().len() == 0 {
                lemma_stream_stays_ended(self.lexer.input(), self.lexer.pos());
            }
            if self.remaining().len() > 0 {
                assert(self.remaining().skip(1) =~= self.upcoming());
            }
        }
        match self.lexer.next_token() {
            Ok(tok) => {
                self.lex_error = None;
                self.curr_tok = tok;
            },
            Err(err) => {
                self.lex_error = Some(err);
                self.curr_tok = None;
            },
        }
    }

    /// The kind of the current token, if there is one.
    fn current_kind(&self) -> (kind: Option<TokenKind>)
        ensures
            kind == if self.remaining().len() > 0 {
                Some(self.remaining()[0].kind)
            } else {
                None
            },
    {
        match &self.curr_tok {
            Some(tok) => Some(tok.kind),
            None => None,
        }
    }

    /// Passes over the current token if it is of the expected kind, and
    /// fails otherwise, naming both kinds.
    fn match_kind(&mut self, expected_kind: TokenKind) -> (r: Result<(), Error>)
        requires
            old(self).wf(),
            old(self).settled(),
        ensures
            final(self).wf(),
            final(self).settled(),
            final(self).ending() == old(self).ending(),
            final(self).remaining() == closing(old(self).remaining(), expected_kind).1,
            match closing(old(self).remaining(), expected_kind).0 {
                Ok(_) => r is Ok,
                Err(ev) => r is Err && r->Err_0@ == ev,
            },
    {
        let found = match self.current_kind() {
            Some(kind) => kind,
            None => TokenKind::Eof,
        };
        if self.curr_tok.is_some() && found == expected_kind {
            self.match_it();
            Ok(())
        } else {
            let text = String::from_str("Expected ").concat(name_of(expected_kind)).concat(
                ", but found ",
            ).concat(name_of(found));
            Err(Error::Parse(text))
        }
    }

    /// `Number`: builds a leaf from the current token and passes over it.
    fn parse_number(&mut self) -> (r: Result<Ast, Error>)
        requires
            old(self).wf(),
            old(self).settled(),
        ensures
            final(self).wf(),
            final(self).settled(),
            final(self).ending() == old(self).ending(),
            final(self).remaining() == number(old(self).remaining()).rest,
            agrees(r, number(old(self).remaining()).result),
    {
        match &self.curr_tok {
            Some(tok) => {
                let spelling = tok.spelling.clone();
                if check_numeral(spelling.as_str()) {
                    self.match_it();
                    Ok(Ast::Number(spelling))
                } else {
                    Err(Error::InvalidNumber(spelling))
                }
            },
            None => Err(Error::NoMoreTokens),
        }
    }

    /// Reads the current token as an operator and passes over it.
    fn parse_operator(&mut self) -> (r: Result<Op, Error>)
        requires
            old(self).wf(),
            old(self).settled(),
        ensures
            final(self).wf(),
            final(self).settled(),
            final(self).ending() == old(self).ending(),
            old(self).remaining().len() == 0 ==> r is Err && r->Err_0@ == ErrorView::NoMoreTokens
                && final(self).remaining() == old(self).remaining(),
            old(self).remaining().len() > 0 ==> match operator_of(old(self).remaining()[0].kind) {
                Some(op) => r == Ok::<Op, Error>(op) && final(self).remaining() == old(
                    self,
                ).remaining().skip(1),
                None => r is Err && r->Err_0@ == ErrorView::Parse(
                    expected_operator_text(old(self).remaining()[0].kind),
                ) && final(self).remaining() == old(self).remaining(),
            },
    {
        match self.current_kind() {
            Some(kind) => {
                let op = match kind {
                    TokenKind::Plus => Op::Add,
                    TokenKind::Minus => Op::Sub,
                    TokenKind::Asterisk => Op::Mul,
                    TokenKind::Slash => Op::Div,
                    _ => {
                        let text = String::from_str("Expected an operator, but found ").concat(
                            name_of(kind),
                        );
                        return Err(Error::Parse(text));
                    },
                };
                self.match_it();
                Ok(op)
            },
            None => Err(Error::NoMoreTokens),
        }
    }

    /// `Primary <- Number | '(' Expression ')'`
    fn parse_primary(&mut self) -> (r: Result<Ast, Error>)
        requires
            old(self).wf(),
            old(self).settled(),
        ensures
            final(self).wf(),
            final(self).settled(),
            final(self).ending() == old(self).ending(),
            final(self).remaining() == primary(old(self).remaining()).rest,
            agrees(r, primary(old(self).remaining()).result),
        decreases old(self).remaining().len(), 0int,
    {
        match self.current_kind() {
            Some(TokenKind::Number) => self.parse_number(),
            Some(TokenKind::LeftParen) => {
                self.match_it();
                let e = match self.parse_expression() {
                    Ok(e) => e,
                    Err(err) => {
                        return Err(err);
                    },
                };
                match self.match_kind(TokenKind::RightParen) {
                    Ok(_) => Ok(e),
                    Err(err) => Err(err),
                }
            },
            Some(kind) => {
                let text = String::from_str(
                    "Expected number or parenthesised expression. Found: ",
                ).concat(name_of(kind));
                Err(Error::Parse(text))
            },
            None => Err(Error::NoMoreTokens),
        }
    }

    /// `Factor <- ('+' | '-') Primary | Primary`
    fn parse_factor(&mut self) -> (r: Result<Ast, Error>)
        requires
            old(self).wf(),
            old(self).settled(),
        ensures
            final(self).wf(),
            final(self).settled(),
            final(self).ending() == old(self).ending(),
            final(self).remaining() == factor(old(self).remaining()).rest,
            agrees(r, factor(old(self).remaining()).result),
        decreases old(self).remaining().len(), 1int,
    {
        match self.current_kind() {
            Some(TokenKind::Plus) | Some(TokenKind::Minus) => {
                let op = match self.parse_operator() {
                    Ok(op) => op,
                    Err(err) => {
                        return Err(err);
                    },
                };
                match self.parse_primary() {
                    Ok(t) => Ok(Ast::UnaryExpr { op, rhs: Box::new(t) }),
                    Err(err) => Err(err),
                }
            },
            Some(_) => self.parse_primary(),
            None => Err(Error::NoMoreTokens),
        }
    }

    /// `Term <- Factor (('*' | '/') Factor)*`
    fn parse_term(&mut self) -> (r: Result<Ast, Error>)
        requires
            old(self).wf(),
            old(self).settled(),
        ensures
            final(self).wf(),
            final(self).settled(),
            final(self).ending() == old(self).ending(),
            final(self).remaining() == term(old(self).remaining()).rest,
            agrees(r, term(old(self).remaining()).result),
        decreases old(self).remaining().len(), 3int,
    {
        let ghost toks = self.remaining();
        proof {
            lemma_factor_sound(toks);
        }
        let mut f1 = match self.parse_factor() {
            Ok(f) => f,
            Err(err) => {
                return Err(err);
            },
        };
        let mut kind = self.current_kind();
        while kind == Some(TokenKind::Asterisk) || kind == Some(TokenKind::Slash)
            invariant
                self.wf(),
                self.settled(),
                toks == old(self).remaining(),
                self.ending() == old(self).ending(),
                self.remaining().len() <= toks.len(),
                kind == if self.remaining().len() > 0 {
                    Some(self.remaining()[0].kind)
                } else {
                    None
                },
                term_rest(f1@, self.remaining()) == term(toks),
            decreases self.remaining().len(),
        {
            proof {
                lemma_factor_sound(self.remaining().skip(1));
            }
            let op = match self.parse_operator() {
                Ok(op) => op,
                Err(err) => {
                    return Err(err);
                },
            };
            let f2 = match self.parse_factor() {
                Ok(f) => f,
                Err(err) => {
                    return Err(err);
                },
            };
            f1 = Ast::BinaryExpr { lhs: Box::new(f1), op, rhs: Box::new(f2) };
            kind = self.current_kind();
        }
        Ok(f1)
    }

    /// `Expression <- Term (('+' | '-') Term)*`
    fn parse_expression(&mut self) -> (r: Result<Ast, Error>)
        requires
            old(self).wf(),
            old(self).settled(),
        ensures
            final(self).wf(),
            final(self).settled(),
            final(self).ending() == old(self).ending(),
            final(self).remaining() == expression(old(self).remaining()).rest,
            agrees(r, expression(old(self).remaining()).result),
        decreases old(self).remaining().len(), 5int,
    {
        let ghost toks = self.remaining();
        proof {
            lemma_term_sound(toks);
        }
        let mut t1 = match self.parse_term() {
            Ok(t) => t,
            Err(err) => {
                return Err(err);
            },
        };
        let mut kind = self.current_kind();
        while kind == Some(TokenKind::Plus) || kind == Some(TokenKind::Minus)
            invariant
                self.wf(),
                self.settled(),
                toks == old(self).remaining(),
                self.ending() == old(self).ending(),
                self.remaining().len() <= toks.len(),
                kind == if self.remaining().len() > 0 {
                    Some(self.remaining()[0].kind)
                } else {
                    None
                },
                expression_rest(t1@, self.remaining()) == expression(toks),
            decreases self.remaining().len(),
        {
            proof {
                lemma_term_sound(self.remaining().skip(1));
            }
            let op = match self.parse_operator() {
                Ok(op) => op,
                Err(err) => {
                    return Err(err);
                },
            };
            let t2 = match self.parse_term() {
                Ok(t) => t,
                Err(err) => {
                    return Err(err);
                },
            };
            t1 = Ast::BinaryExpr { lhs: Box::new(t1), op, rhs: Box::new(t2) };
            kind = self.current_kind();
        }
        Ok(t1)
    }

    /// Fetches the first token and parses one expression from the tokens that
    /// the lexer had not handed out. It returns the tree that the grammar
    /// gives, well formed and derived from the tokens that were passed over,
    /// or the first error, and stops at the first token that cannot continue
    /// the expression: what follows is not looked at. Where the parser asks
    /// for a token and the lexer fails, the parse fails with the lexer's
    /// error and no tree is returned.
    pub fn parse(&mut self) -> (r: Result<Ast, Error>)
        requires
            old(self).wf(),
        ensures
            final(self).wf(),
            final(self).remaining() == expression(old(self).upcoming()).rest,
            final(self).upcoming() == if final(self).remaining().len() > 0 {
                final(self).remaining().skip(1)
            } else {
                Seq::empty()
            },
            final(self).ending() == old(self).ending(),
            agrees(r, parsed(old(self).upcoming(), old(self).ending())),
            old(self).ending() is Some && expression(old(self).upcoming()).rest.len() == 0 ==> r
                is Err && r->Err_0@ == ErrorView::Lexer(old(self).ending()->Some_0),
            !(old(self).ending() is Some && expression(old(self).upcoming()).rest.len() == 0)
                ==> agrees(r, expression(old(self).upcoming()).result),
            r matches Ok(ast) ==> ast@.wf() && derives_expression(
                consumed(old(self).upcoming(), expression(old(self).upcoming())),
                ast@,
            ) && (final(self).remaining().len() == 0 || !(is_additive(
                final(self).remaining()[0].kind,
            ) || is_multiplicative(final(self).remaining()[0].kind))),
    {
        proof {
            lemma_expression_sound(self.upcoming());
            lemma_expression_derives(self.upcoming());
            lemma_expression_stops(self.upcoming());
        }
        self.match_it();
        let r = self.parse_expression();
        proof {
            if self.remaining().len() > 0 {
                assert(self.remaining().skip(1) =~= self.upcoming());
            } else {
                assert(self.upcoming() =~= Seq::empty());
            }
        }
        match self.lex_error {
            Some(err) => Err(Error::Lexer(err)),
            None => r,
        }
    }
}

} // verus!
