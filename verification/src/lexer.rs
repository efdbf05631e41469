//! Lexical analysis: one token at a time, on demand, from a fixed line of text.

use vstd::prelude::*;
use vstd::string::*;

verus! {

/// What can go wrong while lexing.
#[derive(Debug, Clone, Copy, PartialEq, Eq, Structural)]
pub enum Error {
    /// A character was to be consumed where the input had ended. No call of
    /// [`Lexer::lex`] returns it.
    NoCharactersToEat,
    /// The character does not begin any token.
    InvalidCharacter(char),
}

/// `String::push` of std: the string afterwards is the string before with
/// `c` added at its end.
#[verifier::external_body]
fn push_char(text: &mut String, c: char)
    ensures
        final(text)@ == old(text)@.push(c),
{
    text.push(c);
}

impl Error {
    /// The error in words.
    pub open spec fn text(self) -> Seq<char> {
        match self {
            Error::NoCharactersToEat => "ran out of characters while lexing"@,
            Error::InvalidCharacter(c) => "Invalid character: '"@.push(c) + "'"@,
        }
    }

    /// The error in words; an invalid character is quoted in it.
    pub fn message(&self) -> (text: String)
        ensures
            text@ == self.text(),
    {
        match self {
            Error::NoCharactersToEat => String::from_str("ran out of characters while lexing"),
            Error::InvalidCharacter(c) => {
                let mut text = String::from_str("Invalid character: '");
                push_char(&mut text, *c);
                text.concat("'")
            },
        }
    }
}

#[derive(Debug, Copy, Clone, PartialEq, Eq, PartialOrd, Structural)]
pub enum TokenKind {
    Asterisk,
    Eof,
    LeftParen,
    Minus,
    Number,
    Plus,
    RightParen,
    Slash,
}

/// A classified lexical unit with the exact characters that it was read from.
#[derive(Debug, Clone, PartialEq, PartialOrd)]
pub struct Token {
    pub kind: TokenKind,
    pub spelling: String,
}

/// The mathematical value of a [`Token`].
pub ghost struct TokenView {
    pub kind: TokenKind,
    pub spelling: Seq<char>,
}

impl View for Token {
    type V = TokenView;

    open spec fn view(&self) -> TokenView {
        TokenView { kind: self.kind, spelling: self.spelling@ }
    }
}

/// ASCII whitespace: space, tab, line feed, form feed, carriage return.
pub open spec fn is_space(c: char) -> bool {
    c == ' ' || c == '\t' || c == '\n' || c == '\x0C' || c == '\r'
}

/// An ASCII decimal digit.
pub open spec fn is_digit(c: char) -> bool {
    '0' <= c && c <= '9'
}

/// A character that may stand inside a numeral: a digit or a decimal point.
pub open spec fn is_numeral_char(c: char) -> bool {
    is_digit(c) || c == '.'
}

/// The kind of the token that consists of the single character `c`, if any.
pub open spec fn symbol_kind(c: char) -> Option<TokenKind> {
    if c == '(' {
        Some(TokenKind::LeftParen)
    } else if c == ')' {
        Some(TokenKind::RightParen)
    } else if c == '+' {
        Some(TokenKind::Plus)
    } else if c == '-' {
        Some(TokenKind::Minus)
    } else if c == '*' {
        Some(TokenKind::Asterisk)
    } else if c == '/' {
        Some(TokenKind::Slash)
    } else {
        None
    }
}

/// The first position at or after `i` that holds no whitespace, or the end of
/// `s` if only whitespace follows.
pub open spec fn skip_spaces(s: Seq<char>, i: int) -> int
    decreases s.len() - i,
{
    if 0 <= i < s.len() && is_space(s[i]) {
        skip_spaces(s, i + 1)
    } else {
        i
    }
}

/// The first position at or after `i` that holds neither a digit nor a
/// decimal point, or the end of `s`.
pub open spec fn numeral_end(s: Seq<char>, i: int) -> int
    decreases s.len() - i,
{
    if 0 <= i < s.len() && is_numeral_char(s[i]) {
        numeral_end(s, i + 1)
    } else {
        i
    }
}

/// The token that a lexer standing at `pos` in `s` produces next.
pub open spec fn token_at(s: Seq<char>, pos: int) -> Result<TokenView, Error> {
    let start = skip_spaces(s, pos);
    if !(0 <= start < s.len()) {
        Ok(TokenView { kind: TokenKind::Eof, spelling: Seq::empty() })
    } else if is_digit(s[start]) {
        Ok(TokenView { kind: TokenKind::Number, spelling: s.subrange(start, numeral_end(s, start)) })
    } else {
        match symbol_kind(s[start]) {
            Some(kind) => Ok(TokenView { kind, spelling: seq![s[start]] }),
            None => Err(Error::InvalidCharacter(s[start])),
        }
    }
}

/// Where a lexer that stood at `pos` in `s` stands after producing its next
/// token: past the token, or on the offending character.
pub open spec fn pos_after(s: Seq<char>, pos: int) -> int {
    let start = skip_spaces(s, pos);
    if !(0 <= start < s.len()) {
        start
    } else if is_digit(s[start]) {
        numeral_end(s, start)
    } else if symbol_kind(s[start]) is Some {
        start + 1
    } else {
        start
    }
}

/// `skip_spaces` stops inside the text, on the first character that is no
/// whitespace, and passes over whitespace only.
pub proof fn lemma_skip_spaces(s: Seq<char>, i: int)
    requires
        0 <= i <= s.len(),
    ensures
        i <= skip_spaces(s, i) <= s.len(),
        skip_spaces(s, i) < s.len() ==> !is_space(s[skip_spaces(s, i)]),
        forall|j: int| i <= j < skip_spaces(s, i) ==> is_space(#[trigger] s[j]),
    decreases s.len() - i,
{
    if i < s.len() && is_space(s[i]) {
        lemma_skip_spaces(s, i + 1);
    }
}

/// `numeral_end` stops inside the text, on the first character that is
/// neither a digit nor a decimal point, and passes over such characters only.
pub proof fn lemma_numeral_end(s: Seq<char>, i: int)
    requires
        0 <= i <= s.len(),
    ensures
        i <= numeral_end(s, i) <= s.len(),
        numeral_end(s, i) < s.len() ==> !is_numeral_char(s[numeral_end(s, i)]),
        forall|j: int| i <= j < numeral_end(s, i) ==> is_numeral_char(#[trigger] s[j]),
    decreases s.len() - i,
{
    if i < s.len() && is_numeral_char(s[i]) {
        lemma_numeral_end(s, i + 1);
    }
}

/// Producing a token never moves the cursor back or past the end, and every
/// token but `Eof` takes at least one character.
pub proof fn lemma_pos_after(s: Seq<char>, pos: int)
    requires
        0 <= pos <= s.len(),
    ensures
        pos <= pos_after(s, pos) <= s.len(),
        token_at(s, pos) matches Ok(t) ==> (t.kind == TokenKind::Eof <==> skip_spaces(s, pos)
            == s.len()),
        token_at(s, pos) matches Ok(t) ==> t.kind != TokenKind::Eof ==> pos < pos_after(s, pos),
        token_at(s, pos) matches Ok(t) ==> t.spelling.len() == pos_after(s, pos) - skip_spaces(
            s,
            pos,
        ),
        token_at(s, pos) is Err ==> pos_after(s, pos) == skip_spaces(s, pos),
{
    lemma_skip_spaces(s, pos);
    let start = skip_spaces(s, pos);
    if start < s.len() && is_digit(s[start]) {
        lemma_numeral_end(s, start + 1);
    }
}

/// The tokens that a lexer standing at `pos` in `s` hands out one by one: all
/// up to the end of the input, or up to the first character that begins no
/// token.
pub open spec fn token_stream(s: Seq<char>, pos: int) -> Seq<TokenView>
    decreases s.len() - pos,
    via token_stream_decreases
{
    match token_at(s, pos) {
        Ok(t) => if t.kind != TokenKind::Eof {
            seq![t] + token_stream(s, pos_after(s, pos))
        } else {
            Seq::empty()
        },
        Err(_) => Seq::empty(),
    }
}

#[via_fn]
proof fn token_stream_decreases(s: Seq<char>, pos: int) {
    if 0 <= pos <= s.len() {
        lemma_pos_after(s, pos);
    }
}

/// The character at which the token sequence from `pos` ends, as the error
/// that names it; `None` where the sequence ends with the input.
pub open spec fn stream_error(s: Seq<char>, pos: int) -> Option<Error>
    decreases s.len() - pos,
    via stream_error_decreases
{
    match token_at(s, pos) {
        Ok(t) => if t.kind != TokenKind::Eof {
            stream_error(s, pos_after(s, pos))
        } else {
            None
        },
        Err(e) => Some(e),
    }
}

#[via_fn]
proof fn stream_error_decreases(s: Seq<char>, pos: int) {
    if 0 <= pos <= s.len() {
        lemma_pos_after(s, pos);
    }
}

/// Producing a token does not change how the sequence will end.
pub proof fn lemma_stream_error_kept(s: Seq<char>, pos: int)
    requires
        0 <= pos <= s.len(),
    ensures
        stream_error(s, pos_after(s, pos)) == stream_error(s, pos),
{
    if token_stream(s, pos).len() == 0 {
        lemma_stream_stays_ended(s, pos);
    }
}

/// A character of arithmetic: a digit, a decimal point, a parenthesis, an
/// operator or whitespace.
pub open spec fn is_arithmetic_char(c: char) -> bool {
    is_numeral_char(c) || symbol_kind(c) is Some || is_space(c)
}

/// Text made of the characters of arithmetic in which every decimal point
/// follows a digit or another decimal point.
pub open spec fn is_arithmetic_text(s: Seq<char>) -> bool {
    &&& forall|i: int| 0 <= i < s.len() ==> is_arithmetic_char(#[trigger] s[i])
    &&& forall|i: int|
        0 <= i < s.len() && #[trigger] s[i] == '.' ==> i > 0 && is_numeral_char(s[i - 1])
}

/// A position at which no numeral is cut in two.
pub open spec fn between_tokens(s: Seq<char>, pos: int) -> bool {
    pos == 0 || pos == s.len() || !is_numeral_char(s[pos - 1]) || !is_numeral_char(s[pos])
}

/// From a position between tokens, arithmetic text is lexed to its end.
pub proof fn lemma_arithmetic_text_lexes_from(s: Seq<char>, pos: int)
    requires
        is_arithmetic_text(s),
        0 <= pos <= s.len(),
        between_tokens(s, pos),
    ensures
        stream_error(s, pos) is None,
    decreases s.len() - pos,
{
    lemma_skip_spaces(s, pos);
    lemma_pos_after(s, pos);
    let start = skip_spaces(s, pos);
    if start < s.len() {
        if start > pos {
            assert(is_space(s[start - 1]));
        }
        assert(s[start] != '.');
        assert(is_arithmetic_char(s[start]));
        let next = pos_after(s, pos);
        if is_digit(s[start]) {
            lemma_numeral_end(s, start);
        }
        lemma_arithmetic_text_lexes_from(s, next);
    }
}

/// Lexing arithmetic text never fails: its tokens end with the input.
pub proof fn lemma_arithmetic_text_lexes(s: Seq<char>)
    requires
        is_arithmetic_text(s),
    ensures
        stream_error(s, 0) is None,
{
    lemma_arithmetic_text_lexes_from(s, 0);
}

/// Once the sequence has ended it stays ended: where the lexer stands after
/// the end of the input or on an offending character, no token follows.
pub proof fn lemma_stream_stays_ended(s: Seq<char>, pos: int)
    requires
        0 <= pos <= s.len(),
        token_stream(s, pos).len() == 0,
    ensures
        token_at(s, pos_after(s, pos)) == token_at(s, pos),
        pos_after(s, pos_after(s, pos)) == pos_after(s, pos),
        token_stream(s, pos_after(s, pos)).len() == 0,
{
    lemma_pos_after(s, pos);
    lemma_skip_spaces(s, pos);
    let start = skip_spaces(s, pos);
    assert(skip_spaces(s, start) == start);
}

/// The text from `pos` on without its whitespace.
pub open spec fn without_spaces(s: Seq<char>, pos: int) -> Seq<char>
    decreases s.len() - pos,
{
    if !(0 <= pos < s.len()) {
        Seq::empty()
    } else if is_space(s[pos]) {
        without_spaces(s, pos + 1)
    } else {
        seq![s[pos]] + without_spaces(s, pos + 1)
    }
}

/// The spellings of the tokens, one after the other.
pub open spec fn joined(toks: Seq<TokenView>) -> Seq<char>
    decreases toks.len(),
{
    if toks.len() == 0 {
        Seq::empty()
    } else {
        toks[0].spelling + joined(toks.skip(1))
    }
}

/// Skipping whitespace loses nothing but whitespace.
pub proof fn lemma_without_spaces_skips(s: Seq<char>, i: int)
    requires
        0 <= i <= s.len(),
    ensures
        without_spaces(s, i) == without_spaces(s, skip_spaces(s, i)),
    decreases s.len() - i,
{
    if i < s.len() && is_space(s[i]) {
        lemma_without_spaces_skips(s, i + 1);
    }
}

/// A run of characters that holds no whitespace is kept as it is.
pub proof fn lemma_without_spaces_keeps(s: Seq<char>, i: int, j: int)
    requires
        0 <= i <= j <= s.len(),
        forall|k: int| i <= k < j ==> !is_space(#[trigger] s[k]),
    ensures
        without_spaces(s, i) == s.subrange(i, j) + without_spaces(s, j),
    decreases j - i,
{
    if i == j {
        assert(s.subrange(i, j) + without_spaces(s, j) =~= without_spaces(s, j));
    } else {
        lemma_without_spaces_keeps(s, i + 1, j);
        assert(!is_space(s[i]));
        assert(seq![s[i]] + (s.subrange(i + 1, j) + without_spaces(s, j)) =~= s.subrange(i, j)
            + without_spaces(s, j));
    }
}

/// Lexing loses nothing but whitespace: where the lexer does not fail, the
/// spellings of its tokens joined are the text without its whitespace.
pub proof fn lemma_tokens_keep_text(s: Seq<char>, pos: int)
    requires
        0 <= pos <= s.len(),
        stream_error(s, pos) is None,
    ensures
        joined(token_stream(s, pos)) == without_spaces(s, pos),
    decreases s.len() - pos,
{
    lemma_skip_spaces(s, pos);
    lemma_pos_after(s, pos);
    lemma_without_spaces_skips(s, pos);
    let start = skip_spaces(s, pos);
    let next = pos_after(s, pos);
    if start < s.len() {
        let t = token_at(s, pos)->Ok_0;
        if is_digit(s[start]) {
            lemma_numeral_end(s, start);
        }
        assert(t.spelling =~= s.subrange(start, next));
        lemma_without_spaces_keeps(s, start, next);
        lemma_tokens_keep_text(s, next);
        let toks = token_stream(s, pos);
        assert(toks.skip(1) =~= token_stream(s, next));
        assert(toks[0] == t);
    }
}

/// Whether `c` is ASCII whitespace.
fn char_is_space(c: char) -> (b: bool)
    ensures
        b == is_space(c),
{
    c == ' ' || c == '\t' || c == '\n' || c == '\x0C' || c == '\r'
}

/// Whether `c` is an ASCII decimal digit.
pub fn char_is_digit(c: char) -> (b: bool)
    ensures
        b == is_digit(c),
{
    '0' <= c && c <= '9'
}

/// A lexer over one fixed line of text: forward-only and not restartable.
pub struct Lexer {
    s: String,
    len: usize,
    curr_char: Option<char>,
    curr_idx: usize,
}

impl Lexer {
    /// The text that is being lexed.
    pub closed spec fn input(&self) -> Seq<char> {
        self.s@
    }

    /// The cursor: how many characters of the text have been passed.
    pub closed spec fn pos(&self) -> int {
        self.curr_idx as int
    }

    /// The cursor is inside the text or at its end, and the current character
    /// is the one under the cursor.
    pub closed spec fn wf(&self) -> bool {
        &&& self.len == self.s@.len()
        &&& self.curr_idx <= self.len
        &&& self.curr_char == if self.curr_idx < self.len {
            Some(self.s@[self.curr_idx as int])
        } else {
            None
        }
    }

    /// The cursor of a valid lexer is inside the text or at its end.
    pub proof fn lemma_pos_in_bounds(&self)
        requires
            self.wf(),
        ensures
            0 <= self.pos() <= self.input().len(),
    {
    }

    /// A lexer at the start of `s`.
    pub fn new(s: String) -> (lexer: Self)
        ensures
            lexer.wf(),
            lexer.input() == s@,
            lexer.pos() == 0,
    {
        let len = s.as_str().unicode_len();
        let curr_char = if 0 < len {
            Some(s.as_str().get_char(0))
        } else {
            None
        };
        Self { s, len, curr_char, curr_idx: 0 }
    }

    /// Passes over the current character.
    fn skip_it(&mut self)
        requires
            old(self).wf(),
            old(self).pos() < old(self).input().len(),
        ensures
            final(self).wf(),
            final(self).input() == old(self).input(),
            final(self).pos() == old(self).pos() + 1,
    {
        self.curr_idx += 1;
        self.curr_char = if self.curr_idx < self.len {
            Some(self.s.as_str().get_char(self.curr_idx))
        } else {
            None
        };
    }

    /// Consumes the current character as part of the token being read, or
    /// reports that there is none.
    fn eat_it(&mut self) -> (r: Result<(), Error>)
        requires
            old(self).wf(),
        ensures
            final(self).wf(),
            final(self).input() == old(self).input(),
            old(self).pos() < old(self).input().len() ==> r is Ok && final(self).pos() == old(
                self,
            ).pos() + 1,
            old(self).pos() >= old(self).input().len() ==> r == Err::<(), Error>(
                Error::NoCharactersToEat,
            ) && final(self).pos() == old(self).pos(),
    {
        if self.curr_char.is_none() {
            return Err(Error::NoCharactersToEat);
        }
        self.skip_it();
        Ok(())
    }

    /// Reads the token that starts under the cursor, which stands on no
    /// whitespace.
    fn lex_it(&mut self) -> (r: Result<TokenKind, Error>)
        requires
            old(self).wf(),
            skip_spaces(old(self).input(), old(self).pos()) == old(self).pos(),
        ensures
            final(self).wf(),
            final(self).input() == old(self).input(),
            final(self).pos() == pos_after(old(self).input(), old(self).pos()),
            match token_at(old(self).input(), old(self).pos()) {
                Ok(t) => r == Ok::<TokenKind, Error>(t.kind),
                Err(e) => r == Err::<TokenKind, Error>(e),
            },
    {
        let ghost s = self.input();
        let ghost start = self.pos();
        match self.curr_char {
            Some(c) => {
                if char_is_digit(c) {
                    while self.curr_char.is_some() && (char_is_digit(self.curr_char.unwrap())
                        || self.curr_char.unwrap() == '.')
                        invariant
                            self.wf(),
                            self.input() == s,
                            start <= self.pos() <= s.len(),
                            numeral_end(s, self.pos()) == numeral_end(s, start),
                        decreases s.len() - self.pos(),
                    {
                        self.eat_it()?;
                    }
                    Ok(TokenKind::Number)
                } else if c == '(' {
                    self.eat_it()?;
                    Ok(TokenKind::LeftParen)
                } else if c == ')' {
                    self.eat_it()?;
                    Ok(TokenKind::RightParen)
                } else if c == '+' {
                    self.eat_it()?;
                    Ok(TokenKind::Plus)
                } else if c == '-' {
                    self.eat_it()?;
                    Ok(TokenKind::Minus)
                } else if c == '*' {
                    self.eat_it()?;
                    Ok(TokenKind::Asterisk)
                } else if c == '/' {
                    self.eat_it()?;
                    Ok(TokenKind::Slash)
                } else {
                    Err(Error::InvalidCharacter(c))
                }
            },
            None => Ok(TokenKind::Eof),
        }
    }

    /// Produces the next token: skips whitespace, then reads a numeral, a
    /// one-character symbol or the end of the input, or fails on a character
    /// that begins no token, on which the cursor then stays. At the end of the
    /// input every further call gives `Eof` again.
    pub fn lex(&mut self) -> (r: Result<Token, Error>)
        requires
            old(self).wf(),
        ensures
            final(self).wf(),
            final(self).input() == old(self).input(),
            final(self).pos() == pos_after(old(self).input(), old(self).pos()),
            match token_at(old(self).input(), old(self).pos()) {
                Ok(t) => r is Ok && r->Ok_0@ == t,
                Err(e) => r == Err::<Token, Error>(e),
            },
            r matches Err(e) ==> e == Error::InvalidCharacter(
                old(self).input()[final(self).pos()],
            ) && final(self).pos() < old(self).input().len(),
    {
        let ghost s = self.input();
        let ghost from = self.pos();
        while self.curr_char.is_some() && char_is_space(self.curr_char.unwrap())
            invariant
                self.wf(),
                self.input() == s,
                from <= self.pos() <= s.len(),
                skip_spaces(s, self.pos()) == skip_spaces(s, from),
            decreases s.len() - self.pos(),
        {
            self.skip_it();
        }
        let start = self.curr_idx;
        proof {
            lemma_pos_after(s, start as int);
        }
        let tok_kind = self.lex_it()?;
        let spelling = self.s.as_str().substring_char(start, self.curr_idx);
        proof {
            let t = token_at(s, from)->Ok_0;
            assert(skip_spaces(s, start as int) == start);
            assert(t.spelling =~= s.subrange(start as int, self.pos()));
        }
        Ok(Token { kind: tok_kind, spelling: String::from_str(spelling) })
    }

    /// The token sequence's next item: a token, `None` once the input has
    /// ended, or the error of a character that begins no token.
    pub fn next_token(&mut self) -> (r: Result<Option<Token>, Error>)
        requires
            old(self).wf(),
        ensures
            final(self).wf(),
            final(self).input() == old(self).input(),
            final(self).pos() == pos_after(old(self).input(), old(self).pos()),
            match token_at(old(self).input(), old(self).pos()) {
                Ok(t) => if t.kind == TokenKind::Eof {
                    r == Ok::<Option<Token>, Error>(None)
                } else {
                    r matches Ok(Some(tok)) && tok@ == t
                },
                Err(e) => r == Err::<Option<Token>, Error>(e),
            },
    {
        match self.lex() {
            Ok(tok) => {
                if tok.kind == TokenKind::Eof {
                    Ok(None)
                } else {
                    Ok(Some(tok))
                }
            },
            Err(err) => Err(err),
        }
    }
}

} // verus!
