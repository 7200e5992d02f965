//! The tokenizer: turns the input characters into a sequence of lexical
//! tokens, or fails on the first invalid character.
//!
//! Each scanning step is specified by a spec function over the remaining
//! character sequence; `spec_next_token` combines them, and `spec_tokens`
//! iterates `spec_next_token` to describe the whole token sequence.

use vstd::prelude::*;

use crate::error::JsonError;
use crate::number::canon_number;
use crate::number::canonical_digits;
use crate::number::numeral_ok;
use crate::text::alnum_char;
use crate::text::alpha_char;
use crate::text::chars_of;
use crate::text::digit_char;
use crate::text::is_alnum_char;
use crate::text::is_alpha_char;
use crate::text::is_digit_char;
use crate::text::is_whitespace_char;
use crate::text::string_of;
use crate::text::whitespace_char;

verus! {

/// One lexical unit.  String and number payloads carry text: a string value
/// holds its raw content between the quotes (no escape processing), a number
/// value holds the canonical decimal text of the numeral that was scanned.
#[derive(Debug, PartialEq)]
pub enum Token {
    LBrace,
    RBrace,
    LBracket,
    RBracket,
    Colon,
    Comma,
    StringValue(String),
    NumberValue(String),
    BooleanValue(bool),
    NullValue,
    End,
}

/// The mathematical shape of a token: payloads as character sequences.
pub ghost enum TokenView {
    LBrace,
    RBrace,
    LBracket,
    RBracket,
    Colon,
    Comma,
    StringValue(Seq<char>),
    NumberValue(Seq<char>),
    BooleanValue(bool),
    NullValue,
    End,
}

impl Clone for Token {
    /// An equal token.
    fn clone(&self) -> (res: Token)
        ensures
            res == *self,
    {
        match self {
            Token::LBrace => Token::LBrace,
            Token::RBrace => Token::RBrace,
            Token::LBracket => Token::LBracket,
            Token::RBracket => Token::RBracket,
            Token::Colon => Token::Colon,
            Token::Comma => Token::Comma,
            Token::StringValue(s) => Token::StringValue(s.clone()),
            Token::NumberValue(s) => Token::NumberValue(s.clone()),
            Token::BooleanValue(b) => Token::BooleanValue(*b),
            Token::NullValue => Token::NullValue,
            Token::End => Token::End,
        }
    }
}

impl View for Token {
    type V = TokenView;

    open spec fn view(&self) -> TokenView {
        match self {
            Token::LBrace => TokenView::LBrace,
            Token::RBrace => TokenView::RBrace,
            Token::LBracket => TokenView::LBracket,
            Token::RBracket => TokenView::RBracket,
            Token::Colon => TokenView::Colon,
            Token::Comma => TokenView::Comma,
            Token::StringValue(s) => TokenView::StringValue(s@),
            Token::NumberValue(s) => TokenView::NumberValue(s@),
            Token::BooleanValue(b) => TokenView::BooleanValue(*b),
            Token::NullValue => TokenView::NullValue,
            Token::End => TokenView::End,
        }
    }
}

/// The fixed character-to-token table for punctuation.
pub open spec fn punct_token(c: char) -> Option<TokenView> {
    if c == '{' {
        Some(TokenView::LBrace)
    } else if c == '}' {
        Some(TokenView::RBrace)
    } else if c == '[' {
        Some(TokenView::LBracket)
    } else if c == ']' {
        Some(TokenView::RBracket)
    } else if c == ':' {
        Some(TokenView::Colon)
    } else if c == ',' {
        Some(TokenView::Comma)
    } else {
        None
    }
}

/// The fixed keyword table: `true`, `false` and `null`.
pub open spec fn keyword_token(w: Seq<char>) -> Option<TokenView> {
    if w == seq!['t', 'r', 'u', 'e'] {
        Some(TokenView::BooleanValue(true))
    } else if w == seq!['f', 'a', 'l', 's', 'e'] {
        Some(TokenView::BooleanValue(false))
    } else if w == seq!['n', 'u', 'l', 'l'] {
        Some(TokenView::NullValue)
    } else {
        None
    }
}

/// The length of the longest whitespace prefix of `s`.
pub open spec fn ws_run(s: Seq<char>) -> nat
    decreases s.len(),
{
    if s.len() > 0 && is_whitespace_char(s[0]) {
        1 + ws_run(s.drop_first())
    } else {
        0
    }
}

/// The length of the longest prefix of `s` made of digits and dots.
pub open spec fn numeral_run(s: Seq<char>) -> nat
    decreases s.len(),
{
    if s.len() > 0 && (is_digit_char(s[0]) || s[0] == '.') {
        1 + numeral_run(s.drop_first())
    } else {
        0
    }
}

/// The length of the longest alphanumeric prefix of `s`.
pub open spec fn alnum_run(s: Seq<char>) -> nat
    decreases s.len(),
{
    if s.len() > 0 && is_alnum_char(s[0]) {
        1 + alnum_run(s.drop_first())
    } else {
        0
    }
}

/// The length of the longest prefix of `s` without a double quote.
pub open spec fn nonquote_run(s: Seq<char>) -> nat
    decreases s.len(),
{
    if s.len() > 0 && s[0] != '"' {
        1 + nonquote_run(s.drop_first())
    } else {
        0
    }
}

/// `ws_run` is the longest whitespace prefix.
pub proof fn lemma_ws_run(s: Seq<char>)
    ensures
        ws_run(s) <= s.len(),
        forall|i: int| 0 <= i < ws_run(s) ==> is_whitespace_char(s[i]),
        ws_run(s) < s.len() ==> !is_whitespace_char(s[ws_run(s) as int]),
    decreases s.len(),
{
    if s.len() > 0 && is_whitespace_char(s[0]) {
        lemma_ws_run(s.drop_first());
        assert forall|i: int| 0 <= i < ws_run(s) implies is_whitespace_char(s[i]) by {
            if i > 0 {
                assert(is_whitespace_char(s.drop_first()[i - 1]));
            }
        }
    }
}

/// `ws_run` is pinned by the whitespace-prefix characterisation.
pub proof fn lemma_ws_run_is(s: Seq<char>, k: nat)
    requires
        k <= s.len(),
        forall|i: int| 0 <= i < k ==> is_whitespace_char(s[i]),
        k < s.len() ==> !is_whitespace_char(s[k as int]),
    ensures
        ws_run(s) == k,
    decreases s.len(),
{
    if s.len() > 0 && is_whitespace_char(s[0]) {
        assert(k > 0);
        lemma_ws_run_is(s.drop_first(), (k - 1) as nat);
    }
}

/// `numeral_run` is the longest digit-and-dot prefix.
pub proof fn lemma_numeral_run(s: Seq<char>)
    ensures
        numeral_run(s) <= s.len(),
        forall|i: int| 0 <= i < numeral_run(s) ==> is_digit_char(s[i]) || s[i] == '.',
        numeral_run(s) < s.len() ==> !(is_digit_char(s[numeral_run(s) as int]) || s[numeral_run(
            s,
        ) as int] == '.'),
    decreases s.len(),
{
    if s.len() > 0 && (is_digit_char(s[0]) || s[0] == '.') {
        lemma_numeral_run(s.drop_first());
        assert forall|i: int| 0 <= i < numeral_run(s) implies is_digit_char(s[i]) || s[i]
            == '.' by {
            if i > 0 {
                assert(is_digit_char(s.drop_first()[i - 1]) || s.drop_first()[i - 1] == '.');
            }
        }
    }
}

/// `numeral_run` is pinned by the digit-and-dot-prefix characterisation.
pub proof fn lemma_numeral_run_is(s: Seq<char>, k: nat)
    requires
        k <= s.len(),
        forall|i: int| 0 <= i < k ==> is_digit_char(s[i]) || s[i] == '.',
        k < s.len() ==> !(is_digit_char(s[k as int]) || s[k as int] == '.'),
    ensures
        numeral_run(s) == k,
    decreases s.len(),
{
    if s.len() > 0 && (is_digit_char(s[0]) || s[0] == '.') {
        assert(k > 0);
        lemma_numeral_run_is(s.drop_first(), (k - 1) as nat);
    }
}

/// `alnum_run` is the longest alphanumeric prefix.
pub proof fn lemma_alnum_run(s: Seq<char>)
    ensures
        alnum_run(s) <= s.len(),
        forall|i: int| 0 <= i < alnum_run(s) ==> is_alnum_char(s[i]),
        alnum_run(s) < s.len() ==> !is_alnum_char(s[alnum_run(s) as int]),
    decreases s.len(),
{
    if s.len() > 0 && is_alnum_char(s[0]) {
        lemma_alnum_run(s.drop_first());
        assert forall|i: int| 0 <= i < alnum_run(s) implies is_alnum_char(s[i]) by {
            if i > 0 {
                assert(is_alnum_char(s.drop_first()[i - 1]));
            }
        }
    }
}

/// `alnum_run` is pinned by the alphanumeric-prefix characterisation.
pub proof fn lemma_alnum_run_is(s: Seq<char>, k: nat)
    requires
        k <= s.len(),
        forall|i: int| 0 <= i < k ==> is_alnum_char(s[i]),
        k < s.len() ==> !is_alnum_char(s[k as int]),
    ensures
        alnum_run(s) == k,
    decreases s.len(),
{
    if s.len() > 0 && is_alnum_char(s[0]) {
        assert(k > 0);
        lemma_alnum_run_is(s.drop_first(), (k - 1) as nat);
    }
}

/// `nonquote_run` is the longest quote-free prefix.
pub proof fn lemma_nonquote_run(s: Seq<char>)
    ensures
        nonquote_run(s) <= s.len(),
        forall|i: int| 0 <= i < nonquote_run(s) ==> s[i] != '"',
        nonquote_run(s) < s.len() ==> s[nonquote_run(s) as int] == '"',
    decreases s.len(),
{
    if s.len() > 0 && s[0] != '"' {
        lemma_nonquote_run(s.drop_first());
        assert forall|i: int| 0 <= i < nonquote_run(s) implies s[i] != '"' by {
            if i > 0 {
                assert(s.drop_first()[i - 1] != '"');
            }
        }
    }
}

/// `nonquote_run` is pinned by the quote-free-prefix characterisation.
pub proof fn lemma_nonquote_run_is(s: Seq<char>, k: nat)
    requires
        k <= s.len(),
        forall|i: int| 0 <= i < k ==> s[i] != '"',
        k < s.len() ==> s[k as int] == '"',
    ensures
        nonquote_run(s) == k,
    decreases s.len(),
{
    if s.len() > 0 && s[0] != '"' {
        assert(k > 0);
        lemma_nonquote_run_is(s.drop_first(), (k - 1) as nat);
    }
}

/// One step of punctuation scanning on the remaining input: the character is
/// consumed and mapped through the punctuation table.
pub open spec fn spec_consume_char(s: Seq<char>) -> Result<(TokenView, nat), JsonError> {
    if s.len() == 0 {
        Err(JsonError::UnterminatedInput)
    } else {
        match punct_token(s[0]) {
            Some(t) => Ok((t, 1)),
            None => Err(JsonError::UnexpectedCharacter),
        }
    }
}

/// One step of string scanning on the remaining input: an opening quote is
/// consumed if present, then the content runs verbatim to the next quote.
pub open spec fn spec_consume_string(s: Seq<char>) -> Result<(TokenView, nat), JsonError> {
    let opened: nat = if s.len() > 0 && s[0] == '"' {
        1
    } else {
        0
    };
    let body = s.skip(opened as int);
    let q = nonquote_run(body);
    if q < body.len() {
        Ok((TokenView::StringValue(body.take(q as int)), opened + q + 1))
    } else {
        Err(JsonError::UnterminatedInput)
    }
}

/// One step of number scanning on the remaining input: the maximal run of
/// digits and dots, put into canonical form.
pub open spec fn spec_consume_number(s: Seq<char>) -> Result<(TokenView, nat), JsonError> {
    let d = numeral_run(s);
    let run = s.take(d as int);
    if numeral_ok(run) {
        Ok((TokenView::NumberValue(canon_number(run)), d))
    } else {
        Err(JsonError::MalformedNumber)
    }
}

/// One step of keyword scanning on the remaining input: the maximal
/// alphanumeric run, resolved against the keyword table.
pub open spec fn spec_consume_keyword(s: Seq<char>) -> Result<(TokenView, nat), JsonError> {
    let a = alnum_run(s);
    match keyword_token(s.take(a as int)) {
        Some(t) => Ok((t, a)),
        None => Err(JsonError::UnrecognizedKeyword),
    }
}

/// One full scanning step: skip whitespace, then dispatch on the next
/// character.  On success the result carries the token and the total number
/// of characters consumed, whitespace included.
pub open spec fn spec_next_token(s: Seq<char>) -> Result<(TokenView, nat), JsonError> {
    let w = ws_run(s);
    let t = s.skip(w as int);
    if t.len() == 0 {
        Ok((TokenView::End, w))
    } else if punct_token(t[0]) is Some {
        Ok((punct_token(t[0]).unwrap(), w + 1))
    } else if t[0] == '"' {
        match spec_consume_string(t) {
            Ok((tok, u)) => Ok((tok, w + u)),
            Err(e) => Err(e),
        }
    } else if is_digit_char(t[0]) {
        match spec_consume_number(t) {
            Ok((tok, u)) => Ok((tok, w + u)),
            Err(e) => Err(e),
        }
    } else if is_alpha_char(t[0]) {
        match spec_consume_keyword(t) {
            Ok((tok, u)) => Ok((tok, w + u)),
            Err(e) => Err(e),
        }
    } else {
        Err(JsonError::UnexpectedCharacter)
    }
}

/// A successful scanning step consumes no more than the remaining input, and
/// at least one character unless it yields the end sentinel.
pub proof fn lemma_next_token_used(s: Seq<char>)
    ensures
        match spec_next_token(s) {
            Ok((tok, used)) => used <= s.len() && (!(tok is End) ==> used >= 1) && (tok is End
                ==> used == s.len()),
            Err(_) => true,
        },
{
    lemma_ws_run(s);
    let w = ws_run(s);
    let t = s.skip(w as int);
    if t.len() == 0 {
    } else if punct_token(t[0]) is Some {
    } else if t[0] == '"' {
        lemma_nonquote_run(t.drop_first());
        assert(t.drop_first() =~= t.skip(1));
    } else if is_digit_char(t[0]) {
        lemma_numeral_run(t);
        assert(numeral_run(t) >= 1);
    } else if is_alpha_char(t[0]) {
        lemma_alnum_run(t);
        assert(alnum_run(t) >= 1);
    }
}

/// The token sequence of the whole remaining input, end sentinel excluded:
/// scanning steps applied until the input is exhausted or a step fails.
pub open spec fn spec_tokens(s: Seq<char>) -> Result<Seq<TokenView>, JsonError>
    decreases s.len(),
    via spec_tokens_decreases
{
    match spec_next_token(s) {
        Err(e) => Err(e),
        Ok((tok, used)) => if tok is End {
            Ok(Seq::empty())
        } else {
            match spec_tokens(s.skip(used as int)) {
                Err(e) => Err(e),
                Ok(ts) => Ok(seq![tok] + ts),
            }
        },
    }
}

#[via_fn]
proof fn spec_tokens_decreases(s: Seq<char>) {
    lemma_next_token_used(s);
}

/// A successful scan yields no more tokens than there are characters.
pub proof fn lemma_tokens_count(s: Seq<char>)
    ensures
        spec_tokens(s) matches Ok(ts) ==> ts.len() <= s.len(),
    decreases s.len(),
{
    lemma_next_token_used(s);
    match spec_next_token(s) {
        Err(_) => {},
        Ok((tok, used)) => {
            if !(tok is End) {
                lemma_tokens_count(s.skip(used as int));
            }
        },
    }
}

/// The tokenizer: a cursor over the input characters with one-character
/// lookahead.
pub struct Tokenizer {
    chars: Vec<char>,
    pos: usize,
}

impl Tokenizer {
    /// The whole input, as characters.
    pub closed spec fn text(&self) -> Seq<char> {
        self.chars@
    }

    /// The cursor: how many characters have been consumed.
    pub closed spec fn cursor(&self) -> int {
        self.pos as int
    }

    /// The cursor never leaves the input.
    pub open spec fn wf(&self) -> bool {
        0 <= self.cursor() <= self.text().len()
    }

    /// The characters not yet consumed.
    pub open spec fn remaining(&self) -> Seq<char> {
        self.text().skip(self.cursor())
    }

    pub fn new(input: &str) -> (r: Tokenizer)
        ensures
            r.wf(),
            r.text() == input@,
            r.cursor() == 0,
    {
        Tokenizer { chars: chars_of(input), pos: 0 }
    }

    /// Looks at the next character without consuming it.
    pub fn peek_char(&self) -> (r: Option<char>)
        requires
            self.wf(),
        ensures
            r == (if self.remaining().len() > 0 {
                Some(self.remaining()[0])
            } else {
                None::<char>
            }),
    {
        if self.pos < self.chars.len() {
            Some(self.chars[self.pos])
        } else {
            None
        }
    }

    /// Consumes and returns the next character.
    pub fn next_char(&mut self) -> (r: Option<char>)
        requires
            old(self).wf(),
        ensures
            final(self).wf(),
            final(self).text() == old(self).text(),
            old(self).remaining().len() > 0 ==> r == Some(old(self).remaining()[0])
                && final(self).cursor() == old(self).cursor() + 1,
            old(self).remaining().len() == 0 ==> r == None::<char>
                && final(self).cursor() == old(self).cursor(),
    {
        if self.pos < self.chars.len() {
            let c = self.chars[self.pos];
            self.pos = self.pos + 1;
            Some(c)
        } else {
            None
        }
    }

    /// Consumes one punctuation character and maps it through the fixed
    /// character-to-token table.
    pub fn consume_char(&mut self) -> (r: Result<Token, JsonError>)
        requires
            old(self).wf(),
        ensures
            final(self).wf(),
            final(self).text() == old(self).text(),
            match spec_consume_char(old(self).remaining()) {
                Ok((t, used)) => r matches Ok(tok) && tok@ == t
                    && final(self).cursor() == old(self).cursor() + used,
                Err(e) => r == Err::<Token, JsonError>(e)
                    && final(self).cursor() == old(self).cursor() + (if old(
                    self,
                ).remaining().len() > 0 {
                    1int
                } else {
                    0int
                }),
            },
    {
        match self.next_char() {
            None => Err(JsonError::UnterminatedInput),
            Some(c) => {
                if c == '{' {
                    Ok(Token::LBrace)
                } else if c == '}' {
                    Ok(Token::RBrace)
                } else if c == '[' {
                    Ok(Token::LBracket)
                } else if c == ']' {
                    Ok(Token::RBracket)
                } else if c == ':' {
                    Ok(Token::Colon)
                } else if c == ',' {
                    Ok(Token::Comma)
                } else {
                    Err(JsonError::UnexpectedCharacter)
                }
            },
        }
    }

    /// Skips the maximal run of whitespace characters.
    pub fn consume_whitespace(&mut self)
        requires
            old(self).wf(),
        ensures
            final(self).wf(),
            final(self).text() == old(self).text(),
            final(self).cursor() == old(self).cursor() + ws_run(old(self).remaining()),
    {
        let ghost start = self.pos as int;
        let ghost rem = self.remaining();
        while self.pos < self.chars.len() && whitespace_char(self.chars[self.pos])
            invariant
                self.wf(),
                self.text() == old(self).text(),
                0 <= start <= self.cursor(),
                rem == self.text().skip(start),
                rem.len() == self.text().len() - start,
                forall|i: int|
                    0 <= i < self.cursor() - start ==> is_whitespace_char(#[trigger] rem[i]),
            decreases self.text().len() - self.cursor(),
        {
            proof {
                assert(rem[self.cursor() - start] == self.text()[self.cursor()]);
            }
            self.pos = self.pos + 1;
        }
        proof {
            lemma_ws_run_is(rem, (self.cursor() - start) as nat);
        }
    }

    /// Consumes a string literal: discards the opening quote if present, then
    /// accumulates characters verbatim until the closing quote.
    pub fn consume_string(&mut self) -> (r: Result<Token, JsonError>)
        requires
            old(self).wf(),
        ensures
            final(self).wf(),
            final(self).text() == old(self).text(),
            match spec_consume_string(old(self).remaining()) {
                Ok((t, used)) => r matches Ok(tok) && tok@ == t
                    && final(self).cursor() == old(self).cursor() + used,
                Err(e) => r == Err::<Token, JsonError>(e)
                    && final(self).cursor() == final(self).text().len(),
            },
    {
        let ghost rem = self.remaining();
        match self.peek_char() {
            Some(c) => if c == '"' {
                self.next_char();
            },
            None => {},
        }
        let ghost start = self.cursor();
        let ghost body = rem.skip(if rem.len() > 0 && rem[0] == '"' {
            1int
        } else {
            0int
        });
        proof {
            assert(body =~= self.text().skip(start));
        }
        let mut buf: Vec<char> = Vec::new();
        while self.pos < self.chars.len() && self.chars[self.pos] != '"'
            invariant
                self.wf(),
                self.text() == old(self).text(),
                0 <= start <= self.cursor(),
                body == self.text().skip(start),
                body.len() == self.text().len() - start,
                self.cursor() == start + buf@.len(),
                buf@ == body.take(buf@.len() as int),
                forall|i: int| 0 <= i < buf@.len() ==> #[trigger] body[i] != '"',
            decreases self.text().len() - self.cursor(),
        {
            let c = self.chars[self.pos];
            buf.push(c);
            self.pos = self.pos + 1;
            proof {
                assert(buf@ =~= body.take(buf@.len() as int));
            }
        }
        proof {
            lemma_nonquote_run_is(body, buf@.len() as nat);
        }
        if self.pos < self.chars.len() {
            self.pos = self.pos + 1;
            Ok(Token::StringValue(string_of(&buf)))
        } else {
            Err(JsonError::UnterminatedInput)
        }
    }

    /// Consumes a maximal run of digits and dots and turns it into a number
    /// token with canonical text.
    pub fn consume_number(&mut self) -> (r: Result<Token, JsonError>)
        requires
            old(self).wf(),
        ensures
            final(self).wf(),
            final(self).text() == old(self).text(),
            match spec_consume_number(old(self).remaining()) {
                Ok((t, used)) => r matches Ok(tok) && tok@ == t
                    && final(self).cursor() == old(self).cursor() + used,
                Err(e) => r == Err::<Token, JsonError>(e)
                    && final(self).cursor() == old(self).cursor() + numeral_run(
                    old(self).remaining(),
                ),
            },
    {
        let ghost rem = self.remaining();
        let ghost start = self.cursor();
        let mut run: Vec<char> = Vec::new();
        while self.pos < self.chars.len() && (digit_char(self.chars[self.pos])
            || self.chars[self.pos] == '.')
            invariant
                self.wf(),
                self.text() == old(self).text(),
                0 <= start <= self.cursor(),
                rem == self.text().skip(start),
                rem.len() == self.text().len() - start,
                self.cursor() == start + run@.len(),
                run@ == rem.take(run@.len() as int),
                forall|i: int|
                    0 <= i < run@.len() ==> is_digit_char(#[trigger] rem[i]) || rem[i] == '.',
            decreases self.text().len() - self.cursor(),
        {
            let c = self.chars[self.pos];
            run.push(c);
            self.pos = self.pos + 1;
            proof {
                assert(run@ =~= rem.take(run@.len() as int));
            }
        }
        proof {
            lemma_numeral_run_is(rem, run@.len() as nat);
        }
        match canonical_digits(&run) {
            Ok(v) => Ok(Token::NumberValue(string_of(&v))),
            Err(e) => Err(e),
        }
    }

    /// Consumes a maximal alphanumeric run and resolves it against the fixed
    /// keyword table.
    pub fn consume_keyword(&mut self) -> (r: Result<Token, JsonError>)
        requires
            old(self).wf(),
        ensures
            final(self).wf(),
            final(self).text() == old(self).text(),
            match spec_consume_keyword(old(self).remaining()) {
                Ok((t, used)) => r matches Ok(tok) && tok@ == t
                    && final(self).cursor() == old(self).cursor() + used,
                Err(e) => r == Err::<Token, JsonError>(e)
                    && final(self).cursor() == old(self).cursor() + alnum_run(
                    old(self).remaining(),
                ),
            },
    {
        let ghost rem = self.remaining();
        let ghost start = self.cursor();
        let mut word: Vec<char> = Vec::new();
        while self.pos < self.chars.len() && alnum_char(self.chars[self.pos])
            invariant
                self.wf(),
                self.text() == old(self).text(),
                0 <= start <= self.cursor(),
                rem == self.text().skip(start),
                rem.len() == self.text().len() - start,
                self.cursor() == start + word@.len(),
                word@ == rem.take(word@.len() as int),
                forall|i: int| 0 <= i < word@.len() ==> is_alnum_char(#[trigger] rem[i]),
            decreases self.text().len() - self.cursor(),
        {
            let c = self.chars[self.pos];
            word.push(c);
            self.pos = self.pos + 1;
            proof {
                assert(word@ =~= rem.take(word@.len() as int));
            }
        }
        proof {
            lemma_alnum_run_is(rem, word@.len() as nat);
        }
        if word.len() == 4 && word[0] == 't' && word[1] == 'r' && word[2]
            == 'u' && word[3] == 'e' {
            proof {
                assert(word@ =~= seq!['t', 'r', 'u', 'e']);
            }
            Ok(Token::BooleanValue(true))
        } else if word.len() == 5 && word[0] == 'f' && word[1] == 'a' && word[2] == 'l' && word[3] == 's' && word[4] == 'e' {
            proof {
                assert(word@ =~= seq!['f', 'a', 'l', 's', 'e']);
            }
            Ok(Token::BooleanValue(false))
        } else if word.len() == 4 && word[0] == 'n' && word[1] == 'u' && word[2] == 'l' && word[3] == 'l' {
            proof {
                assert(word@ =~= seq!['n', 'u', 'l', 'l']);
            }
            Ok(Token::NullValue)
        } else {
            proof {
                assert(keyword_token(word@) is None);
            }
            Err(JsonError::UnrecognizedKeyword)
        }
    }

    /// Produces the next token: skips whitespace, then dispatches on the next
    /// character.
    pub fn next_token(&mut self) -> (r: Result<Token, JsonError>)
        requires
            old(self).wf(),
        ensures
            final(self).wf(),
            final(self).text() == old(self).text(),
            match spec_next_token(old(self).remaining()) {
                Ok((t, used)) => r matches Ok(tok) && tok@ == t
                    && final(self).cursor() == old(self).cursor() + used,
                Err(e) => r == Err::<Token, JsonError>(e)
                    && old(self).cursor() <= final(self).cursor() <= final(self).text().len(),
            },
    {
        let ghost rem = self.remaining();
        self.consume_whitespace();
        proof {
            assert(self.remaining() =~= rem.skip(ws_run(rem) as int));
        }
        match self.peek_char() {
            None => Ok(Token::End),
            Some(c) => {
                if c == '{' || c == '}' || c == '[' || c == ']' || c == ':' || c == ',' {
                    self.consume_char()
                } else if c == '"' {
                    self.consume_string()
                } else if digit_char(c) {
                    self.consume_number()
                } else if alpha_char(c) {
                    self.consume_keyword()
                } else {
                    Err(JsonError::UnexpectedCharacter)
                }
            },
        }
    }

    /// Scans the whole remaining input into a token sequence ending with the
    /// end sentinel, or fails at the first invalid construct.
    pub fn tokenize(&mut self) -> (r: Result<Vec<Token>, JsonError>)
        requires
            old(self).wf(),
        ensures
            final(self).wf(),
            final(self).text() == old(self).text(),
            match spec_tokens(old(self).remaining()) {
                Ok(ts) => r matches Ok(v) && views_of(v@) == ts.push(TokenView::End)
                    && final(self).cursor() == final(self).text().len(),
                Err(e) => r == Err::<Vec<Token>, JsonError>(e)
                    && old(self).cursor() <= final(self).cursor() <= final(self).text().len(),
            },
    {
        let ghost orig = self.remaining();
        let mut out: Vec<Token> = Vec::new();
        proof {
            match spec_tokens(orig) {
                Ok(ts) => {
                    assert(views_of(out@) + ts =~= ts);
                },
                Err(_) => {},
            }
        }
        loop
            invariant
                self.wf(),
                self.text() == old(self).text(),
                old(self).cursor() <= self.cursor(),
                orig == old(self).remaining(),
                match spec_tokens(self.remaining()) {
                    Ok(ts) => spec_tokens(orig) matches Ok(all) && all == views_of(out@) + ts,
                    Err(e) => spec_tokens(orig) == Err::<Seq<TokenView>, JsonError>(e),
                },
            decreases self.text().len() - self.cursor(),
        {
            let ghost rem_now = self.remaining();
            let tr = self.next_token();
            proof {
                lemma_next_token_used(rem_now);
            }
            match tr {
                Err(e) => {
                    proof {
                        assert(spec_next_token(rem_now) == Err::<(TokenView, nat), JsonError>(e));
                        assert(spec_tokens(rem_now) == Err::<Seq<TokenView>, JsonError>(e));
                        assert(spec_tokens(orig) == Err::<Seq<TokenView>, JsonError>(e));
                    }
                    return Err(e);
                },
                Ok(tok) => {
                    let end = matches!(tok, Token::End);
                    let ghost out_before = out@;
                    let ghost step = spec_next_token(rem_now)->Ok_0;
                    out.push(tok);
                    proof {
                        assert(views_of(out@) =~= views_of(out_before).push(tok@));
                    }
                    if end {
                        proof {
                            assert(step.0 is End);
                            assert(spec_tokens(rem_now) == Ok::<Seq<TokenView>, JsonError>(
                                Seq::empty(),
                            ));
                            let ts = spec_tokens(rem_now)->Ok_0;
                            assert(views_of(out_before) + ts =~= views_of(out_before));
                            assert(views_of(out@) =~= (views_of(out_before) + ts).push(
                                TokenView::End,
                            ));
                        }
                        return Ok(out);
                    }
                    proof {
                        assert(self.remaining() =~= rem_now.skip(step.1 as int));
                        match spec_tokens(self.remaining()) {
                            Ok(ts) => {
                                assert(spec_tokens(rem_now) == Ok::<_, JsonError>(
                                    seq![step.0] + ts,
                                ));
                                assert(views_of(out_before) + (seq![step.0] + ts) =~= views_of(
                                    out@,
                                ) + ts);
                            },
                            Err(_) => {},
                        }
                    }
                },
            }
        }
    }
}

/// The views of a token sequence.
pub open spec fn views_of(v: Seq<Token>) -> Seq<TokenView> {
    v.map_values(|t: Token| t@)
}

} // verus!
