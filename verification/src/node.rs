//! The parser: consumes the token sequence through a cursor with one token
//! of lookahead and builds one syntax tree by predictive recursive descent.
//!
//! The grammar is specified by the `spec_parse_*` functions over the token
//! views.  Each returns, besides the node or the failure, the number of
//! tokens the production consumes: a successful production at index `i`
//! consumes `1 + more` tokens, so parsing continues at `i + 1 + more`.

use vstd::prelude::*;

use crate::error::JsonError;
use crate::token::Token;
use crate::token::TokenView;
use crate::token::Tokenizer;
use crate::token::spec_tokens;
use crate::token::views_of;

verus! {

/// One node of the syntax tree.  String payloads carry text; a number
/// literal holds the canonical decimal text of its numeral.
#[derive(Debug, PartialEq)]
pub enum SyntaxKind {
    StringLiteral(String),
    NumberLiteral(String),
    TrueKeyword,
    FalseKeyword,
    NullKeyword,
    PropertyAssignment(String, Box<SyntaxKind>),
    ObjectLiteralExpression(Vec<SyntaxKind>),
    ArrayLiteralExpression(Vec<SyntaxKind>),
}

/// The mathematical shape of a syntax tree: text as character sequences,
/// children as sequences of nodes.
pub ghost enum NodeView {
    StringLiteral(Seq<char>),
    NumberLiteral(Seq<char>),
    TrueKeyword,
    FalseKeyword,
    NullKeyword,
    PropertyAssignment(Seq<char>, Box<NodeView>),
    ObjectLiteralExpression(Seq<NodeView>),
    ArrayLiteralExpression(Seq<NodeView>),
}

/// The view of one syntax node.
pub open spec fn node_view(n: SyntaxKind) -> NodeView
    decreases n,
{
    match n {
        SyntaxKind::StringLiteral(s) => NodeView::StringLiteral(s@),
        SyntaxKind::NumberLiteral(s) => NodeView::NumberLiteral(s@),
        SyntaxKind::TrueKeyword => NodeView::TrueKeyword,
        SyntaxKind::FalseKeyword => NodeView::FalseKeyword,
        SyntaxKind::NullKeyword => NodeView::NullKeyword,
        SyntaxKind::PropertyAssignment(k, v) => NodeView::PropertyAssignment(
            k@,
            Box::new(node_view(*v)),
        ),
        SyntaxKind::ObjectLiteralExpression(ms) => NodeView::ObjectLiteralExpression(
            node_views(ms@),
        ),
        SyntaxKind::ArrayLiteralExpression(es) => NodeView::ArrayLiteralExpression(node_views(es@)),
    }
}

/// The views of a node sequence.
pub open spec fn node_views(s: Seq<SyntaxKind>) -> Seq<NodeView>
    decreases s,
{
    if s.len() == 0 {
        Seq::empty()
    } else {
        seq![node_view(s[0])] + node_views(s.drop_first())
    }
}

/// `node_views` maps `node_view` over the sequence, element by element.
pub proof fn lemma_node_views(s: Seq<SyntaxKind>)
    ensures
        node_views(s).len() == s.len(),
        forall|i: int| 0 <= i < s.len() ==> node_views(s)[i] == node_view(s[i]),
    decreases s.len(),
{
    if s.len() > 0 {
        lemma_node_views(s.drop_first());
    }
}

/// Pushing a node onto a sequence pushes its view.
pub proof fn lemma_node_views_push(s: Seq<SyntaxKind>, n: SyntaxKind)
    ensures
        node_views(s.push(n)) == node_views(s).push(node_view(n)),
    decreases s.len(),
{
    lemma_node_views(s);
    lemma_node_views(s.push(n));
    assert(node_views(s.push(n)) =~= node_views(s).push(node_view(n)));
}

impl View for SyntaxKind {
    type V = NodeView;

    open spec fn view(&self) -> NodeView {
        node_view(*self)
    }
}

/// How many tokens are left at index `i`.
pub open spec fn toks_left(ts: Seq<TokenView>, i: int) -> nat {
    if 0 <= i <= ts.len() {
        (ts.len() - i) as nat
    } else {
        0
    }
}

/// The value production at index `i`: dispatches on the lookahead token.
/// On success the production consumes `1 + more` tokens.
pub open spec fn spec_parse_value(ts: Seq<TokenView>, i: int) -> Result<
    (NodeView, nat),
    JsonError,
>
    decreases toks_left(ts, i), 1int,
{
    if i < 0 || i >= ts.len() {
        Err(JsonError::UnexpectedToken)
    } else {
        match ts[i] {
            TokenView::StringValue(s) => Ok((NodeView::StringLiteral(s), 0)),
            TokenView::NumberValue(s) => Ok((NodeView::NumberLiteral(s), 0)),
            TokenView::BooleanValue(b) => Ok(
                (
                    if b {
                        NodeView::TrueKeyword
                    } else {
                        NodeView::FalseKeyword
                    },
                    0,
                ),
            ),
            TokenView::NullValue => Ok((NodeView::NullKeyword, 0)),
            TokenView::LBrace => spec_parse_object(ts, i),
            TokenView::LBracket => spec_parse_array(ts, i),
            _ => Err(JsonError::UnexpectedToken),
        }
    }
}

/// The object production at index `i`: the opening token is consumed
/// unconditionally as the entry action, then the member loop runs.
pub open spec fn spec_parse_object(ts: Seq<TokenView>, i: int) -> Result<
    (NodeView, nat),
    JsonError,
>
    decreases toks_left(ts, i), 0int,
{
    if i < 0 || i >= ts.len() {
        Err(JsonError::UnexpectedToken)
    } else {
        match spec_parse_members(ts, i + 1, Seq::empty()) {
            Ok((ms, more)) => Ok((NodeView::ObjectLiteralExpression(ms), 1 + more)),
            Err(e) => Err(e),
        }
    }
}

/// The member loop of an object at index `i`, with the members accumulated
/// so far.  A closing brace ends the loop; a string key starts a property
/// assignment, whose separator token is consumed without being checked; a
/// comma is skipped; anything else fails.  On success the loop consumed
/// `1 + more` tokens, the closing brace included.
pub open spec fn spec_parse_members(ts: Seq<TokenView>, i: int, acc: Seq<NodeView>) -> Result<
    (Seq<NodeView>, nat),
    JsonError,
>
    decreases toks_left(ts, i), 3int,
{
    if i < 0 || i >= ts.len() {
        Err(JsonError::UnexpectedToken)
    } else {
        match ts[i] {
            TokenView::RBrace => Ok((acc, 0)),
            TokenView::Comma => match spec_parse_members(ts, i + 1, acc) {
                Ok((ms, more)) => Ok((ms, 1 + more)),
                Err(e) => Err(e),
            },
            TokenView::StringValue(k) => match spec_parse_value(ts, i + 2) {
                Ok((v, vmore)) => match spec_parse_members(
                    ts,
                    i + 3 + vmore,
                    acc.push(NodeView::PropertyAssignment(k, Box::new(v))),
                ) {
                    Ok((ms, more)) => Ok((ms, 3 + vmore + more)),
                    Err(e) => Err(e),
                },
                Err(e) => Err(e),
            },
            _ => Err(JsonError::UnexpectedToken),
        }
    }
}

/// The array production at index `i`: mirrors the object production.
pub open spec fn spec_parse_array(ts: Seq<TokenView>, i: int) -> Result<
    (NodeView, nat),
    JsonError,
>
    decreases toks_left(ts, i), 0int,
{
    if i < 0 || i >= ts.len() {
        Err(JsonError::UnexpectedToken)
    } else {
        match spec_parse_elements(ts, i + 1, Seq::empty()) {
            Ok((es, more)) => Ok((NodeView::ArrayLiteralExpression(es), 1 + more)),
            Err(e) => Err(e),
        }
    }
}

/// The element loop of an array at index `i`, with the elements accumulated
/// so far.  A closing bracket ends the loop; a value-starting token is parsed
/// through the value production; a comma is skipped; anything else fails.
pub open spec fn spec_parse_elements(ts: Seq<TokenView>, i: int, acc: Seq<NodeView>) -> Result<
    (Seq<NodeView>, nat),
    JsonError,
>
    decreases toks_left(ts, i), 2int,
{
    if i < 0 || i >= ts.len() {
        Err(JsonError::UnexpectedToken)
    } else {
        match ts[i] {
            TokenView::RBracket => Ok((acc, 0)),
            TokenView::Comma => match spec_parse_elements(ts, i + 1, acc) {
                Ok((es, more)) => Ok((es, 1 + more)),
                Err(e) => Err(e),
            },
            TokenView::StringValue(_)
            | TokenView::NumberValue(_)
            | TokenView::BooleanValue(_)
            | TokenView::NullValue
            | TokenView::LBrace
            | TokenView::LBracket => match spec_parse_value(ts, i) {
                Ok((v, vmore)) => match spec_parse_elements(ts, i + 1 + vmore, acc.push(v)) {
                    Ok((es, more)) => Ok((es, 1 + vmore + more)),
                    Err(e) => Err(e),
                },
                Err(e) => Err(e),
            },
            _ => Err(JsonError::UnexpectedToken),
        }
    }
}

/// The document production at index `i`: the root must open an object or an
/// array; anything else, a bare scalar included, is rejected.  Tokens after
/// the root are left unread.
pub open spec fn spec_parse(ts: Seq<TokenView>, i: int) -> Result<(NodeView, nat), JsonError> {
    if 0 <= i < ts.len() && ts[i] is LBrace {
        spec_parse_object(ts, i)
    } else if 0 <= i < ts.len() && ts[i] is LBracket {
        spec_parse_array(ts, i)
    } else {
        Err(JsonError::UnexpectedToken)
    }
}

/// The height of a syntax tree: how deep its nesting goes.
pub open spec fn height(n: NodeView) -> nat
    decreases n,
{
    match n {
        NodeView::PropertyAssignment(_, v) => 1 + height(*v),
        NodeView::ObjectLiteralExpression(ms) => 1 + items_height(ms),
        NodeView::ArrayLiteralExpression(es) => 1 + items_height(es),
        _ => 0,
    }
}

/// The greatest height among the items of a sequence.
pub open spec fn items_height(items: Seq<NodeView>) -> nat
    decreases items,
{
    if items.len() == 0 {
        0
    } else if height(items[0]) >= items_height(items.drop_first()) {
        height(items[0])
    } else {
        items_height(items.drop_first())
    }
}

/// Pushing an item bounds the height by the maximum of both sides.
pub proof fn lemma_items_height_push(items: Seq<NodeView>, n: NodeView)
    ensures
        items_height(items.push(n)) <= items_height(items) || items_height(items.push(n))
            <= height(n),
        items_height(items) <= items_height(items.push(n)),
        height(n) <= items_height(items.push(n)),
    decreases items.len(),
{
    assert(items.push(n)[0] == if items.len() == 0 {
        n
    } else {
        items[0]
    });
    if items.len() == 0 {
        assert(items.push(n).drop_first() =~= Seq::<NodeView>::empty());
        assert(items_height(Seq::<NodeView>::empty()) == 0);
    } else {
        assert(items.push(n).drop_first() =~= items.drop_first().push(n));
        lemma_items_height_push(items.drop_first(), n);
        assert(items_height(items.push(n)) == (if height(items.push(n)[0]) >= items_height(
            items.push(n).drop_first(),
        ) {
            height(items.push(n)[0])
        } else {
            items_height(items.push(n).drop_first())
        }));
        assert(items_height(items) == (if height(items[0]) >= items_height(items.drop_first()) {
            height(items[0])
        } else {
            items_height(items.drop_first())
        }));
    }
}

/// Every item is bounded by the sequence's height.
pub proof fn lemma_items_height_index(items: Seq<NodeView>, i: int)
    requires
        0 <= i < items.len(),
    ensures
        height(items[i]) <= items_height(items),
    decreases items.len(),
{
    if i > 0 {
        lemma_items_height_index(items.drop_first(), i - 1);
    }
}

/// A parsed production is no taller than the number of tokens it consumed:
/// a success at index `i` with `more` extra tokens has height at most
/// `1 + more`.
pub proof fn lemma_parse_value_height(ts: Seq<TokenView>, i: int)
    ensures
        spec_parse_value(ts, i) matches Ok((n, more)) ==> height(n) <= 1 + more,
        spec_parse_object(ts, i) matches Ok((n, more)) ==> height(n) <= 1 + more,
        spec_parse_array(ts, i) matches Ok((n, more)) ==> height(n) <= 1 + more,
    decreases toks_left(ts, i), 1int,
{
    if 0 <= i < ts.len() {
        lemma_parse_members_height(ts, i + 1, Seq::empty());
        lemma_parse_elements_height(ts, i + 1, Seq::empty());
    }
}

/// The member loop's result is no taller than its consumption allows.
pub proof fn lemma_parse_members_height(ts: Seq<TokenView>, i: int, acc: Seq<NodeView>)
    ensures
        spec_parse_members(ts, i, acc) matches Ok((ms, more)) ==> (items_height(ms)
            <= items_height(acc) || items_height(ms) <= more),
    decreases toks_left(ts, i), 3int,
{
    if 0 <= i < ts.len() {
        match ts[i] {
            TokenView::Comma => {
                lemma_parse_members_height(ts, i + 1, acc);
            },
            TokenView::StringValue(k) => {
                lemma_parse_value_height(ts, i + 2);
                match spec_parse_value(ts, i + 2) {
                    Ok((v, vmore)) => {
                        let pa = NodeView::PropertyAssignment(k, Box::new(v));
                        lemma_items_height_push(acc, pa);
                        lemma_parse_members_height(ts, i + 3 + vmore, acc.push(pa));
                    },
                    Err(_) => {},
                }
            },
            _ => {},
        }
    }
}

/// The element loop's result is no taller than its consumption allows.
pub proof fn lemma_parse_elements_height(ts: Seq<TokenView>, i: int, acc: Seq<NodeView>)
    ensures
        spec_parse_elements(ts, i, acc) matches Ok((es, more)) ==> (items_height(es)
            <= items_height(acc) || items_height(es) <= more),
    decreases toks_left(ts, i), 2int,
{
    if 0 <= i < ts.len() {
        match ts[i] {
            TokenView::Comma => {
                lemma_parse_elements_height(ts, i + 1, acc);
            },
            TokenView::RBracket => {},
            TokenView::Colon | TokenView::End => {},
            _ => {
                lemma_parse_value_height(ts, i);
                match spec_parse_value(ts, i) {
                    Ok((v, vmore)) => {
                        lemma_items_height_push(acc, v);
                        lemma_parse_elements_height(ts, i + 1 + vmore, acc.push(v));
                    },
                    Err(_) => {},
                }
            },
        }
    }
}

/// The parser: a cursor over the token sequence with one token of lookahead.
pub struct Parser {
    tokens: Vec<Token>,
    pos: usize,
}

impl Parser {
    /// The whole token sequence, as views.
    pub closed spec fn toks(&self) -> Seq<TokenView> {
        views_of(self.tokens@)
    }

    /// The cursor: how many tokens have been consumed.
    pub closed spec fn cursor(&self) -> int {
        self.pos as int
    }

    /// The cursor never leaves the token sequence.
    pub open spec fn wf(&self) -> bool {
        0 <= self.cursor() <= self.toks().len()
    }

    /// Tokenizes the whole input up front; the token sequence then ends with
    /// the end sentinel.
    pub fn new(input: &str) -> (r: Result<Parser, JsonError>)
        ensures
            match spec_tokens(input@) {
                Ok(ts) => r matches Ok(p) && p.wf() && p.toks() == ts.push(TokenView::End)
                    && p.cursor() == 0,
                Err(e) => r == Err::<Parser, JsonError>(e),
            },
    {
        let mut tokenizer = Tokenizer::new(input);
        proof {
            assert(tokenizer.remaining() =~= input@);
        }
        match tokenizer.tokenize() {
            Ok(tokens) => Ok(Parser { tokens, pos: 0 }),
            Err(e) => Err(e),
        }
    }

    /// Looks at the next token without consuming it.
    pub fn peek_token(&self) -> (r: Option<&Token>)
        requires
            self.wf(),
        ensures
            match r {
                Some(t) => self.cursor() < self.toks().len() && t@ == self.toks()[self.cursor()],
                None => self.cursor() == self.toks().len(),
            },
    {
        if self.pos < self.tokens.len() {
            Some(&self.tokens[self.pos])
        } else {
            None
        }
    }

    /// Consumes and returns the next token.
    pub fn next_token(&mut self) -> (r: Option<Token>)
        requires
            old(self).wf(),
        ensures
            final(self).wf(),
            final(self).toks() == old(self).toks(),
            match r {
                Some(t) => old(self).cursor() < old(self).toks().len() && t@ == old(
                    self,
                ).toks()[old(self).cursor()] && final(self).cursor() == old(self).cursor() + 1,
                None => old(self).cursor() == old(self).toks().len() && final(self).cursor()
                    == old(self).cursor(),
            },
    {
        if self.pos < self.tokens.len() {
            let t = self.tokens[self.pos].clone();
            self.pos = self.pos + 1;
            Some(t)
        } else {
            None
        }
    }

    /// Consumes the next token, failing when the sequence is exhausted.
    pub fn consume_token(&mut self) -> (r: Result<Token, JsonError>)
        requires
            old(self).wf(),
        ensures
            final(self).wf(),
            final(self).toks() == old(self).toks(),
            old(self).cursor() < old(self).toks().len() ==> (r matches Ok(t) && t@ == old(
                self,
            ).toks()[old(self).cursor()] && final(self).cursor() == old(self).cursor() + 1),
            old(self).cursor() == old(self).toks().len() ==> r == Err::<Token, JsonError>(
                JsonError::UnexpectedToken,
            ) && final(self).cursor() == old(self).cursor(),
    {
        match self.next_token() {
            Some(t) => Ok(t),
            None => Err(JsonError::UnexpectedToken),
        }
    }

    /// Consumes one token that must be a string value and turns it into a
    /// string literal node.  The token is consumed even when it is not a
    /// string value.
    pub fn consume_string(&mut self) -> (r: Result<SyntaxKind, JsonError>)
        requires
            old(self).wf(),
        ensures
            final(self).wf(),
            final(self).toks() == old(self).toks(),
            old(self).cursor() == old(self).toks().len() ==> r == Err::<SyntaxKind, JsonError>(
                JsonError::UnexpectedToken,
            ) && final(self).cursor() == old(self).cursor(),
            old(self).cursor() < old(self).toks().len() ==> final(self).cursor() == old(
                self,
            ).cursor() + 1 && (match old(self).toks()[old(self).cursor()] {
                TokenView::StringValue(s) => r matches Ok(n) && n@ == NodeView::StringLiteral(s),
                _ => r == Err::<SyntaxKind, JsonError>(JsonError::UnexpectedToken),
            }),
    {
        match self.consume_token() {
            Err(e) => Err(e),
            Ok(Token::StringValue(s)) => Ok(SyntaxKind::StringLiteral(s)),
            Ok(_) => Err(JsonError::UnexpectedToken),
        }
    }

    /// Consumes one token that must be a number value and turns it into a
    /// number literal node.  The token is consumed even when it is not a
    /// number value.
    pub fn consume_number(&mut self) -> (r: Result<SyntaxKind, JsonError>)
        requires
            old(self).wf(),
        ensures
            final(self).wf(),
            final(self).toks() == old(self).toks(),
            old(self).cursor() == old(self).toks().len() ==> r == Err::<SyntaxKind, JsonError>(
                JsonError::UnexpectedToken,
            ) && final(self).cursor() == old(self).cursor(),
            old(self).cursor() < old(self).toks().len() ==> final(self).cursor() == old(
                self,
            ).cursor() + 1 && (match old(self).toks()[old(self).cursor()] {
                TokenView::NumberValue(s) => r matches Ok(n) && n@ == NodeView::NumberLiteral(s),
                _ => r == Err::<SyntaxKind, JsonError>(JsonError::UnexpectedToken),
            }),
    {
        match self.consume_token() {
            Err(e) => Err(e),
            Ok(Token::NumberValue(s)) => Ok(SyntaxKind::NumberLiteral(s)),
            Ok(_) => Err(JsonError::UnexpectedToken),
        }
    }

    /// Consumes one token that must be a boolean or null value and turns it
    /// into the matching keyword node.  The token is consumed even when it is
    /// neither.
    pub fn consume_keyword(&mut self) -> (r: Result<SyntaxKind, JsonError>)
        requires
            old(self).wf(),
        ensures
            final(self).wf(),
            final(self).toks() == old(self).toks(),
            old(self).cursor() == old(self).toks().len() ==> r == Err::<SyntaxKind, JsonError>(
                JsonError::UnexpectedToken,
            ) && final(self).cursor() == old(self).cursor(),
            old(self).cursor() < old(self).toks().len() ==> final(self).cursor() == old(
                self,
            ).cursor() + 1 && (match old(self).toks()[old(self).cursor()] {
                TokenView::BooleanValue(b) => r matches Ok(n) && n@ == (if b {
                    NodeView::TrueKeyword
                } else {
                    NodeView::FalseKeyword
                }),
                TokenView::NullValue => r matches Ok(n) && n@ == NodeView::NullKeyword,
                _ => r == Err::<SyntaxKind, JsonError>(JsonError::UnexpectedToken),
            }),
    {
        match self.consume_token() {
            Err(e) => Err(e),
            Ok(Token::BooleanValue(true)) => Ok(SyntaxKind::TrueKeyword),
            Ok(Token::BooleanValue(false)) => Ok(SyntaxKind::FalseKeyword),
            Ok(Token::NullValue) => Ok(SyntaxKind::NullKeyword),
            Ok(_) => Err(JsonError::UnexpectedToken),
        }
    }

    /// Consumes one property assignment: the key, which must be a string
    /// value in the lookahead, then the separator token, consumed without
    /// being checked, then the value production.
    pub fn consume_property_assignment(&mut self) -> (r: Result<SyntaxKind, JsonError>)
        requires
            old(self).wf(),
        ensures
            final(self).wf(),
            final(self).toks() == old(self).toks(),
            ({
                let ts = old(self).toks();
                let i = old(self).cursor();
                if i < ts.len() && ts[i] is StringValue {
                    match spec_parse_value(ts, i + 2) {
                        Ok((v, more)) => r matches Ok(n) && n@ == NodeView::PropertyAssignment(
                            ts[i]->StringValue_0,
                            Box::new(v),
                        ) && final(self).cursor() == i + 3 + more,
                        Err(e) => r == Err::<SyntaxKind, JsonError>(e) && i <= final(self).cursor()
                            <= ts.len(),
                    }
                } else {
                    r == Err::<SyntaxKind, JsonError>(JsonError::UnexpectedToken)
                        && final(self).cursor() == i
                }
            }),
        decreases old(self).toks().len() - old(self).cursor(), 2int,
    {
        let key: String;
        if self.pos < self.tokens.len() {
            match &self.tokens[self.pos] {
                Token::StringValue(s) => {
                    key = s.clone();
                },
                _ => {
                    return Err(JsonError::UnexpectedToken);
                },
            }
        } else {
            return Err(JsonError::UnexpectedToken);
        }
        self.pos = self.pos + 1;  // the key
        if self.pos < self.tokens.len() {
            self.pos = self.pos + 1;  // the separator, consumed without being checked
        } else {
            return Err(JsonError::UnexpectedToken);
        }
        match self.parse_value() {
            Ok(v) => Ok(SyntaxKind::PropertyAssignment(key, Box::new(v))),
            Err(e) => Err(e),
        }
    }

    /// Consumes an object literal: the opening token unconditionally, then
    /// the member loop.
    pub fn consume_object(&mut self) -> (r: Result<SyntaxKind, JsonError>)
        requires
            old(self).wf(),
        ensures
            final(self).wf(),
            final(self).toks() == old(self).toks(),
            match spec_parse_object(old(self).toks(), old(self).cursor()) {
                Ok((n, more)) => r matches Ok(node) && node@ == n && final(self).cursor() == old(
                    self,
                ).cursor() + 1 + more,
                Err(e) => r == Err::<SyntaxKind, JsonError>(e)
                    && old(self).cursor() <= final(self).cursor() <= old(self).toks().len(),
            },
        decreases old(self).toks().len() - old(self).cursor(), 0int,
    {
        let mut members: Vec<SyntaxKind> = Vec::new();
        if self.pos >= self.tokens.len() {
            return Err(JsonError::UnexpectedToken);
        }
        self.pos = self.pos + 1;  // the opening token, consumed unconditionally
        loop
            invariant
                self.wf(),
                old(self).wf(),
                self.toks() == old(self).toks(),
                old(self).cursor() + 1 <= self.cursor(),
                old(self).cursor() < old(self).toks().len(),
                match spec_parse_members(self.toks(), self.cursor(), node_views(members@)) {
                    Ok((ms, more)) => spec_parse_object(old(self).toks(), old(self).cursor())
                        == Ok::<(NodeView, nat), JsonError>(
                        (
                            NodeView::ObjectLiteralExpression(ms),
                            (self.cursor() - old(self).cursor() + more) as nat,
                        ),
                    ),
                    Err(e) => spec_parse_object(old(self).toks(), old(self).cursor()) == Err::<
                        (NodeView, nat),
                        JsonError,
                    >(e),
                },
            decreases self.toks().len() - self.cursor(),
        {
            if self.pos >= self.tokens.len() {
                return Err(JsonError::UnexpectedToken);
            }
            if matches!(&self.tokens[self.pos], Token::RBrace) {
                self.pos = self.pos + 1;
                return Ok(SyntaxKind::ObjectLiteralExpression(members));
            } else if matches!(&self.tokens[self.pos], Token::Comma) {
                self.pos = self.pos + 1;
            } else if matches!(&self.tokens[self.pos], Token::StringValue(_)) {
                let ghost members0 = members@;
                match self.consume_property_assignment() {
                    Ok(node) => {
                        proof {
                            lemma_node_views_push(members0, node);
                        }
                        members.push(node);
                    },
                    Err(e) => {
                        return Err(e);
                    },
                }
            } else {
                return Err(JsonError::UnexpectedToken);
            }
        }
    }

    /// Consumes an array literal: the opening token unconditionally, then
    /// the element loop.
    pub fn consume_array(&mut self) -> (r: Result<SyntaxKind, JsonError>)
        requires
            old(self).wf(),
        ensures
            final(self).wf(),
            final(self).toks() == old(self).toks(),
            match spec_parse_array(old(self).toks(), old(self).cursor()) {
                Ok((n, more)) => r matches Ok(node) && node@ == n && final(self).cursor() == old(
                    self,
                ).cursor() + 1 + more,
                Err(e) => r == Err::<SyntaxKind, JsonError>(e)
                    && old(self).cursor() <= final(self).cursor() <= old(self).toks().len(),
            },
        decreases old(self).toks().len() - old(self).cursor(), 0int,
    {
        let mut elements: Vec<SyntaxKind> = Vec::new();
        if self.pos >= self.tokens.len() {
            return Err(JsonError::UnexpectedToken);
        }
        self.pos = self.pos + 1;  // the opening token, consumed unconditionally
        loop
            invariant
                self.wf(),
                old(self).wf(),
                self.toks() == old(self).toks(),
                old(self).cursor() + 1 <= self.cursor(),
                old(self).cursor() < old(self).toks().len(),
                match spec_parse_elements(self.toks(), self.cursor(), node_views(elements@)) {
                    Ok((es, more)) => spec_parse_array(old(self).toks(), old(self).cursor())
                        == Ok::<(NodeView, nat), JsonError>(
                        (
                            NodeView::ArrayLiteralExpression(es),
                            (self.cursor() - old(self).cursor() + more) as nat,
                        ),
                    ),
                    Err(e) => spec_parse_array(old(self).toks(), old(self).cursor()) == Err::<
                        (NodeView, nat),
                        JsonError,
                    >(e),
                },
            decreases self.toks().len() - self.cursor(),
        {
            if self.pos >= self.tokens.len() {
                return Err(JsonError::UnexpectedToken);
            }
            if matches!(&self.tokens[self.pos], Token::RBracket) {
                self.pos = self.pos + 1;
                return Ok(SyntaxKind::ArrayLiteralExpression(elements));
            } else if matches!(&self.tokens[self.pos], Token::Comma) {
                self.pos = self.pos + 1;
            } else if matches!(&self.tokens[self.pos], Token::Colon) || matches!(
                &self.tokens[self.pos],
                Token::End,
            ) {
                return Err(JsonError::UnexpectedToken);
            } else {
                let ghost elements0 = elements@;
                match self.parse_value() {
                    Ok(v) => {
                        proof {
                            lemma_node_views_push(elements0, v);
                        }
                        elements.push(v);
                    },
                    Err(e) => {
                        return Err(e);
                    },
                }
            }
        }
    }

    /// The value production: dispatches on the lookahead token.
    pub fn parse_value(&mut self) -> (r: Result<SyntaxKind, JsonError>)
        requires
            old(self).wf(),
        ensures
            final(self).wf(),
            final(self).toks() == old(self).toks(),
            match spec_parse_value(old(self).toks(), old(self).cursor()) {
                Ok((n, more)) => r matches Ok(node) && node@ == n && final(self).cursor() == old(
                    self,
                ).cursor() + 1 + more,
                Err(e) => r == Err::<SyntaxKind, JsonError>(e)
                    && old(self).cursor() <= final(self).cursor() <= old(self).toks().len(),
            },
        decreases old(self).toks().len() - old(self).cursor(), 1int,
    {
        if self.pos >= self.tokens.len() {
            return Err(JsonError::UnexpectedToken);
        }
        if matches!(&self.tokens[self.pos], Token::StringValue(_)) {
            self.consume_string()
        } else if matches!(&self.tokens[self.pos], Token::NumberValue(_)) {
            self.consume_number()
        } else if matches!(&self.tokens[self.pos], Token::BooleanValue(_)) || matches!(
            &self.tokens[self.pos],
            Token::NullValue,
        ) {
            self.consume_keyword()
        } else if matches!(&self.tokens[self.pos], Token::LBrace) {
            self.consume_object()
        } else if matches!(&self.tokens[self.pos], Token::LBracket) {
            self.consume_array()
        } else {
            Err(JsonError::UnexpectedToken)
        }
    }

    /// Parses one document: the first token must open an object or an array;
    /// anything else, a bare scalar included, is rejected at once.
    pub fn parse(&mut self) -> (r: Result<SyntaxKind, JsonError>)
        requires
            old(self).wf(),
        ensures
            final(self).wf(),
            final(self).toks() == old(self).toks(),
            match spec_parse(old(self).toks(), old(self).cursor()) {
                Ok((n, more)) => r matches Ok(node) && node@ == n && final(self).cursor() == old(
                    self,
                ).cursor() + 1 + more,
                Err(e) => r == Err::<SyntaxKind, JsonError>(e)
                    && old(self).cursor() <= final(self).cursor() <= old(self).toks().len(),
            },
    {
        if self.pos < self.tokens.len() {
            if matches!(&self.tokens[self.pos], Token::LBrace) {
                return self.consume_object();
            }
            if matches!(&self.tokens[self.pos], Token::LBracket) {
                return self.consume_array();
            }
        }
        Err(JsonError::UnexpectedToken)
    }
}

} // verus!
