//! The stated properties of the library: formatting is stable under
//! repetition, formatting preserves the parsed tree and with it the order of
//! members and elements, and the trailing-comma option adds exactly one
//! comma per nonempty container.
//!
//! The proofs go through a well-formedness predicate on trees (what the
//! parser in fact produces from any tokenizer output) and through the token
//! image of a tree (what tokenizing its rendering yields back).

use vstd::prelude::*;

use crate::error::JsonError;
use crate::format::FormatOptions;
use crate::format::indent_unit;
use crate::format::spec_format;
use crate::format::spec_indent;
use crate::format::spec_render;
use crate::format::spec_render_items;
use crate::format::spec_trailing;
use crate::node::NodeView;
use crate::node::spec_parse;
use crate::node::spec_parse_array;
use crate::node::spec_parse_elements;
use crate::node::spec_parse_members;
use crate::node::spec_parse_object;
use crate::node::spec_parse_value;
use crate::node::toks_left;
use crate::number::canonical_numeral;
use crate::number::lemma_canon_number_canonical;
use crate::text::is_alnum_char;
use crate::text::is_alpha_char;
use crate::text::is_digit_char;
use crate::text::is_whitespace_char;
use crate::token::TokenView;
use crate::token::keyword_token;
use crate::token::lemma_alnum_run_is;
use crate::token::lemma_next_token_used;
use crate::token::lemma_nonquote_run_is;
use crate::token::lemma_numeral_run_is;
use crate::token::lemma_ws_run;
use crate::token::lemma_ws_run_is;
use crate::token::numeral_run;
use crate::token::punct_token;
use crate::token::spec_next_token;
use crate::token::spec_tokens;
use crate::token::ws_run;

verus! {

/// Text without a double quote, so it survives being quoted verbatim.
pub open spec fn quote_free(s: Seq<char>) -> bool {
    forall|i: int| 0 <= i < s.len() ==> s[i] != '"'
}

/// A token as the tokenizer produces it: string content is quote-free and
/// number text is a canonical numeral.
pub open spec fn wf_token(t: TokenView) -> bool {
    match t {
        TokenView::StringValue(s) => quote_free(s),
        TokenView::NumberValue(s) => canonical_numeral(s),
        _ => true,
    }
}

/// Every token of the sequence is well formed.
pub open spec fn wf_tokens(ts: Seq<TokenView>) -> bool {
    forall|i: int| 0 <= i < ts.len() ==> wf_token(#[trigger] ts[i])
}

/// The tokenizer only produces well-formed tokens.
pub proof fn lemma_tokens_wf(s: Seq<char>)
    ensures
        spec_tokens(s) matches Ok(ts) ==> wf_tokens(ts),
    decreases s.len(),
{
    lemma_next_token_used(s);
    let w = ws_run(s);
    let t = s.skip(w as int);
    match spec_next_token(s) {
        Err(_) => {},
        Ok((tok, used)) => {
            if tok is End {
            } else {
                assert(wf_token(tok)) by {
                    if t.len() > 0 && punct_token(t[0]) is None && t[0] == '"' {
                        let body = t.skip(1);
                        crate::token::lemma_nonquote_run(body);
                    } else if t.len() > 0 && punct_token(t[0]) is None && t[0] != '"'
                        && is_digit_char(t[0]) {
                        let run = t.take(numeral_run(t) as int);
                        if crate::number::numeral_ok(run) {
                            lemma_canon_number_canonical(run);
                        }
                    }
                }
                lemma_tokens_wf(s.skip(used as int));
                match spec_tokens(s.skip(used as int)) {
                    Ok(ts2) => {
                        assert forall|i: int|
                            0 <= i < (seq![tok] + ts2).len() implies wf_token(
                            #[trigger] (seq![tok] + ts2)[i],
                        ) by {
                            if i > 0 {
                                assert(wf_token(ts2[i - 1]));
                            }
                        }
                    },
                    Err(_) => {},
                }
            }
        },
    }
}

/// A well-formed value node: quote-free strings, canonical numerals, and
/// composites of well-formed children; a property assignment is not itself
/// a value.
pub open spec fn wf_value(n: NodeView) -> bool
    decreases n,
{
    match n {
        NodeView::StringLiteral(s) => quote_free(s),
        NodeView::NumberLiteral(s) => canonical_numeral(s),
        NodeView::TrueKeyword => true,
        NodeView::FalseKeyword => true,
        NodeView::NullKeyword => true,
        NodeView::PropertyAssignment(_, _) => false,
        NodeView::ObjectLiteralExpression(ms) => wf_members(ms),
        NodeView::ArrayLiteralExpression(es) => wf_elements(es),
    }
}

/// Well-formed object members: each one a property assignment with a
/// quote-free key and a well-formed value.
pub open spec fn wf_members(ms: Seq<NodeView>) -> bool
    decreases ms,
{
    if ms.len() == 0 {
        true
    } else {
        (ms[0] matches NodeView::PropertyAssignment(k, v) && quote_free(k) && wf_value(*v))
            && wf_members(ms.drop_first())
    }
}

/// Well-formed array elements: each one a well-formed value.
pub open spec fn wf_elements(es: Seq<NodeView>) -> bool
    decreases es,
{
    if es.len() == 0 {
        true
    } else {
        wf_value(es[0]) && wf_elements(es.drop_first())
    }
}

/// Appending a well-formed member keeps the members well formed.
pub proof fn lemma_wf_members_push(ms: Seq<NodeView>, n: NodeView)
    requires
        wf_members(ms),
        n matches NodeView::PropertyAssignment(k, v) && quote_free(k) && wf_value(*v),
    ensures
        wf_members(ms.push(n)),
    decreases ms.len(),
{
    if ms.len() == 0 {
        assert(ms.push(n)[0] == n);
        assert(ms.push(n).drop_first() =~= Seq::<NodeView>::empty());
        assert(wf_members(Seq::<NodeView>::empty()));
    } else {
        assert(ms.push(n)[0] == ms[0]);
        assert(ms.push(n).drop_first() =~= ms.drop_first().push(n));
        lemma_wf_members_push(ms.drop_first(), n);
    }
}

/// Appending a well-formed element keeps the elements well formed.
pub proof fn lemma_wf_elements_push(es: Seq<NodeView>, n: NodeView)
    requires
        wf_elements(es),
        wf_value(n),
    ensures
        wf_elements(es.push(n)),
    decreases es.len(),
{
    if es.len() == 0 {
        assert(es.push(n)[0] == n);
        assert(es.push(n).drop_first() =~= Seq::<NodeView>::empty());
        assert(wf_elements(Seq::<NodeView>::empty()));
    } else {
        assert(es.push(n)[0] == es[0]);
        assert(es.push(n).drop_first() =~= es.drop_first().push(n));
        lemma_wf_elements_push(es.drop_first(), n);
    }
}

/// Parsing well-formed tokens yields a well-formed value.
pub proof fn lemma_parse_value_wf(ts: Seq<TokenView>, i: int)
    requires
        wf_tokens(ts),
    ensures
        spec_parse_value(ts, i) matches Ok((n, _)) ==> wf_value(n),
        spec_parse_object(ts, i) matches Ok((n, _)) ==> wf_value(n)
            && n is ObjectLiteralExpression,
        spec_parse_array(ts, i) matches Ok((n, _)) ==> wf_value(n) && n is ArrayLiteralExpression,
    decreases toks_left(ts, i), 1int,
{
    if 0 <= i < ts.len() {
        assert(wf_token(ts[i]));
        lemma_parse_members_wf(ts, i + 1, Seq::empty());
        lemma_parse_elements_wf(ts, i + 1, Seq::empty());
    }
}

/// The member loop of well-formed tokens accumulates well-formed members.
pub proof fn lemma_parse_members_wf(ts: Seq<TokenView>, i: int, acc: Seq<NodeView>)
    requires
        wf_tokens(ts),
        wf_members(acc),
    ensures
        spec_parse_members(ts, i, acc) matches Ok((ms, _)) ==> wf_members(ms),
    decreases toks_left(ts, i), 3int,
{
    if 0 <= i < ts.len() {
        assert(wf_token(ts[i]));
        match ts[i] {
            TokenView::Comma => {
                lemma_parse_members_wf(ts, i + 1, acc);
            },
            TokenView::StringValue(k) => {
                lemma_parse_value_wf(ts, i + 2);
                match spec_parse_value(ts, i + 2) {
                    Ok((v, vmore)) => {
                        let pa = NodeView::PropertyAssignment(k, Box::new(v));
                        lemma_wf_members_push(acc, pa);
                        lemma_parse_members_wf(ts, i + 3 + vmore, acc.push(pa));
                    },
                    Err(_) => {},
                }
            },
            _ => {},
        }
    }
}

/// The element loop of well-formed tokens accumulates well-formed elements.
pub proof fn lemma_parse_elements_wf(ts: Seq<TokenView>, i: int, acc: Seq<NodeView>)
    requires
        wf_tokens(ts),
        wf_elements(acc),
    ensures
        spec_parse_elements(ts, i, acc) matches Ok((es, _)) ==> wf_elements(es),
    decreases toks_left(ts, i), 2int,
{
    if 0 <= i < ts.len() {
        match ts[i] {
            TokenView::Comma => {
                lemma_parse_elements_wf(ts, i + 1, acc);
            },
            TokenView::RBracket | TokenView::Colon | TokenView::End => {},
            _ => {
                lemma_parse_value_wf(ts, i);
                match spec_parse_value(ts, i) {
                    Ok((v, vmore)) => {
                        lemma_wf_elements_push(acc, v);
                        lemma_parse_elements_wf(ts, i + 1 + vmore, acc.push(v));
                    },
                    Err(_) => {},
                }
            },
        }
    }
}

/// The token image of a tree: what tokenizing its rendering yields back.
/// The flag says whether trailing commas are being rendered.
pub open spec fn toks_of_value(n: NodeView, tc: bool) -> Seq<TokenView>
    decreases n,
{
    match n {
        NodeView::StringLiteral(s) => seq![TokenView::StringValue(s)],
        NodeView::NumberLiteral(s) => seq![TokenView::NumberValue(s)],
        NodeView::TrueKeyword => seq![TokenView::BooleanValue(true)],
        NodeView::FalseKeyword => seq![TokenView::BooleanValue(false)],
        NodeView::NullKeyword => seq![TokenView::NullValue],
        NodeView::PropertyAssignment(k, v) => seq![TokenView::StringValue(k), TokenView::Colon]
            + toks_of_value(*v, tc),
        NodeView::ObjectLiteralExpression(ms) => seq![TokenView::LBrace] + toks_of_items(
            ms,
            tc,
            true,
        ) + (if tc && ms.len() > 0 {
            seq![TokenView::Comma]
        } else {
            Seq::empty()
        }) + seq![TokenView::RBrace],
        NodeView::ArrayLiteralExpression(es) => seq![TokenView::LBracket] + toks_of_items(
            es,
            tc,
            true,
        ) + (if tc && es.len() > 0 {
            seq![TokenView::Comma]
        } else {
            Seq::empty()
        }) + seq![TokenView::RBracket],
    }
}

/// The token image of the items of a composite: a separating comma before
/// each item but the very first, then the item's own tokens.
pub open spec fn toks_of_items(items: Seq<NodeView>, tc: bool, first: bool) -> Seq<TokenView>
    decreases items,
{
    if items.len() == 0 {
        Seq::empty()
    } else {
        (if first {
            Seq::<TokenView>::empty()
        } else {
            seq![TokenView::Comma]
        }) + toks_of_value(items[0], tc) + toks_of_items(items.drop_first(), tc, false)
    }
}

/// Every value has at least one token, beginning with a value-starting one.
pub proof fn lemma_toks_of_value_first(n: NodeView, tc: bool)
    requires
        wf_value(n),
    ensures
        toks_of_value(n, tc).len() >= 1,
        !(toks_of_value(n, tc)[0] is Comma),
        !(toks_of_value(n, tc)[0] is Colon),
        !(toks_of_value(n, tc)[0] is RBrace),
        !(toks_of_value(n, tc)[0] is RBracket),
        !(toks_of_value(n, tc)[0] is End),
{
}

/// A property assignment with a quote-free key and a well-formed value.
pub open spec fn wf_property(n: NodeView) -> bool {
    n matches NodeView::PropertyAssignment(k, v) && quote_free(k) && wf_value(*v)
}

/// One thing a composite renders per line: a value, or a property
/// assignment.
pub open spec fn wf_item(n: NodeView) -> bool {
    wf_value(n) || wf_property(n)
}

/// Every item of the sequence is a well-formed value or property.
pub open spec fn wf_items(items: Seq<NodeView>) -> bool
    decreases items,
{
    if items.len() == 0 {
        true
    } else {
        wf_item(items[0]) && wf_items(items.drop_first())
    }
}

/// Well-formed members are well-formed items.
pub proof fn lemma_wf_members_items(ms: Seq<NodeView>)
    requires
        wf_members(ms),
    ensures
        wf_items(ms),
    decreases ms.len(),
{
    if ms.len() > 0 {
        lemma_wf_members_items(ms.drop_first());
    }
}

/// Well-formed elements are well-formed items.
pub proof fn lemma_wf_elements_items(es: Seq<NodeView>)
    requires
        wf_elements(es),
    ensures
        wf_items(es),
    decreases es.len(),
{
    if es.len() > 0 {
        lemma_wf_elements_items(es.drop_first());
    }
}

/// Prefixes a token sequence onto a scanning outcome.
pub open spec fn prepend_toks(p: Seq<TokenView>, r: Result<Seq<TokenView>, JsonError>) -> Result<
    Seq<TokenView>,
    JsonError,
> {
    match r {
        Ok(u) => Ok(p + u),
        Err(e) => Err(e),
    }
}

/// Text at which a rendered value may stop: the end of the output, a
/// separating comma, or the line break before a closing delimiter.
pub open spec fn safe_break(s: Seq<char>) -> bool {
    s.len() == 0 || s[0] == ',' || s[0] == '\n'
}

/// Indentation is all whitespace.
pub proof fn lemma_indent_ws(opts: FormatOptions, depth: nat)
    ensures
        forall|i: int|
            0 <= i < spec_indent(opts, depth).len() ==> is_whitespace_char(
                #[trigger] spec_indent(opts, depth)[i],
            ),
    decreases depth,
{
    if depth > 0 {
        lemma_indent_ws(opts, (depth - 1) as nat);
        assert forall|i: int|
            0 <= i < spec_indent(opts, depth).len() implies is_whitespace_char(
            #[trigger] spec_indent(opts, depth)[i],
        ) by {
            if i >= indent_unit(opts).len() {
                assert(is_whitespace_char(spec_indent(opts, (depth - 1) as nat)[i - indent_unit(
                    opts,
                ).len()]));
            }
        }
    }
}

/// Scanning skips an all-whitespace prefix.
pub proof fn lemma_tokens_ws_prefix(w: Seq<char>, s: Seq<char>)
    requires
        forall|i: int| 0 <= i < w.len() ==> is_whitespace_char(#[trigger] w[i]),
    ensures
        spec_tokens(w + s) == spec_tokens(s),
{
    lemma_ws_run(s);
    assert forall|i: int|
        0 <= i < w.len() + ws_run(s) implies is_whitespace_char(#[trigger] (w + s)[i]) by {
        if i < w.len() {
            assert(is_whitespace_char(w[i]));
        } else {
            assert(is_whitespace_char(s[i - w.len()]));
        }
    }
    lemma_ws_run_is(w + s, (w.len() + ws_run(s)) as nat);
    assert((w + s).skip(ws_run(w + s) as int) =~= s.skip(ws_run(s) as int));
    lemma_next_token_used(s);
    lemma_next_token_used(w + s);
    match spec_next_token(s) {
        Err(_) => {},
        Ok((tok, used)) => {
            if !(tok is End) {
                assert((w + s).skip((w.len() + used) as int) =~= s.skip(used as int));
            }
        },
    }
}

/// Scanning one punctuation character yields its token.
pub proof fn lemma_tokens_punct(c: char, s: Seq<char>)
    requires
        punct_token(c) is Some,
    ensures
        spec_tokens(seq![c] + s) == prepend_toks(seq![punct_token(c).unwrap()], spec_tokens(s)),
{
    let w = seq![c] + s;
    assert(w[0] == c);
    assert(!is_whitespace_char(c));
    assert(ws_run(w) == 0);
    assert(w.skip(0) =~= w);
    assert(w.skip(1) =~= s);
    match spec_tokens(s) {
        Ok(u) => {},
        Err(_) => {},
    }
}

/// Scanning a quoted, quote-free content yields its string token.
pub proof fn lemma_tokens_string(content: Seq<char>, s: Seq<char>)
    requires
        quote_free(content),
    ensures
        spec_tokens(seq!['"'] + content + seq!['"'] + s) == prepend_toks(
            seq![TokenView::StringValue(content)],
            spec_tokens(s),
        ),
{
    let w = seq!['"'] + content + seq!['"'] + s;
    assert(w[0] == '"');
    assert(ws_run(w) == 0);
    assert(w.skip(0) =~= w);
    let body = w.skip(1);
    assert(body =~= content + seq!['"'] + s);
    assert forall|i: int| 0 <= i < content.len() implies body[i] != '"' by {
        assert(body[i] == content[i]);
    }
    assert(body[content.len() as int] == '"');
    lemma_nonquote_run_is(body, content.len() as nat);
    assert(body.take(content.len() as int) =~= content);
    assert(w.skip(content.len() as int + 2) =~= s);
}

/// Scanning a canonical numeral, followed by anything that cannot extend
/// it, yields its number token.
pub proof fn lemma_tokens_number(num: Seq<char>, s: Seq<char>)
    requires
        canonical_numeral(num),
        s.len() == 0 || !(is_digit_char(s[0]) || s[0] == '.'),
    ensures
        spec_tokens(num + s) == prepend_toks(seq![TokenView::NumberValue(num)], spec_tokens(s)),
{
    let w = num + s;
    assert(w[0] == num[0]);
    assert(is_digit_char(num[0]));
    assert(!is_whitespace_char(w[0]));
    assert(ws_run(w) == 0);
    assert(w.skip(0) =~= w);
    assert(punct_token(w[0]) is None);
    assert(w[0] != '"');
    assert forall|i: int|
        0 <= i < num.len() implies is_digit_char(#[trigger] w[i]) || w[i] == '.' by {
        assert(w[i] == num[i]);
    }
    lemma_numeral_run_is(w, num.len() as nat);
    assert(w.take(num.len() as int) =~= num);
    assert(w.skip(num.len() as int) =~= s);
}

/// Scanning a keyword, followed by anything that cannot extend it, yields
/// its token.
pub proof fn lemma_tokens_keyword(word: Seq<char>, tok: TokenView, s: Seq<char>)
    requires
        keyword_token(word) == Some(tok),
        word.len() > 0,
        is_alpha_char(word[0]),
        forall|i: int| 0 <= i < word.len() ==> is_alnum_char(#[trigger] word[i]),
        s.len() == 0 || !is_alnum_char(s[0]),
    ensures
        spec_tokens(word + s) == prepend_toks(seq![tok], spec_tokens(s)),
{
    let w = word + s;
    assert(w[0] == word[0]);
    assert(!is_whitespace_char(w[0]));
    assert(ws_run(w) == 0);
    assert(w.skip(0) =~= w);
    assert(punct_token(w[0]) is None);
    assert(w[0] != '"');
    assert(!is_digit_char(w[0]));
    assert forall|i: int| 0 <= i < word.len() implies is_alnum_char(#[trigger] w[i]) by {
        assert(w[i] == word[i]);
    }
    lemma_alnum_run_is(w, word.len() as nat);
    assert(w.take(word.len() as int) =~= word);
    assert(w.skip(word.len() as int) =~= s);
}

/// Tokenizing the rendering of a well-formed value or property, followed by
/// safe text, yields its token image followed by the tokens of that text.
#[verifier::rlimit(100)]
#[verifier::spinoff_prover]
pub proof fn lemma_render_tokens(n: NodeView, opts: FormatOptions, depth: nat, rest: Seq<char>)
    requires
        wf_item(n),
        safe_break(rest),
    ensures
        spec_tokens(spec_render(n, opts, depth) + rest) == prepend_toks(
            toks_of_value(n, opts.trailing_commas),
            spec_tokens(rest),
        ),
    decreases n, 1int,
{
    let tc = opts.trailing_commas;
    match n {
        NodeView::StringLiteral(s) => {
            lemma_tokens_string(s, rest);
        },
        NodeView::NumberLiteral(s) => {
            lemma_tokens_number(s, rest);
        },
        NodeView::TrueKeyword => {
            lemma_tokens_keyword(seq!['t', 'r', 'u', 'e'], TokenView::BooleanValue(true), rest);
        },
        NodeView::FalseKeyword => {
            lemma_tokens_keyword(
                seq!['f', 'a', 'l', 's', 'e'],
                TokenView::BooleanValue(false),
                rest,
            );
        },
        NodeView::NullKeyword => {
            lemma_tokens_keyword(seq!['n', 'u', 'l', 'l'], TokenView::NullValue, rest);
        },
        NodeView::PropertyAssignment(k, v) => {
            let s2 = seq![' '] + (spec_render(*v, opts, depth) + rest);
            let s1 = seq![':'] + s2;
            assert(spec_render(n, opts, depth) + rest =~= seq!['"'] + k + seq!['"'] + s1);
            lemma_tokens_string(k, s1);
            lemma_tokens_punct(':', s2);
            lemma_tokens_ws_prefix(seq![' '], spec_render(*v, opts, depth) + rest);
            lemma_render_tokens(*v, opts, depth, rest);
            match spec_tokens(rest) {
                Ok(u) => {
                    assert(seq![TokenView::StringValue(k)] + (seq![TokenView::Colon] + (
                    toks_of_value(*v, tc) + u)) =~= toks_of_value(n, tc) + u);
                },
                Err(_) => {},
            }
        },
        NodeView::ObjectLiteralExpression(ms) => {
            lemma_render_tokens_object(n, opts, depth, rest);
        },
        NodeView::ArrayLiteralExpression(es) => {
            lemma_render_tokens_array(n, opts, depth, rest);
        },
    }
}

/// Tokenizing the rendered item lines, followed by safe text, yields the
/// items' token image followed by the tokens of that text.
#[verifier::rlimit(80)]
pub proof fn lemma_render_items_tokens(
    items: Seq<NodeView>,
    opts: FormatOptions,
    depth: nat,
    first: bool,
    tail: Seq<char>,
)
    requires
        wf_items(items),
        safe_break(tail),
    ensures
        spec_tokens(spec_render_items(items, opts, depth, first) + tail) == prepend_toks(
            toks_of_items(items, opts.trailing_commas, first),
            spec_tokens(tail),
        ),
    decreases items, 0int,
{
    let tc = opts.trailing_commas;
    if items.len() == 0 {
        assert(spec_render_items(items, opts, depth, first) + tail =~= tail);
        match spec_tokens(tail) {
            Ok(u) => {
                assert(Seq::<TokenView>::empty() + u =~= u);
            },
            Err(_) => {},
        }
    } else {
        let head = items[0];
        let tail_items = spec_render_items(items.drop_first(), opts, depth, false);
        let tail2 = tail_items + tail;
        assert(safe_break(tail2)) by {
            if items.drop_first().len() > 0 {
                assert(tail_items[0] == ',');
            } else {
                assert(tail2 =~= tail);
            }
        }
        let ws_part = seq!['\n'] + spec_indent(opts, depth);
        lemma_indent_ws(opts, depth);
        let value_part = spec_render(head, opts, depth) + tail2;
        lemma_tokens_ws_prefix(ws_part, value_part);
        lemma_render_tokens(head, opts, depth, tail2);
        lemma_render_items_tokens(items.drop_first(), opts, depth, false, tail);
        if first {
            assert(spec_render_items(items, opts, depth, first) + tail =~= ws_part + value_part);
            match spec_tokens(tail) {
                Ok(u) => {
                    assert(toks_of_value(head, tc) + (toks_of_items(items.drop_first(), tc, false)
                        + u) =~= toks_of_items(items, tc, first) + u);
                },
                Err(_) => {},
            }
        } else {
            let s2 = ws_part + value_part;
            assert(spec_render_items(items, opts, depth, first) + tail =~= seq![','] + s2);
            lemma_tokens_punct(',', s2);
            match spec_tokens(tail) {
                Ok(u) => {
                    assert(seq![TokenView::Comma] + (toks_of_value(head, tc) + (toks_of_items(
                        items.drop_first(),
                        tc,
                        false,
                    ) + u)) =~= toks_of_items(items, tc, first) + u);
                },
                Err(_) => {},
            }
        }
    }
}

/// The object case of `lemma_render_tokens`.
#[verifier::rlimit(100)]
#[verifier::spinoff_prover]
pub proof fn lemma_render_tokens_object(n: NodeView, opts: FormatOptions, depth: nat, rest: Seq<char>)
    requires
        n is ObjectLiteralExpression,
        wf_value(n),
        safe_break(rest),
    ensures
        spec_tokens(spec_render(n, opts, depth) + rest) == prepend_toks(
            toks_of_value(n, opts.trailing_commas),
            spec_tokens(rest),
        ),
    decreases n, 0int,
{
    let tc = opts.trailing_commas;
    let ms = n->ObjectLiteralExpression_0;

            let items_txt = spec_render_items(ms, opts, depth + 1, true);
            let closing = spec_trailing(opts, ms.len()) + seq!['\n'] + spec_indent(opts, depth)
                + seq!['}'] + rest;
            assert(spec_render(n, opts, depth) + rest =~= seq!['{'] + (items_txt + closing));
            lemma_tokens_punct('{', items_txt + closing);
            assert(safe_break(closing)) by {
                if tc && ms.len() > 0 {
                    assert(closing[0] == ',');
                } else {
                    assert(closing[0] == '\n');
                }
            }
            lemma_wf_members_items(ms);
            lemma_render_items_tokens(ms, opts, depth + 1, true, closing);
            let after = seq!['}'] + rest;
            lemma_tokens_punct('}', rest);
            if tc && ms.len() > 0 {
                let closing2 = seq!['\n'] + spec_indent(opts, depth) + after;
                assert(closing =~= seq![','] + closing2);
                lemma_tokens_punct(',', closing2);
                lemma_indent_ws(opts, depth);
                assert(closing2 =~= (seq!['\n'] + spec_indent(opts, depth)) + after);
                lemma_tokens_ws_prefix(seq!['\n'] + spec_indent(opts, depth), after);
                match spec_tokens(rest) {
                    Ok(u) => {
                        assert(toks_of_items(ms, tc, true) + (seq![TokenView::Comma] + (seq![
                            TokenView::RBrace,
                        ] + u)) =~= toks_of_items(ms, tc, true) + seq![TokenView::Comma] + seq![
                            TokenView::RBrace,
                        ] + u);
                        assert(seq![TokenView::LBrace] + (toks_of_items(ms, tc, true) + seq![
                            TokenView::Comma,
                        ] + seq![TokenView::RBrace] + u) =~= toks_of_value(n, tc) + u);
                    },
                    Err(_) => {},
                }
            } else {
                assert(closing =~= (seq!['\n'] + spec_indent(opts, depth)) + after);
                lemma_indent_ws(opts, depth);
                lemma_tokens_ws_prefix(seq!['\n'] + spec_indent(opts, depth), after);
                match spec_tokens(rest) {
                    Ok(u) => {
                        assert(seq![TokenView::LBrace] + (toks_of_items(ms, tc, true) + (seq![
                            TokenView::RBrace,
                        ] + u)) =~= toks_of_value(n, tc) + u);
                    },
                    Err(_) => {},
                }
            }
}

/// The array case of `lemma_render_tokens`.
#[verifier::rlimit(100)]
#[verifier::spinoff_prover]
pub proof fn lemma_render_tokens_array(n: NodeView, opts: FormatOptions, depth: nat, rest: Seq<char>)
    requires
        n is ArrayLiteralExpression,
        wf_value(n),
        safe_break(rest),
    ensures
        spec_tokens(spec_render(n, opts, depth) + rest) == prepend_toks(
            toks_of_value(n, opts.trailing_commas),
            spec_tokens(rest),
        ),
    decreases n, 0int,
{
    let tc = opts.trailing_commas;
    let es = n->ArrayLiteralExpression_0;

            let items_txt = spec_render_items(es, opts, depth + 1, true);
            let closing = spec_trailing(opts, es.len()) + seq!['\n'] + spec_indent(opts, depth)
                + seq![']'] + rest;
            assert(spec_render(n, opts, depth) + rest =~= seq!['['] + (items_txt + closing));
            lemma_tokens_punct('[', items_txt + closing);
            assert(safe_break(closing)) by {
                if tc && es.len() > 0 {
                    assert(closing[0] == ',');
                } else {
                    assert(closing[0] == '\n');
                }
            }
            lemma_wf_elements_items(es);
            lemma_render_items_tokens(es, opts, depth + 1, true, closing);
            let after = seq![']'] + rest;
            lemma_tokens_punct(']', rest);
            if tc && es.len() > 0 {
                let closing2 = seq!['\n'] + spec_indent(opts, depth) + after;
                assert(closing =~= seq![','] + closing2);
                lemma_tokens_punct(',', closing2);
                lemma_indent_ws(opts, depth);
                assert(closing2 =~= (seq!['\n'] + spec_indent(opts, depth)) + after);
                lemma_tokens_ws_prefix(seq!['\n'] + spec_indent(opts, depth), after);
                match spec_tokens(rest) {
                    Ok(u) => {
                        assert(seq![TokenView::LBracket] + (toks_of_items(es, tc, true) + (seq![
                            TokenView::Comma,
                        ] + (seq![TokenView::RBracket] + u))) =~= toks_of_value(n, tc) + u);
                    },
                    Err(_) => {},
                }
            } else {
                assert(closing =~= (seq!['\n'] + spec_indent(opts, depth)) + after);
                lemma_indent_ws(opts, depth);
                lemma_tokens_ws_prefix(seq!['\n'] + spec_indent(opts, depth), after);
                match spec_tokens(rest) {
                    Ok(u) => {
                        assert(seq![TokenView::LBracket] + (toks_of_items(es, tc, true) + (seq![
                            TokenView::RBracket,
                        ] + u)) =~= toks_of_value(n, tc) + u);
                    },
                    Err(_) => {},
                }
            }
}


/// The token segment the member loop of an object consumes: the members'
/// tokens, the trailing comma when one is rendered, and the closing brace.
pub open spec fn member_seg(ms: Seq<NodeView>, tc: bool, first: bool) -> Seq<TokenView> {
    toks_of_items(ms, tc, first) + (if tc && (!first || ms.len() > 0) {
        seq![TokenView::Comma]
    } else {
        Seq::empty()
    }) + seq![TokenView::RBrace]
}

/// The token segment the element loop of an array consumes.
pub open spec fn element_seg(es: Seq<NodeView>, tc: bool, first: bool) -> Seq<TokenView> {
    toks_of_items(es, tc, first) + (if tc && (!first || es.len() > 0) {
        seq![TokenView::Comma]
    } else {
        Seq::empty()
    }) + seq![TokenView::RBracket]
}

/// Parsing the token image of a well-formed value yields that value back
/// and consumes exactly its tokens.
pub proof fn lemma_parse_of_toks(ts: Seq<TokenView>, i: int, n: NodeView, tc: bool)
    requires
        wf_value(n),
        0 <= i,
        i + toks_of_value(n, tc).len() <= ts.len(),
        ts.subrange(i, i + toks_of_value(n, tc).len() as int) == toks_of_value(n, tc),
    ensures
        spec_parse_value(ts, i) == Ok::<(NodeView, nat), JsonError>(
            (n, (toks_of_value(n, tc).len() - 1) as nat),
        ),
    decreases n, 1int,
{
    let tk = toks_of_value(n, tc);
    assert(ts[i] == tk[0]) by {
        assert(ts.subrange(i, i + tk.len() as int)[0] == ts[i]);
    }
    match n {
        NodeView::StringLiteral(_) => {},
        NodeView::NumberLiteral(_) => {},
        NodeView::TrueKeyword => {},
        NodeView::FalseKeyword => {},
        NodeView::NullKeyword => {},
        NodeView::PropertyAssignment(_, _) => {},
        NodeView::ObjectLiteralExpression(ms) => {
            let seg = member_seg(ms, tc, true);
            assert(tk =~= seq![TokenView::LBrace] + seg);
            assert(ts.subrange(i + 1, i + tk.len() as int) =~= seg) by {
                assert forall|j: int| 0 <= j < seg.len() implies ts.subrange(
                    i + 1,
                    i + tk.len() as int,
                )[j] == seg[j] by {
                    assert(ts.subrange(i, i + tk.len() as int)[j + 1] == ts[i + 1 + j]);
                }
            }
            lemma_parse_members_of_toks(ts, i + 1, Seq::empty(), ms, tc, true);
            assert(Seq::<NodeView>::empty() + ms =~= ms);
        },
        NodeView::ArrayLiteralExpression(es) => {
            let seg = element_seg(es, tc, true);
            assert(tk =~= seq![TokenView::LBracket] + seg);
            assert(ts.subrange(i + 1, i + tk.len() as int) =~= seg) by {
                assert forall|j: int| 0 <= j < seg.len() implies ts.subrange(
                    i + 1,
                    i + tk.len() as int,
                )[j] == seg[j] by {
                    assert(ts.subrange(i, i + tk.len() as int)[j + 1] == ts[i + 1 + j]);
                }
            }
            lemma_parse_elements_of_toks(ts, i + 1, Seq::empty(), es, tc, true);
            assert(Seq::<NodeView>::empty() + es =~= es);
        },
    }
}

/// The member loop on the token image of well-formed members collects those
/// members after the ones already accumulated.
#[verifier::rlimit(80)]
pub proof fn lemma_parse_members_of_toks(
    ts: Seq<TokenView>,
    i: int,
    done: Seq<NodeView>,
    ms: Seq<NodeView>,
    tc: bool,
    first: bool,
)
    requires
        wf_members(ms),
        0 <= i,
        i + member_seg(ms, tc, first).len() <= ts.len(),
        ts.subrange(i, i + member_seg(ms, tc, first).len() as int) == member_seg(ms, tc, first),
    ensures
        spec_parse_members(ts, i, done) == Ok::<(Seq<NodeView>, nat), JsonError>(
            (done + ms, (member_seg(ms, tc, first).len() - 1) as nat),
        ),
    decreases ms, (if first {
        0int
    } else {
        1int
    }),
{
    let seg = member_seg(ms, tc, first);
    assert(ts[i] == seg[0]) by {
        assert(ts.subrange(i, i + seg.len() as int)[0] == ts[i]);
    }
    if ms.len() == 0 {
        if tc && !first {
            assert(seg =~= seq![TokenView::Comma, TokenView::RBrace]);
            assert(ts[i + 1] == TokenView::RBrace) by {
                assert(ts.subrange(i, i + seg.len() as int)[1] == ts[i + 1]);
            }
            assert(done + ms =~= done);
        } else {
            assert(seg =~= seq![TokenView::RBrace]);
            assert(done + ms =~= done);
        }
    } else if !first {
        let seg1 = member_seg(ms, tc, true);
        assert(seg =~= seq![TokenView::Comma] + seg1);
        assert(ts.subrange(i + 1, i + seg.len() as int) =~= seg1) by {
            assert forall|j: int| 0 <= j < seg1.len() implies ts.subrange(
                i + 1,
                i + seg.len() as int,
            )[j] == seg1[j] by {
                assert(ts.subrange(i, i + seg.len() as int)[j + 1] == ts[i + 1 + j]);
            }
        }
        lemma_parse_members_of_toks(ts, i + 1, done, ms, tc, true);
    } else {
        let k = ms[0]->PropertyAssignment_0;
        let v = *ms[0]->PropertyAssignment_1;
        let vtk = toks_of_value(v, tc);
        let segr = member_seg(ms.drop_first(), tc, false);
        assert(toks_of_value(ms[0], tc) =~= seq![TokenView::StringValue(k), TokenView::Colon]
            + vtk);
        assert(seg =~= seq![TokenView::StringValue(k), TokenView::Colon] + vtk + segr) by {
            assert(toks_of_items(ms, tc, true) =~= toks_of_value(ms[0], tc) + toks_of_items(
                ms.drop_first(),
                tc,
                false,
            ));
        }
        assert(ts.subrange(i + 2, i + 2 + vtk.len() as int) =~= vtk) by {
            assert forall|j: int| 0 <= j < vtk.len() implies ts.subrange(
                i + 2,
                i + 2 + vtk.len() as int,
            )[j] == vtk[j] by {
                assert(ts.subrange(i, i + seg.len() as int)[j + 2] == ts[i + 2 + j]);
            }
        }
        lemma_parse_of_toks(ts, i + 2, v, tc);
        let after = i + 2 + vtk.len() as int;
        assert(ts.subrange(after, i + seg.len() as int) =~= segr) by {
            assert forall|j: int| 0 <= j < segr.len() implies ts.subrange(
                after,
                i + seg.len() as int,
            )[j] == segr[j] by {
                assert(ts.subrange(i, i + seg.len() as int)[j + 2 + vtk.len()] == ts[after + j]);
            }
        }
        lemma_parse_members_of_toks(ts, after, done.push(ms[0]), ms.drop_first(), tc, false);
        assert(done.push(ms[0]) + ms.drop_first() =~= done + ms);
        assert(NodeView::PropertyAssignment(k, Box::new(v)) == ms[0]);
    }
}

/// The element loop on the token image of well-formed elements collects
/// those elements after the ones already accumulated.
#[verifier::rlimit(80)]
pub proof fn lemma_parse_elements_of_toks(
    ts: Seq<TokenView>,
    i: int,
    done: Seq<NodeView>,
    es: Seq<NodeView>,
    tc: bool,
    first: bool,
)
    requires
        wf_elements(es),
        0 <= i,
        i + element_seg(es, tc, first).len() <= ts.len(),
        ts.subrange(i, i + element_seg(es, tc, first).len() as int) == element_seg(es, tc, first),
    ensures
        spec_parse_elements(ts, i, done) == Ok::<(Seq<NodeView>, nat), JsonError>(
            (done + es, (element_seg(es, tc, first).len() - 1) as nat),
        ),
    decreases es, (if first {
        0int
    } else {
        1int
    }),
{
    let seg = element_seg(es, tc, first);
    assert(ts[i] == seg[0]) by {
        assert(ts.subrange(i, i + seg.len() as int)[0] == ts[i]);
    }
    if es.len() == 0 {
        if tc && !first {
            assert(seg =~= seq![TokenView::Comma, TokenView::RBracket]);
            assert(ts[i + 1] == TokenView::RBracket) by {
                assert(ts.subrange(i, i + seg.len() as int)[1] == ts[i + 1]);
            }
            assert(done + es =~= done);
        } else {
            assert(seg =~= seq![TokenView::RBracket]);
            assert(done + es =~= done);
        }
    } else if !first {
        let seg1 = element_seg(es, tc, true);
        assert(seg =~= seq![TokenView::Comma] + seg1);
        assert(ts.subrange(i + 1, i + seg.len() as int) =~= seg1) by {
            assert forall|j: int| 0 <= j < seg1.len() implies ts.subrange(
                i + 1,
                i + seg.len() as int,
            )[j] == seg1[j] by {
                assert(ts.subrange(i, i + seg.len() as int)[j + 1] == ts[i + 1 + j]);
            }
        }
        lemma_parse_elements_of_toks(ts, i + 1, done, es, tc, true);
    } else {
        let v = es[0];
        let vtk = toks_of_value(v, tc);
        let segr = element_seg(es.drop_first(), tc, false);
        assert(seg =~= vtk + segr) by {
            assert(toks_of_items(es, tc, true) =~= toks_of_value(es[0], tc) + toks_of_items(
                es.drop_first(),
                tc,
                false,
            ));
        }
        assert(ts.subrange(i, i + vtk.len() as int) =~= vtk) by {
            assert forall|j: int| 0 <= j < vtk.len() implies ts.subrange(
                i,
                i + vtk.len() as int,
            )[j] == vtk[j] by {
                assert(ts.subrange(i, i + seg.len() as int)[j] == ts[i + j]);
            }
        }
        lemma_toks_of_value_first(v, tc);
        lemma_parse_of_toks(ts, i, v, tc);
        let after = i + vtk.len() as int;
        assert(ts.subrange(after, i + seg.len() as int) =~= segr) by {
            assert forall|j: int| 0 <= j < segr.len() implies ts.subrange(
                after,
                i + seg.len() as int,
            )[j] == segr[j] by {
                assert(ts.subrange(i, i + seg.len() as int)[j + vtk.len()] == ts[after + j]);
            }
        }
        lemma_parse_elements_of_toks(ts, after, done.push(v), es.drop_first(), tc, false);
        assert(done.push(v) + es.drop_first() =~= done + es);
    }
}

/// What one successful format run establishes: the root that was parsed is
/// well formed, tokenizing the output gives exactly the root's token image,
/// and parsing that image gives the root back.
proof fn lemma_format_root(s: Seq<char>, opts: FormatOptions)
    requires
        spec_format(s, opts, 0) is Ok,
    ensures
        ({
            let ts = spec_tokens(s)->Ok_0;
            let root = spec_parse(ts.push(TokenView::End), 0)->Ok_0.0;
            let tk = toks_of_value(root, opts.trailing_commas);
            &&& spec_tokens(s) is Ok
            &&& spec_parse(ts.push(TokenView::End), 0) is Ok
            &&& wf_value(root)
            &&& (root is ObjectLiteralExpression || root is ArrayLiteralExpression)
            &&& spec_format(s, opts, 0) == Ok::<Seq<char>, JsonError>(spec_render(root, opts, 0))
            &&& spec_tokens(spec_render(root, opts, 0)) == Ok::<Seq<TokenView>, JsonError>(tk)
            &&& spec_parse(tk.push(TokenView::End), 0) == Ok::<(NodeView, nat), JsonError>(
                (root, (tk.len() - 1) as nat),
            )
        }),
{
    let ts = spec_tokens(s)->Ok_0;
    let tse = ts.push(TokenView::End);
    lemma_tokens_wf(s);
    assert(wf_tokens(tse)) by {
        assert forall|i: int| 0 <= i < tse.len() implies wf_token(#[trigger] tse[i]) by {
            if i < ts.len() {
                assert(wf_token(ts[i]));
            }
        }
    }
    lemma_parse_value_wf(tse, 0);
    let root = spec_parse(tse, 0)->Ok_0.0;
    let tc = opts.trailing_commas;
    let out = spec_render(root, opts, 0);
    lemma_render_tokens(root, opts, 0, Seq::empty());
    assert(out + Seq::<char>::empty() =~= out);
    assert(Seq::<char>::empty().skip(0) =~= Seq::<char>::empty());
    assert(spec_tokens(Seq::<char>::empty()) == Ok::<Seq<TokenView>, JsonError>(Seq::empty()));
    let tk = toks_of_value(root, tc);
    assert(tk + Seq::<TokenView>::empty() =~= tk);
    let tke = tk.push(TokenView::End);
    assert(tke.subrange(0, tk.len() as int) =~= tk);
    lemma_parse_of_toks(tke, 0, root, tc);
    assert(tke[0] == tk[0]);
}

/// Structural fidelity: parsing the output of a successful format yields a
/// tree equal to parsing the input; formatting never changes what a
/// document means, only its whitespace.
pub proof fn lemma_structural_fidelity(s: Seq<char>, opts: FormatOptions)
    requires
        spec_format(s, opts, 0) is Ok,
    ensures
        ({
            let out = spec_format(s, opts, 0)->Ok_0;
            let root = spec_parse(spec_tokens(s)->Ok_0.push(TokenView::End), 0)->Ok_0.0;
            &&& spec_tokens(out) is Ok
            &&& spec_parse(spec_tokens(out)->Ok_0.push(TokenView::End), 0) is Ok
            &&& spec_parse(spec_tokens(out)->Ok_0.push(TokenView::End), 0)->Ok_0.0 == root
        }),
{
    lemma_format_root(s, opts);
}

/// Round-trip stability: formatting an already formatted document with the
/// same options reproduces it, character for character.
pub proof fn lemma_round_trip_stable(s: Seq<char>, opts: FormatOptions)
    requires
        spec_format(s, opts, 0) is Ok,
    ensures
        spec_format(spec_format(s, opts, 0)->Ok_0, opts, 0) == spec_format(s, opts, 0),
{
    lemma_format_root(s, opts);
}

/// The boundary shape: an empty object renders as its braces around one
/// line break with nothing indented between them, under any options, and an
/// empty array behaves symmetrically.
pub proof fn lemma_empty_composites(opts: FormatOptions, depth: nat)
    requires
        depth == 0,
    ensures
        spec_render(NodeView::ObjectLiteralExpression(Seq::empty()), opts, depth) == seq![
            '{',
            '\n',
            '}',
        ],
        spec_render(NodeView::ArrayLiteralExpression(Seq::empty()), opts, depth) == seq![
            '[',
            '\n',
            ']',
        ],
{
    assert(spec_render_items(Seq::empty(), opts, depth + 1, true) == Seq::<char>::empty());
    assert(spec_render(NodeView::ObjectLiteralExpression(Seq::empty()), opts, depth) =~= seq![
        '{',
        '\n',
        '}',
    ]);
    assert(spec_render(NodeView::ArrayLiteralExpression(Seq::empty()), opts, depth) =~= seq![
        '[',
        '\n',
        ']',
    ]);
}

/// The key of each member, in order.
pub open spec fn member_names(ms: Seq<NodeView>) -> Seq<Seq<char>>
    decreases ms,
{
    if ms.len() == 0 {
        Seq::empty()
    } else {
        seq![ms[0]->PropertyAssignment_0] + member_names(ms.drop_first())
    }
}

/// Order preservation: member order of an object root, and element order of
/// an array root, survive a format round trip unchanged.
pub proof fn lemma_order_preserved(s: Seq<char>, opts: FormatOptions)
    requires
        spec_format(s, opts, 0) is Ok,
    ensures
        ({
            let out = spec_format(s, opts, 0)->Ok_0;
            let root = spec_parse(spec_tokens(s)->Ok_0.push(TokenView::End), 0)->Ok_0.0;
            let back = spec_parse(spec_tokens(out)->Ok_0.push(TokenView::End), 0)->Ok_0.0;
            &&& (root is ObjectLiteralExpression ==> member_names(
                back->ObjectLiteralExpression_0,
            ) == member_names(root->ObjectLiteralExpression_0))
            &&& (root is ArrayLiteralExpression ==> back->ArrayLiteralExpression_0
                == root->ArrayLiteralExpression_0)
        }),
{
    lemma_format_root(s, opts);
}

/// The number of comma characters in the text.
pub open spec fn comma_count(s: Seq<char>) -> nat
    decreases s.len(),
{
    if s.len() == 0 {
        0
    } else if s[0] == ',' {
        1 + comma_count(s.drop_first())
    } else {
        comma_count(s.drop_first())
    }
}

/// Comma counting distributes over concatenation.
pub proof fn lemma_comma_count_concat(a: Seq<char>, b: Seq<char>)
    ensures
        comma_count(a + b) == comma_count(a) + comma_count(b),
    decreases a.len(),
{
    if a.len() == 0 {
        assert(a + b =~= b);
    } else {
        assert((a + b).drop_first() =~= a.drop_first() + b);
        lemma_comma_count_concat(a.drop_first(), b);
    }
}

/// Comma-free text counts zero.
pub proof fn lemma_comma_count_none(s: Seq<char>)
    requires
        forall|i: int| 0 <= i < s.len() ==> s[i] != ',',
    ensures
        comma_count(s) == 0,
    decreases s.len(),
{
    if s.len() > 0 {
        assert forall|i: int| 0 <= i < s.drop_first().len() implies s.drop_first()[i] != ',' by {
            assert(s[i + 1] != ',');
        }
        lemma_comma_count_none(s.drop_first());
    }
}

/// One character counts one comma exactly when it is one.
pub proof fn lemma_comma_count_single(c: char)
    ensures
        comma_count(seq![c]) == (if c == ',' {
            1nat
        } else {
            0nat
        }),
{
    assert(seq![c].drop_first() =~= Seq::<char>::empty());
    assert(comma_count(Seq::<char>::empty()) == 0);
}

/// The number of nonempty objects and arrays in the tree.
pub open spec fn nonempty_composites(n: NodeView) -> nat
    decreases n,
{
    match n {
        NodeView::PropertyAssignment(_, v) => nonempty_composites(*v),
        NodeView::ObjectLiteralExpression(ms) => (if ms.len() > 0 {
            1nat
        } else {
            0nat
        }) + items_composites(ms),
        NodeView::ArrayLiteralExpression(es) => (if es.len() > 0 {
            1nat
        } else {
            0nat
        }) + items_composites(es),
        _ => 0,
    }
}

/// The number of nonempty objects and arrays among the items.
pub open spec fn items_composites(items: Seq<NodeView>) -> nat
    decreases items,
{
    if items.len() == 0 {
        0
    } else {
        nonempty_composites(items[0]) + items_composites(items.drop_first())
    }
}

/// Two option sets that agree on indentation produce the same indentation.
pub proof fn lemma_indent_opts_eq(o1: FormatOptions, o2: FormatOptions, depth: nat)
    requires
        o1.spaces == o2.spaces,
        o1.use_tabs == o2.use_tabs,
    ensures
        spec_indent(o1, depth) == spec_indent(o2, depth),
    decreases depth,
{
    assert(indent_unit(o1) =~= indent_unit(o2));
    if depth > 0 {
        lemma_indent_opts_eq(o1, o2, (depth - 1) as nat);
    }
}

/// Option independence: enabling trailing commas adds exactly one comma per
/// nonempty object or array, and none anywhere else.
pub proof fn lemma_trailing_comma_count(
    n: NodeView,
    o1: FormatOptions,
    o2: FormatOptions,
    depth: nat,
)
    requires
        o1.spaces == o2.spaces,
        o1.use_tabs == o2.use_tabs,
        !o1.trailing_commas,
        o2.trailing_commas,
    ensures
        comma_count(spec_render(n, o2, depth)) == comma_count(spec_render(n, o1, depth))
            + nonempty_composites(n),
    decreases n, 1int,
{
    match n {
        NodeView::StringLiteral(_) => {},
        NodeView::NumberLiteral(_) => {},
        NodeView::TrueKeyword => {},
        NodeView::FalseKeyword => {},
        NodeView::NullKeyword => {},
        NodeView::PropertyAssignment(k, v) => {
            lemma_trailing_comma_count(*v, o1, o2, depth);
            let head = seq!['"'] + k + seq!['"', ':', ' '];
            assert(spec_render(n, o1, depth) =~= head + spec_render(*v, o1, depth));
            assert(spec_render(n, o2, depth) =~= head + spec_render(*v, o2, depth));
            lemma_comma_count_concat(head, spec_render(*v, o1, depth));
            lemma_comma_count_concat(head, spec_render(*v, o2, depth));
        },
        NodeView::ObjectLiteralExpression(ms) => {
            lemma_trailing_comma_items(ms, o1, o2, depth + 1);
            lemma_composite_comma_parts(n, o1, o2, depth);
        },
        NodeView::ArrayLiteralExpression(es) => {
            lemma_trailing_comma_items(es, o1, o2, depth + 1);
            lemma_composite_comma_parts(n, o1, o2, depth);
        },
    }
}

/// The comma arithmetic of one composite: its delimiters and indentation
/// hold no comma, its trailing comma appears exactly when the option is on
/// and it is nonempty.
#[verifier::rlimit(80)]
#[verifier::spinoff_prover]
proof fn lemma_composite_comma_parts(
    n: NodeView,
    o1: FormatOptions,
    o2: FormatOptions,
    depth: nat,
)
    requires
        o1.spaces == o2.spaces,
        o1.use_tabs == o2.use_tabs,
        !o1.trailing_commas,
        o2.trailing_commas,
        n is ObjectLiteralExpression || n is ArrayLiteralExpression,
        ({
            let items = if n is ObjectLiteralExpression {
                n->ObjectLiteralExpression_0
            } else {
                n->ArrayLiteralExpression_0
            };
            comma_count(spec_render_items(items, o2, depth + 1, true)) == comma_count(
                spec_render_items(items, o1, depth + 1, true),
            ) + items_composites(items)
        }),
    ensures
        comma_count(spec_render(n, o2, depth)) == comma_count(spec_render(n, o1, depth))
            + nonempty_composites(n),
{
    let items = if n is ObjectLiteralExpression {
        n->ObjectLiteralExpression_0
    } else {
        n->ArrayLiteralExpression_0
    };
    let open_c = if n is ObjectLiteralExpression {
        '{'
    } else {
        '['
    };
    let close_c = if n is ObjectLiteralExpression {
        '}'
    } else {
        ']'
    };
    lemma_indent_opts_eq(o1, o2, depth);
    lemma_indent_ws(o1, depth);
    let tail1 = seq!['\n'] + spec_indent(o1, depth) + seq![close_c];
    assert(comma_count(tail1) == 0) by {
        assert forall|i: int| 0 <= i < tail1.len() implies tail1[i] != ',' by {
            if 0 < i < 1 + spec_indent(o1, depth).len() {
                assert(is_whitespace_char(spec_indent(o1, depth)[i - 1]));
            }
        }
        lemma_comma_count_none(tail1);
    }
    let body1 = spec_render_items(items, o1, depth + 1, true);
    let body2 = spec_render_items(items, o2, depth + 1, true);
    assert(spec_render(n, o1, depth) =~= seq![open_c] + (body1 + (spec_trailing(o1, items.len())
        + tail1)));
    assert(spec_render(n, o2, depth) =~= seq![open_c] + (body2 + (spec_trailing(o2, items.len())
        + tail1)));
    lemma_comma_count_concat(body1, spec_trailing(o1, items.len()) + tail1);
    lemma_comma_count_concat(body2, spec_trailing(o2, items.len()) + tail1);
    lemma_comma_count_concat(spec_trailing(o1, items.len()), tail1);
    lemma_comma_count_concat(spec_trailing(o2, items.len()), tail1);
    lemma_comma_count_concat(seq![open_c], body1 + (spec_trailing(o1, items.len()) + tail1));
    lemma_comma_count_concat(seq![open_c], body2 + (spec_trailing(o2, items.len()) + tail1));
    lemma_comma_count_single(open_c);
    lemma_comma_count_single(',');
    assert(comma_count(spec_trailing(o1, items.len())) == 0) by {
        assert(comma_count(Seq::<char>::empty()) == 0);
    }
    if items.len() > 0 {
        assert(spec_trailing(o2, items.len()) == seq![',']);
        assert(comma_count(spec_trailing(o2, items.len())) == 1);
    } else {
        assert(comma_count(spec_trailing(o2, items.len())) == 0) by {
            assert(comma_count(Seq::<char>::empty()) == 0);
        }
    }
}

/// The comma arithmetic of the item lines under both option sets.
#[verifier::rlimit(80)]
pub proof fn lemma_trailing_comma_items(
    items: Seq<NodeView>,
    o1: FormatOptions,
    o2: FormatOptions,
    depth: nat,
)
    requires
        o1.spaces == o2.spaces,
        o1.use_tabs == o2.use_tabs,
        !o1.trailing_commas,
        o2.trailing_commas,
    ensures
        forall|first: bool|
            comma_count(#[trigger] spec_render_items(items, o2, depth, first)) == comma_count(
                spec_render_items(items, o1, depth, first),
            ) + items_composites(items),
    decreases items, 0int,
{
    if items.len() == 0 {
    } else {
        lemma_trailing_comma_count(items[0], o1, o2, depth);
        lemma_trailing_comma_items(items.drop_first(), o1, o2, depth);
        lemma_indent_opts_eq(o1, o2, depth);
        lemma_indent_ws(o1, depth);
        assert forall|first: bool|
            comma_count(#[trigger] spec_render_items(items, o2, depth, first)) == comma_count(
                spec_render_items(items, o1, depth, first),
            ) + items_composites(items) by {
            let sep: Seq<char> = if first {
                Seq::empty()
            } else {
                seq![',']
            };
            let lead = sep + seq!['\n'] + spec_indent(o1, depth);
            assert(comma_count(lead) == comma_count(sep)) by {
                assert(lead =~= sep + (seq!['\n'] + spec_indent(o1, depth)));
                lemma_comma_count_concat(sep, seq!['\n'] + spec_indent(o1, depth));
                lemma_comma_count_concat(seq!['\n'], spec_indent(o1, depth));
                assert forall|i: int|
                    0 <= i < spec_indent(o1, depth).len() implies spec_indent(o1, depth)[i]
                    != ',' by {
                    assert(is_whitespace_char(spec_indent(o1, depth)[i]));
                }
                lemma_comma_count_none(spec_indent(o1, depth));
                lemma_comma_count_single('\n');
                if !first {
                    lemma_comma_count_single(',');
                }
                assert(comma_count(Seq::<char>::empty()) == 0);
            }
            assert(spec_render_items(items, o1, depth, first) =~= lead + (spec_render(
                items[0],
                o1,
                depth,
            ) + spec_render_items(items.drop_first(), o1, depth, false)));
            assert(spec_render_items(items, o2, depth, first) =~= lead + (spec_render(
                items[0],
                o2,
                depth,
            ) + spec_render_items(items.drop_first(), o2, depth, false)));
            lemma_comma_count_concat(
                lead,
                spec_render(items[0], o1, depth) + spec_render_items(
                    items.drop_first(),
                    o1,
                    depth,
                    false,
                ),
            );
            lemma_comma_count_concat(
                lead,
                spec_render(items[0], o2, depth) + spec_render_items(
                    items.drop_first(),
                    o2,
                    depth,
                    false,
                ),
            );
            lemma_comma_count_concat(
                spec_render(items[0], o1, depth),
                spec_render_items(items.drop_first(), o1, depth, false),
            );
            lemma_comma_count_concat(
                spec_render(items[0], o2, depth),
                spec_render_items(items.drop_first(), o2, depth, false),
            );
        }
    }
}

/// Option independence at an empty container: with no members there is no
/// trailing comma, so both option sets render the same text.
pub proof fn lemma_trailing_comma_empty(
    n: NodeView,
    o1: FormatOptions,
    o2: FormatOptions,
    depth: nat,
)
    requires
        o1.spaces == o2.spaces,
        o1.use_tabs == o2.use_tabs,
        !o1.trailing_commas,
        o2.trailing_commas,
        (n matches NodeView::ObjectLiteralExpression(ms) && ms.len() == 0) || (n matches
            NodeView::ArrayLiteralExpression(es) && es.len() == 0),
    ensures
        spec_render(n, o2, depth) == spec_render(n, o1, depth),
{
    lemma_indent_opts_eq(o1, o2, depth);
    if n is ObjectLiteralExpression {
        assert(spec_render_items(n->ObjectLiteralExpression_0, o1, depth + 1, true)
            == Seq::<char>::empty());
        assert(spec_render_items(n->ObjectLiteralExpression_0, o2, depth + 1, true)
            == Seq::<char>::empty());
    } else {
        assert(spec_render_items(n->ArrayLiteralExpression_0, o1, depth + 1, true)
            == Seq::<char>::empty());
        assert(spec_render_items(n->ArrayLiteralExpression_0, o2, depth + 1, true)
            == Seq::<char>::empty());
    }
    assert(spec_render(n, o2, depth) =~= spec_render(n, o1, depth));
}

} // verus!
