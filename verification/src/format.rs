//! The formatter: renders a syntax tree as canonically indented text, by a
//! depth-first walk with an indent counter raised on entering a composite
//! and lowered on leaving it.
//!
//! `spec_render` says exactly what text a tree renders to at a given depth;
//! the executable walk is proved against it clause by clause.

use vstd::prelude::*;
use vstd::string::StringExecFns;

use crate::error::JsonError;
use crate::node::NodeView;
use crate::node::Parser;
use crate::node::SyntaxKind;
use crate::node::height;
use crate::node::lemma_items_height_index;
use crate::node::lemma_node_views;
use crate::node::lemma_parse_value_height;
use crate::node::spec_parse;
use crate::text::string_of;
use crate::token::TokenView;
use crate::token::lemma_tokens_count;
use crate::token::spec_tokens;

verus! {

/// The recognized options: the count of spaces per indent level, whether one
/// tab replaces them, and whether a trailing comma follows the last member
/// of every nonempty object and array.
#[derive(Debug, Clone, Copy)]
pub struct FormatOptions {
    pub spaces: usize,
    pub use_tabs: bool,
    pub trailing_commas: bool,
}

impl Default for FormatOptions {
    /// Four spaces, no tabs, no trailing commas.
    fn default() -> (r: FormatOptions)
        ensures
            r.spaces == 4,
            !r.use_tabs,
            !r.trailing_commas,
    {
        FormatOptions { spaces: 4, use_tabs: false, trailing_commas: false }
    }
}

/// One unit of indentation: a tab, or the configured number of spaces.
pub open spec fn indent_unit(opts: FormatOptions) -> Seq<char> {
    if opts.use_tabs {
        seq!['\t']
    } else {
        Seq::new(opts.spaces as nat, |i: int| ' ')
    }
}

/// The indentation for a nesting depth: the unit, repeated.
pub open spec fn spec_indent(opts: FormatOptions, depth: nat) -> Seq<char>
    decreases depth,
{
    if depth == 0 {
        Seq::empty()
    } else {
        indent_unit(opts) + spec_indent(opts, (depth - 1) as nat)
    }
}

/// One more level appends one more unit.
pub proof fn lemma_indent_snoc(opts: FormatOptions, depth: nat)
    ensures
        spec_indent(opts, depth + 1) == spec_indent(opts, depth) + indent_unit(opts),
    decreases depth,
{
    if depth == 0 {
        assert(spec_indent(opts, 1) =~= spec_indent(opts, 0) + indent_unit(opts));
    } else {
        lemma_indent_snoc(opts, (depth - 1) as nat);
        assert(spec_indent(opts, depth + 1) =~= spec_indent(opts, depth) + indent_unit(opts));
    }
}

/// The one comma appended after the last member, when the option asks for it
/// and the container is not empty.
pub open spec fn spec_trailing(opts: FormatOptions, count: nat) -> Seq<char> {
    if opts.trailing_commas && count > 0 {
        seq![',']
    } else {
        Seq::empty()
    }
}

/// The text a tree renders to at a given depth: leaves render as their
/// literal text, a property assignment as its quoted key, a colon-space
/// separator and its value, and a composite as its delimiter pair around one
/// line per member at the next depth.
pub open spec fn spec_render(n: NodeView, opts: FormatOptions, depth: nat) -> Seq<char>
    decreases n,
{
    match n {
        NodeView::StringLiteral(s) => seq!['"'] + s + seq!['"'],
        NodeView::NumberLiteral(s) => s,
        NodeView::TrueKeyword => seq!['t', 'r', 'u', 'e'],
        NodeView::FalseKeyword => seq!['f', 'a', 'l', 's', 'e'],
        NodeView::NullKeyword => seq!['n', 'u', 'l', 'l'],
        NodeView::PropertyAssignment(k, v) => seq!['"'] + k + seq!['"', ':', ' '] + spec_render(
            *v,
            opts,
            depth,
        ),
        NodeView::ObjectLiteralExpression(ms) => seq!['{'] + spec_render_items(
            ms,
            opts,
            depth + 1,
            true,
        ) + spec_trailing(opts, ms.len()) + seq!['\n'] + spec_indent(opts, depth) + seq!['}'],
        NodeView::ArrayLiteralExpression(es) => seq!['['] + spec_render_items(
            es,
            opts,
            depth + 1,
            true,
        ) + spec_trailing(opts, es.len()) + seq!['\n'] + spec_indent(opts, depth) + seq![']'],
    }
}

/// The member lines of a composite: for each item, a comma unless it is the
/// very first, then a newline, the indentation, and the item's own text.
pub open spec fn spec_render_items(
    items: Seq<NodeView>,
    opts: FormatOptions,
    depth: nat,
    first: bool,
) -> Seq<char>
    decreases items,
{
    if items.len() == 0 {
        Seq::empty()
    } else {
        (if first {
            Seq::<char>::empty()
        } else {
            seq![',']
        }) + seq!['\n'] + spec_indent(opts, depth) + spec_render(items[0], opts, depth)
            + spec_render_items(items.drop_first(), opts, depth, false)
    }
}

/// Rendering one more item appends its separator, line break, indentation
/// and text.
pub proof fn lemma_render_items_snoc(
    items: Seq<NodeView>,
    x: NodeView,
    opts: FormatOptions,
    depth: nat,
    first: bool,
)
    ensures
        spec_render_items(items.push(x), opts, depth, first) == spec_render_items(
            items,
            opts,
            depth,
            first,
        ) + (if first && items.len() == 0 {
            Seq::<char>::empty()
        } else {
            seq![',']
        }) + seq!['\n'] + spec_indent(opts, depth) + spec_render(x, opts, depth),
    decreases items.len(),
{
    if items.len() == 0 {
        assert(items.push(x)[0] == x);
        assert(items.push(x).drop_first() =~= Seq::<NodeView>::empty());
        assert(spec_render_items(Seq::<NodeView>::empty(), opts, depth, false) =~= Seq::<
            char,
        >::empty());
        assert(spec_render_items(items.push(x), opts, depth, first) =~= spec_render_items(
            items,
            opts,
            depth,
            first,
        ) + (if first {
            Seq::<char>::empty()
        } else {
            seq![',']
        }) + seq!['\n'] + spec_indent(opts, depth) + spec_render(x, opts, depth));
    } else {
        assert(items.push(x)[0] == items[0]);
        assert(items.push(x).drop_first() =~= items.drop_first().push(x));
        lemma_render_items_snoc(items.drop_first(), x, opts, depth, false);
        assert(spec_render_items(items.push(x), opts, depth, first) =~= spec_render_items(
            items,
            opts,
            depth,
            first,
        ) + seq![','] + seq!['\n'] + spec_indent(opts, depth) + spec_render(x, opts, depth));
    }
}

/// What formatting an input produces: the token sequence, the parsed tree,
/// and its rendering at the given depth, or the first failure on the way.
pub open spec fn spec_format(s: Seq<char>, opts: FormatOptions, depth: nat) -> Result<
    Seq<char>,
    JsonError,
> {
    match spec_tokens(s) {
        Err(e) => Err(e),
        Ok(ts) => match spec_parse(ts.push(TokenView::End), 0) {
            Err(e) => Err(e),
            Ok((n, _)) => Ok(spec_render(n, opts, depth)),
        },
    }
}

/// The formatter: the current indent depth and the configured options.
pub struct Formatter {
    pub indent: usize,
    pub options: FormatOptions,
}

impl Formatter {
    pub fn new(_options: Option<FormatOptions>) -> (r: Formatter)
        ensures
            r.indent == 0,
            match _options {
                Some(o) => r.options == o,
                None => r.options.spaces == 4 && !r.options.use_tabs && !r.options.trailing_commas,
            },
    {
        Formatter {
            indent: 0,
            options: match _options {
                Some(o) => o,
                None => FormatOptions::default(),
            },
        }
    }

    /// One level deeper.
    pub fn up_indent(&mut self)
        requires
            old(self).indent < usize::MAX,
        ensures
            final(self).indent == old(self).indent + 1,
            final(self).options == old(self).options,
    {
        self.indent = self.indent + 1;
    }

    /// One level shallower.
    pub fn down_indent(&mut self)
        requires
            old(self).indent > 0,
        ensures
            final(self).indent == old(self).indent - 1,
            final(self).options == old(self).options,
    {
        self.indent = self.indent - 1;
    }

    /// The indentation for the current depth.
    pub fn indent_string(&self) -> (r: String)
        ensures
            r@ == spec_indent(self.options, self.indent as nat),
    {
        let mut buf: Vec<char> = Vec::new();
        let mut i: usize = 0;
        proof {
            assert(buf@ =~= spec_indent(self.options, 0));
        }
        while i < self.indent
            invariant
                i <= self.indent,
                buf@ == spec_indent(self.options, i as nat),
            decreases self.indent - i,
        {
            if self.options.use_tabs {
                buf.push('\t');
                proof {
                    lemma_indent_snoc(self.options, i as nat);
                    assert(buf@ =~= spec_indent(self.options, (i + 1) as nat));
                }
            } else {
                let mut j: usize = 0;
                while j < self.options.spaces
                    invariant
                        j <= self.options.spaces,
                        buf@ == spec_indent(self.options, i as nat) + Seq::new(
                            j as nat,
                            |k: int| ' ',
                        ),
                    decreases self.options.spaces - j,
                {
                    buf.push(' ');
                    proof {
                        assert(buf@ =~= spec_indent(self.options, i as nat) + Seq::new(
                            (j + 1) as nat,
                            |k: int| ' ',
                        ));
                    }
                    j += 1;
                }
                proof {
                    lemma_indent_snoc(self.options, i as nat);
                    assert(buf@ =~= spec_indent(self.options, (i + 1) as nat));
                }
            }
            i += 1;
        }
        string_of(&buf)
    }

    /// Renders one leaf literal: a quoted string, the number's canonical
    /// text, or a keyword.
    pub fn format_primitive(&self, node: &SyntaxKind) -> (r: String)
        requires
            node@ is StringLiteral || node@ is NumberLiteral || node@ is TrueKeyword || node@
                is FalseKeyword || node@ is NullKeyword,
        ensures
            r@ == spec_render(node@, self.options, self.indent as nat),
    {
        match node {
            SyntaxKind::StringLiteral(s) => {
                let mut out = String::new();
                out.append("\"");
                out.append(s.as_str());
                out.append("\"");
                proof {
                    reveal_strlit("\"");
                    assert(out@ =~= spec_render(node@, self.options, self.indent as nat));
                }
                out
            },
            SyntaxKind::NumberLiteral(s) => s.clone(),
            SyntaxKind::TrueKeyword => {
                let r = "true".to_owned();
                proof {
                    reveal_strlit("true");
                    assert(r@ =~= seq!['t', 'r', 'u', 'e']);
                }
                r
            },
            SyntaxKind::FalseKeyword => {
                let r = "false".to_owned();
                proof {
                    reveal_strlit("false");
                    assert(r@ =~= seq!['f', 'a', 'l', 's', 'e']);
                }
                r
            },
            SyntaxKind::NullKeyword => {
                let r = "null".to_owned();
                proof {
                    reveal_strlit("null");
                    assert(r@ =~= seq!['n', 'u', 'l', 'l']);
                }
                r
            },
            _ => {
                proof {
                    assert(false);
                }
                String::new()
            },
        }
    }

    /// Renders an array literal: the delimiters around one line per element
    /// one level deeper, with the optional trailing comma.
    pub fn format_array(&mut self, node: &SyntaxKind) -> (r: String)
        requires
            node@ is ArrayLiteralExpression,
            old(self).indent + height(node@) <= usize::MAX,
        ensures
            *final(self) == *old(self),
            r@ == spec_render(node@, old(self).options, old(self).indent as nat),
        decreases node, 0int,
    {
        if let SyntaxKind::ArrayLiteralExpression(children) = node {
            let ghost items = node@->ArrayLiteralExpression_0;
            let ghost opts = self.options;
            let ghost depth = self.indent as nat;
            proof {
                lemma_node_views(children@);
            }
            let mut out = String::new();
            out.append("[");
            self.up_indent();
            let mut first = true;
            let mut i: usize = 0;
            proof {
                reveal_strlit("[");
                assert(out@ =~= seq!['['] + spec_render_items(
                    items.take(0),
                    opts,
                    depth + 1,
                    true,
                ));
            }
            while i < children.len()
                invariant
                    i <= children.len(),
                    first == (i == 0),
                    node@ is ArrayLiteralExpression,
                    *children == node->ArrayLiteralExpression_0,
                    items == node@->ArrayLiteralExpression_0,
                    items.len() == children@.len(),
                    forall|k: int| 0 <= k < children@.len() ==> items[k] == children@[k]@,
                    self.options == opts,
                    opts == old(self).options,
                    depth == old(self).indent as nat,
                    self.indent == depth + 1,
                    depth + height(node@) <= usize::MAX,
                    out@ == seq!['['] + spec_render_items(items.take(i as int), opts, depth + 1, true),
                decreases children.len() - i,
            {
                if first {
                    first = false;
                } else {
                    out.append(",");
                }
                out.append("\n");
                let ind = self.indent_string();
                out.append(ind.as_str());
                proof {
                    lemma_items_height_index(items, i as int);
                    let f = node->ArrayLiteralExpression_0;
                    assert(f == *children);
                    assert(decreases_to!(*node => f));
                    assert(decreases_to!(f => f@));
                    assert(decreases_to!(f@ => f@[i as int]));
                    assert(decreases_to!(*node => children@[i as int]));
                }
                let child_str = self.format_node(&children[i]);
                out.append(child_str.as_str());
                proof {
                    reveal_strlit(",");
                    reveal_strlit("\n");
                    lemma_render_items_snoc(items.take(i as int), items[i as int], opts, depth + 1, true);
                    assert(items.take(i as int).push(items[i as int]) =~= items.take(i as int + 1));
                    assert(out@ =~= seq!['['] + spec_render_items(
                        items.take(i as int + 1),
                        opts,
                        depth + 1,
                        true,
                    ));
                }
                i += 1;
            }
            if self.options.trailing_commas && children.len() > 0 {
                out.append(",");
            }
            self.down_indent();
            out.append("\n");
            let ind = self.indent_string();
            out.append(ind.as_str());
            out.append("]");
            proof {
                reveal_strlit(",");
                reveal_strlit("\n");
                reveal_strlit("]");
                assert(items.take(children@.len() as int) =~= items);
                assert(out@ =~= spec_render(node@, opts, depth));
            }
            out
        } else {
            proof {
                assert(false);
            }
            String::new()
        }
    }

    /// Renders an object literal: the delimiters around one line per member
    /// one level deeper, with the optional trailing comma.
    pub fn format_object(&mut self, node: &SyntaxKind) -> (r: String)
        requires
            node@ is ObjectLiteralExpression,
            old(self).indent + height(node@) <= usize::MAX,
        ensures
            *final(self) == *old(self),
            r@ == spec_render(node@, old(self).options, old(self).indent as nat),
        decreases node, 0int,
    {
        if let SyntaxKind::ObjectLiteralExpression(children) = node {
            let ghost items = node@->ObjectLiteralExpression_0;
            let ghost opts = self.options;
            let ghost depth = self.indent as nat;
            proof {
                lemma_node_views(children@);
            }
            let mut out = String::new();
            out.append("{");
            self.up_indent();
            let mut first = true;
            let mut i: usize = 0;
            proof {
                reveal_strlit("{");
                assert(out@ =~= seq!['{'] + spec_render_items(
                    items.take(0),
                    opts,
                    depth + 1,
                    true,
                ));
            }
            while i < children.len()
                invariant
                    i <= children.len(),
                    first == (i == 0),
                    node@ is ObjectLiteralExpression,
                    *children == node->ObjectLiteralExpression_0,
                    items == node@->ObjectLiteralExpression_0,
                    items.len() == children@.len(),
                    forall|k: int| 0 <= k < children@.len() ==> items[k] == children@[k]@,
                    self.options == opts,
                    opts == old(self).options,
                    depth == old(self).indent as nat,
                    self.indent == depth + 1,
                    depth + height(node@) <= usize::MAX,
                    out@ == seq!['{'] + spec_render_items(items.take(i as int), opts, depth + 1, true),
                decreases children.len() - i,
            {
                if first {
                    first = false;
                } else {
                    out.append(",");
                }
                out.append("\n");
                let ind = self.indent_string();
                out.append(ind.as_str());
                proof {
                    lemma_items_height_index(items, i as int);
                    let f = node->ObjectLiteralExpression_0;
                    assert(f == *children);
                    assert(decreases_to!(*node => f));
                    assert(decreases_to!(f => f@));
                    assert(decreases_to!(f@ => f@[i as int]));
                    assert(decreases_to!(*node => children@[i as int]));
                }
                let child_str = self.format_node(&children[i]);
                out.append(child_str.as_str());
                proof {
                    reveal_strlit(",");
                    reveal_strlit("\n");
                    lemma_render_items_snoc(items.take(i as int), items[i as int], opts, depth + 1, true);
                    assert(items.take(i as int).push(items[i as int]) =~= items.take(i as int + 1));
                    assert(out@ =~= seq!['{'] + spec_render_items(
                        items.take(i as int + 1),
                        opts,
                        depth + 1,
                        true,
                    ));
                }
                i += 1;
            }
            if self.options.trailing_commas && children.len() > 0 {
                out.append(",");
            }
            self.down_indent();
            out.append("\n");
            let ind = self.indent_string();
            out.append(ind.as_str());
            out.append("}");
            proof {
                reveal_strlit(",");
                reveal_strlit("\n");
                reveal_strlit("}");
                assert(items.take(children@.len() as int) =~= items);
                assert(out@ =~= spec_render(node@, opts, depth));
            }
            out
        } else {
            proof {
                assert(false);
            }
            String::new()
        }
    }

    /// Renders any node at the current depth.
    pub fn format_node(&mut self, node: &SyntaxKind) -> (r: String)
        requires
            old(self).indent + height(node@) <= usize::MAX,
        ensures
            *final(self) == *old(self),
            r@ == spec_render(node@, old(self).options, old(self).indent as nat),
        decreases node, 1int,
    {
        match node {
            SyntaxKind::ObjectLiteralExpression(_) => self.format_object(node),
            SyntaxKind::ArrayLiteralExpression(_) => self.format_array(node),
            SyntaxKind::PropertyAssignment(k, v) => {
                let mut out = String::new();
                out.append("\"");
                out.append(k.as_str());
                out.append("\"");
                out.append(":");
                out.append(" ");
                let inner = self.format_node(v);
                out.append(inner.as_str());
                proof {
                    reveal_strlit("\"");
                    reveal_strlit(":");
                    reveal_strlit(" ");
                    assert(out@ =~= spec_render(node@, old(self).options, old(self).indent as nat));
                }
                out
            },
            _ => self.format_primitive(node),
        }
    }

    /// Parses the input and renders the tree at the current depth, or
    /// reports the first tokenizing or parsing failure.
    pub fn format(&mut self, input: &str) -> (r: Result<String, JsonError>)
        requires
            old(self).indent + input@.len() + 1 <= usize::MAX,
        ensures
            *final(self) == *old(self),
            match spec_format(input@, old(self).options, old(self).indent as nat) {
                Ok(s) => r matches Ok(out) && out@ == s,
                Err(e) => r == Err::<String, JsonError>(e),
            },
    {
        let mut parser = match Parser::new(input) {
            Ok(p) => p,
            Err(e) => {
                return Err(e);
            },
        };
        let node = match parser.parse() {
            Ok(n) => n,
            Err(e) => {
                return Err(e);
            },
        };
        proof {
            lemma_tokens_count(input@);
            lemma_parse_value_height(parser.toks(), 0);
        }
        Ok(self.format_node(&node))
    }
}

} // verus!
