//! The template tree, and the token sequence that each part of it is
//! written as.
use vstd::prelude::*;
use crate::token::{Delimiter, Token, TokenView, token_view, tokens_view};

verus! {

/// Text to render: a bare string literal, or a parenthesised expression of
/// the host language.
#[derive(Debug)]
pub enum Expr {
    /// A string literal as written (`text`) and the string it denotes.
    Str { text: String, value: String, span: usize },
    /// The tokens inside a parenthesised group.
    Paren { tokens: Vec<Token>, span: usize },
}

/// A parsed template: a sequence of nodes.
#[derive(Debug)]
pub struct Template {
    pub nodes: Vec<Node>,
}

/// One node of a template.
#[derive(Debug)]
pub enum Node {
    Element(Element),
    Block(Block),
    Expr(Expr),
    If(If),
    Match(Match),
    ForLoop(ForLoop),
}

/// An element: tag name, attributes, and a body unless it ends in `;`.
#[derive(Debug)]
pub struct Element {
    pub name: String,
    pub span: usize,
    pub attr_list: Vec<Attribute>,
    pub body: Option<Block>,
    /// The span of the terminating `;` where there is no body.
    pub semi_span: usize,
}

/// An attribute: `@value`, `.value`, or `key` with an optional `: value`.
#[derive(Debug)]
pub enum Attribute {
    Id { sigil_span: usize, value: Expr },
    Class { sigil_span: usize, value: Expr },
    KeyValue { key: String, span: usize, value: Option<Expr>, colon_span: usize },
}

/// A brace-delimited sequence of nodes.
#[derive(Debug)]
pub struct Block {
    pub nodes: Vec<Node>,
    pub span: usize,
}

/// `if cond { .. }` with an optional `else` followed by a block or another `if`.
#[derive(Debug)]
pub struct If {
    pub if_span: usize,
    pub cond: Vec<Token>,
    pub then_branch: Block,
    pub else_branch: Option<Box<Node>>,
    pub else_span: usize,
}

/// `match expr { arms }`.
#[derive(Debug)]
pub struct Match {
    pub match_span: usize,
    pub expr: Vec<Token>,
    pub arms: Vec<Arm>,
    pub brace_span: usize,
}

/// `pattern [if guard] => body [,]`.
#[derive(Debug)]
pub struct Arm {
    pub pat: Vec<Token>,
    pub guard: Option<Vec<Token>>,
    pub if_span: usize,
    pub arrow_spans: (usize, usize),
    pub body: Node,
    pub comma_span: Option<usize>,
}

/// `for pattern in expr { .. }`.
#[derive(Debug)]
pub struct ForLoop {
    pub for_span: usize,
    pub pat: Vec<Token>,
    pub in_span: usize,
    pub expr: Vec<Token>,
    pub body: Block,
}

pub open spec fn expr_tokens(e: Expr) -> Seq<TokenView> {
    match e {
        Expr::Str { text, value, span } => seq![TokenView::Literal(text@, Some(value@), span)],
        Expr::Paren { tokens, span } => seq![
            TokenView::Group(Delimiter::Parenthesis, tokens_view(tokens@), span)
        ],
    }
}

pub open spec fn attr_tokens(a: Attribute) -> Seq<TokenView> {
    match a {
        Attribute::Id { sigil_span, value } => seq![TokenView::Punct('@', sigil_span)]
            + expr_tokens(value),
        Attribute::Class { sigil_span, value } => seq![TokenView::Punct('.', sigil_span)]
            + expr_tokens(value),
        Attribute::KeyValue { key, span, value, colon_span } => match value {
            None => seq![TokenView::Ident(key@, span)],
            Some(v) => seq![TokenView::Ident(key@, span), TokenView::Punct(':', colon_span)]
                + expr_tokens(v),
        },
    }
}

pub open spec fn attrs_tokens(s: Seq<Attribute>) -> Seq<TokenView>
    decreases s.len(),
{
    if s.len() == 0 {
        Seq::empty()
    } else {
        attrs_tokens(s.drop_last()) + attr_tokens(s.last())
    }
}

/// The brace group that a block is written as.
pub open spec fn block_token(b: Block) -> TokenView
    decreases b,
{
    TokenView::Group(Delimiter::Brace, nodes_tokens(b.nodes@), b.span)
}

/// The tokens that a node is written as.
pub open spec fn node_tokens(n: Node) -> Seq<TokenView>
    decreases n,
{
    match n {
        Node::Element(e) => seq![TokenView::Ident(e.name@, e.span)] + attrs_tokens(e.attr_list@)
            + match e.body {
            Some(b) => seq![block_token(b)],
            None => seq![TokenView::Punct(';', e.semi_span)],
        },
        Node::Block(b) => seq![block_token(b)],
        Node::Expr(e) => expr_tokens(e),
        Node::If(i) => seq![TokenView::Ident("if"@, i.if_span)] + tokens_view(i.cond@) + seq![
            block_token(i.then_branch),
        ] + match i.else_branch {
            None => Seq::empty(),
            Some(b) => seq![TokenView::Ident("else"@, i.else_span)] + node_tokens(*b),
        },
        Node::Match(m) => seq![TokenView::Ident("match"@, m.match_span)] + tokens_view(m.expr@)
            + seq![TokenView::Group(Delimiter::Brace, arms_tokens(m.arms@), m.brace_span)],
        Node::ForLoop(f) => seq![TokenView::Ident("for"@, f.for_span)] + tokens_view(f.pat@)
            + seq![TokenView::Ident("in"@, f.in_span)] + tokens_view(f.expr@) + seq![
            block_token(f.body),
        ],
    }
}

/// The tokens that a sequence of nodes is written as.
pub open spec fn nodes_tokens(s: Seq<Node>) -> Seq<TokenView>
    decreases s,
{
    if s.len() == 0 {
        Seq::empty()
    } else {
        nodes_tokens(s.drop_last()) + node_tokens(s.last())
    }
}

pub open spec fn arm_tokens(a: Arm) -> Seq<TokenView>
    decreases a,
{
    tokens_view(a.pat@) + match a.guard {
        None => Seq::empty(),
        Some(g) => seq![TokenView::Ident("if"@, a.if_span)] + tokens_view(g@),
    } + seq![TokenView::Punct('=', a.arrow_spans.0), TokenView::Punct('>', a.arrow_spans.1)]
        + node_tokens(a.body) + match a.comma_span {
        None => Seq::empty(),
        Some(c) => seq![TokenView::Punct(',', c)],
    }
}

pub open spec fn arms_tokens(s: Seq<Arm>) -> Seq<TokenView>
    decreases s,
{
    if s.len() == 0 {
        Seq::empty()
    } else {
        arms_tokens(s.drop_last()) + arm_tokens(s.last())
    }
}

/// Whether a node ends in a brace group when written, which makes the comma
/// after a match arm optional.
pub open spec fn spec_ends_with_eager_brace(n: Node) -> bool {
    !(n is Expr)
}

impl Node {
    pub fn ends_with_eager_brace(&self) -> (r: bool)
        ensures
            r == spec_ends_with_eager_brace(*self),
    {
        match self {
            Node::Expr(_) => false,
            _ => true,
        }
    }
}

impl Expr {
    /// The text of the expression where it is known before rendering: a
    /// string literal, bare or alone in parentheses.
    pub open spec fn spec_static_text(self) -> Option<Seq<char>> {
        match self {
            Expr::Str { value, .. } => Some(value@),
            Expr::Paren { tokens, .. } => if tokens@.len() == 1 && tokens@[0] is Literal
                && tokens@[0]->Literal_value is Some {
                Some(tokens@[0]->Literal_value->0@)
            } else {
                None
            },
        }
    }

    /// The span that identifies the expression in diagnostics.
    pub open spec fn spec_span(self) -> usize {
        match self {
            Expr::Str { span, .. } => span,
            Expr::Paren { span, .. } => span,
        }
    }

    pub fn span(&self) -> (r: usize)
        ensures
            r == self.spec_span(),
    {
        match self {
            Expr::Str { span, .. } => *span,
            Expr::Paren { span, .. } => *span,
        }
    }
}

} // verus!
