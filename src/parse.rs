//! The recursive-descent parser from a token stream to a template tree.
use vstd::prelude::*;
use crate::ast::{
    Arm, Attribute, Block, Element, Expr, ForLoop, If, Match, Node, Template, arm_tokens,
    arms_tokens, attr_tokens, attrs_tokens, block_token, expr_tokens, node_tokens, nodes_tokens,
    spec_ends_with_eager_brace,
};
use crate::tags::{is_keyword, is_keyword_name, str_eq};
use crate::token::{
    Delimiter, Token, TokenView, lemma_tokens_view_concat, lemma_tokens_view_index,
    lemma_tokens_view_single, lemma_span_group, lemma_tree_size_concat, lemma_tree_size_single,
    token_size, token_view, tokens_have_span, tokens_view, tree_size, view_span,
};

verus! {

broadcast use {crate::token::lemma_span_concat, crate::token::lemma_span_first};

/// What the parser expected where it stopped.
#[derive(Clone, Copy, Debug, PartialEq, Eq, Structural)]
pub enum SyntaxErrorKind {
    /// An element's tag name or an attribute.
    ExpectedIdent,
    /// A body in braces or a `;` after an element's attributes.
    ExpectedBodyOrSemicolon,
    /// A string literal or a parenthesised expression.
    ExpectedValue,
    /// An expression before a block, or a pattern.
    ExpectedExpression,
    /// A block in braces.
    ExpectedBlock,
    /// The keyword `in` of a loop.
    ExpectedIn,
    /// The `=>` of a match arm.
    ExpectedArrow,
    /// The `,` after a match arm.
    ExpectedComma,
}

/// A syntax error at the span of the offending token, or at the end of the
/// enclosing input where `span` is `None`.
#[derive(Clone, Copy, Debug, PartialEq, Eq, Structural)]
pub struct SyntaxError {
    pub kind: SyntaxErrorKind,
    pub span: Option<usize>,
}

pub open spec fn kind_message(k: SyntaxErrorKind) -> Seq<char> {
    match k {
        SyntaxErrorKind::ExpectedIdent => "expected identifier"@,
        SyntaxErrorKind::ExpectedBodyOrSemicolon => "expected curly braces or semicolon"@,
        SyntaxErrorKind::ExpectedValue => "expected string literal or parenthesized expression"@,
        SyntaxErrorKind::ExpectedExpression => "expected expression"@,
        SyntaxErrorKind::ExpectedBlock => "expected curly braces"@,
        SyntaxErrorKind::ExpectedIn => "expected `in`"@,
        SyntaxErrorKind::ExpectedArrow => "expected `=>`"@,
        SyntaxErrorKind::ExpectedComma => "expected `,`"@,
    }
}

impl SyntaxError {
    /// The message that the error is reported with.
    pub fn message(&self) -> (r: String)
        ensures
            r@ == kind_message(self.kind),
    {
        match self.kind {
            SyntaxErrorKind::ExpectedIdent => String::from_str("expected identifier"),
            SyntaxErrorKind::ExpectedBodyOrSemicolon => String::from_str("expected curly braces or semicolon"),
            SyntaxErrorKind::ExpectedValue => String::from_str("expected string literal or parenthesized expression"),
            SyntaxErrorKind::ExpectedExpression => String::from_str("expected expression"),
            SyntaxErrorKind::ExpectedBlock => String::from_str("expected curly braces"),
            SyntaxErrorKind::ExpectedIn => String::from_str("expected `in`"),
            SyntaxErrorKind::ExpectedArrow => String::from_str("expected `=>`"),
            SyntaxErrorKind::ExpectedComma => String::from_str("expected `,`"),
        }
    }
}

pub open spec fn v_ident(t: TokenView, name: Seq<char>) -> bool {
    t matches TokenView::Ident(n, _) && n == name
}

pub open spec fn v_plain_ident(t: TokenView) -> bool {
    t matches TokenView::Ident(n, _) && !is_keyword_name(n)
}

pub open spec fn v_punct(t: TokenView, c: char) -> bool {
    t matches TokenView::Punct(ch, _) && ch == c
}

pub open spec fn v_group(t: TokenView, d: Delimiter) -> bool {
    t matches TokenView::Group(dd, _, _) && dd == d
}

pub open spec fn v_str_literal(t: TokenView) -> bool {
    t matches TokenView::Literal(_, v, _) && v is Some
}

/// Whether a sequence starts with `=>`.
pub open spec fn starts_with_arrow(s: Seq<TokenView>) -> bool {
    s.len() >= 2 && v_punct(s[0], '=') && v_punct(s[1], '>')
}

/// Where a run of host-language tokens ends.
#[derive(Clone, Copy, Debug, PartialEq, Eq, Structural)]
pub enum Stop {
    /// Before a brace group: a condition, a scrutinee, an iterable.
    Brace,
    /// Before the keyword `in`: a loop pattern.
    In,
    /// Before `if` or `=>`: a match pattern.
    GuardOrArrow,
    /// Before `=>`: a match guard.
    Arrow,
}

pub open spec fn stops_at(s: Seq<TokenView>, stop: Stop) -> bool {
    s.len() > 0 && match stop {
        Stop::Brace => v_group(s[0], Delimiter::Brace),
        Stop::In => v_ident(s[0], "in"@),
        Stop::GuardOrArrow => v_ident(s[0], "if"@) || starts_with_arrow(s),
        Stop::Arrow => starts_with_arrow(s),
    }
}

/// The remaining tokens `rest` follow `consumed` in `orig`, both as written
/// and by size.
pub open spec fn split(orig: Seq<Token>, consumed: Seq<TokenView>, rest: Seq<Token>) -> bool {
    &&& tokens_view(orig) == consumed + tokens_view(rest)
    &&& tree_size(rest) <= tree_size(orig)
    &&& rest.len() <= orig.len()
}

/// A run of host-language tokens that the parser takes whole: not empty,
/// and with no place inside where it would stop.
pub open spec fn host_ok(s: Seq<TokenView>, stop: Stop) -> bool {
    &&& s.len() > 0
    &&& forall|i: int| 0 <= i < s.len() ==> !#[trigger] stops_at(s.subrange(i, s.len() as int), stop)
}

pub open spec fn no_else_next(s: Seq<TokenView>) -> bool {
    !(s.len() > 0 && v_ident(s[0], "else"@))
}

pub open spec fn wf_expr(e: Expr) -> bool {
    match e {
        Expr::Str { .. } => true,
        Expr::Paren { tokens, .. } => tokens@.len() > 0,
    }
}

pub open spec fn wf_attr(a: Attribute) -> bool {
    match a {
        Attribute::Id { value, .. } => wf_expr(value),
        Attribute::Class { value, .. } => wf_expr(value),
        Attribute::KeyValue { key, value, .. } => !is_keyword_name(key@) && match value {
            Some(v) => wf_expr(v),
            None => true,
        },
    }
}

/// Whether an arm is closed for the next one: it has a comma, or its body
/// ends in braces.
pub open spec fn arm_closed(a: Arm) -> bool {
    a.comma_span is Some || spec_ends_with_eager_brace(a.body)
}

/// A node as the parser reads it back: names are plain identifiers, host
/// tokens hold no place where the parser would stop, `else` leads to a
/// block or an `if`, and every match arm but the last is closed.
pub open spec fn wf_node(n: Node) -> bool
    decreases n,
{
    match n {
        Node::Element(e) => !is_keyword_name(e.name@) && (forall|i: int|
            0 <= i < e.attr_list@.len() ==> #[trigger] wf_attr(e.attr_list@[i])) && match e.body {
            Some(b) => wf_nodes(b.nodes@),
            None => true,
        },
        Node::Block(b) => wf_nodes(b.nodes@),
        Node::Expr(e) => wf_expr(e),
        Node::If(i) => host_ok(tokens_view(i.cond@), Stop::Brace) && wf_nodes(i.then_branch.nodes@)
            && match i.else_branch {
            Some(b) => (*b is If || *b is Block) && wf_node(*b),
            None => true,
        },
        Node::Match(m) => host_ok(tokens_view(m.expr@), Stop::Brace) && wf_arms(m.arms@),
        Node::ForLoop(f) => host_ok(tokens_view(f.pat@), Stop::In) && host_ok(
            tokens_view(f.expr@),
            Stop::Brace,
        ) && wf_nodes(f.body.nodes@),
    }
}

pub open spec fn wf_nodes(s: Seq<Node>) -> bool
    decreases s,
{
    s.len() == 0 || (wf_nodes(s.drop_last()) && wf_node(s.last()))
}

pub open spec fn wf_arm(a: Arm) -> bool
    decreases a,
{
    &&& host_ok(tokens_view(a.pat@), Stop::GuardOrArrow)
    &&& !v_punct(tokens_view(a.pat@)[0], ',')
    &&& !v_ident(tokens_view(a.pat@)[0], "else"@)
    &&& match a.guard {
        Some(g) => host_ok(tokens_view(g@), Stop::Arrow),
        None => true,
    }
    &&& wf_node(a.body)
}

pub open spec fn wf_arms(s: Seq<Arm>) -> bool
    decreases s,
{
    s.len() == 0 || (wf_arms(s.drop_last()) && wf_arm(s.last()) && (s.len() >= 2 ==> arm_closed(
        s[s.len() - 2],
    )))
}

/// A template that the parser reads back from its tokens.
pub open spec fn wf_template(t: Template) -> bool {
    wf_nodes(t.nodes@)
}

proof fn lemma_wf_nodes_index(s: Seq<Node>)
    requires
        wf_nodes(s),
    ensures
        forall|i: int| 0 <= i < s.len() ==> #[trigger] wf_node(s[i]),
    decreases s.len(),
{
    if s.len() > 0 {
        lemma_wf_nodes_index(s.drop_last());
        assert forall|i: int| 0 <= i < s.len() implies #[trigger] wf_node(s[i]) by {
            if i < s.len() - 1 {
                assert(s.drop_last()[i] == s[i]);
            }
        }
    }
}

proof fn lemma_wf_arms_index(s: Seq<Arm>)
    requires
        wf_arms(s),
    ensures
        forall|i: int| 0 <= i < s.len() ==> #[trigger] wf_arm(s[i]),
        forall|i: int| 0 <= i < s.len() - 1 ==> #[trigger] arm_closed(s[i]),
    decreases s.len(),
{
    if s.len() > 0 {
        lemma_wf_arms_index(s.drop_last());
        assert forall|i: int| 0 <= i < s.len() implies #[trigger] wf_arm(s[i]) by {
            if i < s.len() - 1 {
                assert(s.drop_last()[i] == s[i]);
            }
        }
        assert forall|i: int| 0 <= i < s.len() - 1 implies #[trigger] arm_closed(s[i]) by {
            if i < s.len() - 2 {
                assert(s.drop_last()[i] == s[i]);
            }
        }
    }
}

proof fn lemma_nodes_tokens_concat(a: Seq<Node>, b: Seq<Node>)
    ensures
        nodes_tokens(a + b) == nodes_tokens(a) + nodes_tokens(b),
    decreases b.len(),
{
    if b.len() == 0 {
        assert(a + b =~= a);
        assert(nodes_tokens(a) + nodes_tokens(b) =~= nodes_tokens(a));
    } else {
        assert((a + b).drop_last() =~= a + b.drop_last());
        lemma_nodes_tokens_concat(a, b.drop_last());
        assert(nodes_tokens(a) + nodes_tokens(b) =~= nodes_tokens(a) + nodes_tokens(b.drop_last())
            + node_tokens(b.last()));
    }
}

proof fn lemma_attrs_tokens_concat(a: Seq<Attribute>, b: Seq<Attribute>)
    ensures
        attrs_tokens(a + b) == attrs_tokens(a) + attrs_tokens(b),
    decreases b.len(),
{
    if b.len() == 0 {
        assert(a + b =~= a);
        assert(attrs_tokens(a) + attrs_tokens(b) =~= attrs_tokens(a));
    } else {
        assert((a + b).drop_last() =~= a + b.drop_last());
        lemma_attrs_tokens_concat(a, b.drop_last());
        assert(attrs_tokens(a) + attrs_tokens(b) =~= attrs_tokens(a) + attrs_tokens(b.drop_last())
            + attr_tokens(b.last()));
    }
}

proof fn lemma_arms_tokens_concat(a: Seq<Arm>, b: Seq<Arm>)
    ensures
        arms_tokens(a + b) == arms_tokens(a) + arms_tokens(b),
    decreases b.len(),
{
    if b.len() == 0 {
        assert(a + b =~= a);
        assert(arms_tokens(a) + arms_tokens(b) =~= arms_tokens(a));
    } else {
        assert((a + b).drop_last() =~= a + b.drop_last());
        lemma_arms_tokens_concat(a, b.drop_last());
        assert(arms_tokens(a) + arms_tokens(b) =~= arms_tokens(a) + arms_tokens(b.drop_last())
            + arm_tokens(b.last()));
    }
}

/// `s[k..]` written out: the tokens of `s[k]` and then of `s[k + 1..]`.
proof fn lemma_nodes_tokens_split(s: Seq<Node>, k: int)
    requires
        0 <= k < s.len(),
    ensures
        nodes_tokens(s.subrange(k, s.len() as int)) == node_tokens(s[k]) + nodes_tokens(
            s.subrange(k + 1, s.len() as int),
        ),
        nodes_tokens(s.subrange(0, k + 1)) == nodes_tokens(s.subrange(0, k)) + node_tokens(s[k]),
{
    let t = s.subrange(k + 1, s.len() as int);
    assert(s.subrange(k, s.len() as int) =~= seq![s[k]] + t);
    lemma_nodes_tokens_concat(seq![s[k]], t);
    let one = seq![s[k]];
    assert(one.drop_last() =~= Seq::<Node>::empty());
    assert(one.last() == s[k]);
    assert(nodes_tokens(one.drop_last()) == Seq::<TokenView>::empty());
    assert(nodes_tokens(one) == nodes_tokens(one.drop_last()) + node_tokens(one.last()));
    assert(nodes_tokens(one) =~= node_tokens(s[k]));
    assert(s.subrange(0, k + 1).drop_last() =~= s.subrange(0, k));
}

proof fn lemma_attrs_tokens_split(s: Seq<Attribute>, k: int)
    requires
        0 <= k < s.len(),
    ensures
        attrs_tokens(s.subrange(k, s.len() as int)) == attr_tokens(s[k]) + attrs_tokens(
            s.subrange(k + 1, s.len() as int),
        ),
        attrs_tokens(s.subrange(0, k + 1)) == attrs_tokens(s.subrange(0, k)) + attr_tokens(s[k]),
{
    let t = s.subrange(k + 1, s.len() as int);
    assert(s.subrange(k, s.len() as int) =~= seq![s[k]] + t);
    lemma_attrs_tokens_concat(seq![s[k]], t);
    let one = seq![s[k]];
    assert(one.drop_last() =~= Seq::<Attribute>::empty());
    assert(one.last() == s[k]);
    assert(attrs_tokens(one.drop_last()) == Seq::<TokenView>::empty());
    assert(attrs_tokens(one) == attrs_tokens(one.drop_last()) + attr_tokens(one.last()));
    assert(attrs_tokens(one) =~= attr_tokens(s[k]));
    assert(s.subrange(0, k + 1).drop_last() =~= s.subrange(0, k));
}

proof fn lemma_arms_tokens_split(s: Seq<Arm>, k: int)
    requires
        0 <= k < s.len(),
    ensures
        arms_tokens(s.subrange(k, s.len() as int)) == arm_tokens(s[k]) + arms_tokens(
            s.subrange(k + 1, s.len() as int),
        ),
        arms_tokens(s.subrange(0, k + 1)) == arms_tokens(s.subrange(0, k)) + arm_tokens(s[k]),
{
    let t = s.subrange(k + 1, s.len() as int);
    assert(s.subrange(k, s.len() as int) =~= seq![s[k]] + t);
    lemma_arms_tokens_concat(seq![s[k]], t);
    let one = seq![s[k]];
    assert(one.drop_last() =~= Seq::<Arm>::empty());
    assert(one.last() == s[k]);
    assert(arms_tokens(one.drop_last()) == Seq::<TokenView>::empty());
    assert(arms_tokens(one) == arms_tokens(one.drop_last()) + arm_tokens(one.last()));
    assert(arms_tokens(one) =~= arm_tokens(s[k]));
    assert(s.subrange(0, k + 1).drop_last() =~= s.subrange(0, k));
}

/// Every node is written as at least one token.
proof fn lemma_node_tokens_nonempty(n: Node)
    ensures
        node_tokens(n).len() > 0,
{
}

/// What a well-formed node's tokens start with: never `else`, and the first
/// token tells the kind of node.
pub proof fn lemma_node_first(n: Node)
    requires
        wf_node(n),
    ensures
        node_tokens(n).len() > 0,
        !v_ident(node_tokens(n)[0], "else"@),
        v_ident(node_tokens(n)[0], "if"@) ==> n is If,
        v_ident(node_tokens(n)[0], "match"@) ==> n is Match,
        v_ident(node_tokens(n)[0], "for"@) ==> n is ForLoop,
        v_group(node_tokens(n)[0], Delimiter::Parenthesis) || v_str_literal(node_tokens(n)[0]) ==> n is Expr,
        v_group(node_tokens(n)[0], Delimiter::Brace) ==> n is Block,
        n is Element ==> v_plain_ident(node_tokens(n)[0]),
        n is Block ==> v_group(node_tokens(n)[0], Delimiter::Brace),
        n is If ==> v_ident(node_tokens(n)[0], "if"@),
        n is Match ==> v_ident(node_tokens(n)[0], "match"@),
        n is ForLoop ==> v_ident(node_tokens(n)[0], "for"@),
        n matches Node::Expr(e) ==> (e is Str ==> v_str_literal(node_tokens(n)[0])) && (e is Paren
            ==> v_group(node_tokens(n)[0], Delimiter::Parenthesis)),
{
    reveal_strlit("else");
    reveal_strlit("if");
    reveal_strlit("match");
    reveal_strlit("for");
    let f = node_tokens(n)[0];
    assert("else"@.len() == 4 && "if"@.len() == 2 && "match"@.len() == 5 && "for"@.len() == 3);
    assert("else"@ != "if"@);
    assert("else"@ != "match"@);
    assert("else"@ != "for"@);
    assert("if"@ != "match"@);
    assert("if"@ != "for"@);
    assert("match"@ != "for"@);
    if n is Element {
        let e = n->Element_0;
        assert(f == TokenView::Ident(e.name@, e.span));
        assert(!is_keyword_name(e.name@));
    } else if n is Block {
        assert(f == block_token(n->Block_0));
    } else if n is Expr {
        assert(f == expr_tokens(n->Expr_0)[0]);
    } else if n is If {
        assert(f == TokenView::Ident("if"@, n->If_0.if_span));
    } else if n is Match {
        assert(f == TokenView::Ident("match"@, n->Match_0.match_span));
    } else if n is ForLoop {
        assert(f == TokenView::Ident("for"@, n->ForLoop_0.for_span));
    }
}

proof fn lemma_nodes_nonempty(s: Seq<Node>)
    ensures
        s.len() > 0 ==> nodes_tokens(s).len() > 0,
        s.len() == 0 ==> nodes_tokens(s).len() == 0,
    decreases s.len(),
{
    if s.len() > 0 {
        lemma_nodes_nonempty(s.drop_last());
        lemma_node_tokens_nonempty(s.last());
    }
}

proof fn lemma_arms_nonempty(s: Seq<Arm>)
    ensures
        s.len() > 0 ==> arms_tokens(s).len() > 0,
        s.len() == 0 ==> arms_tokens(s).len() == 0,
    decreases s.len(),
{
    if s.len() > 0 {
        lemma_arms_nonempty(s.drop_last());
        assert(arm_tokens(s.last()).len() >= 2);
    }
}

/// Two ways of writing one sequence, with fronts of equal length, agree on
/// the front and on the rest.
proof fn lemma_cancel<A>(x: Seq<A>, b: Seq<A>, c: Seq<A>, d: Seq<A>)
    requires
        x + b == c + d,
        x.len() == c.len(),
    ensures
        x == c,
        b == d,
{
    assert(x =~= (x + b).subrange(0, x.len() as int));
    assert(c =~= (c + d).subrange(0, x.len() as int));
    assert(b =~= (x + b).subrange(x.len() as int, (x + b).len() as int));
    assert(d =~= (c + d).subrange(x.len() as int, (c + d).len() as int));
}

proof fn lemma_first_view(s: Seq<Token>)
    ensures
        tokens_view(s).len() == s.len(),
        s.len() > 0 ==> tokens_view(s)[0] == token_view(s[0]),
        s.len() > 1 ==> tokens_view(s)[1] == token_view(s[1]),
{
    lemma_tokens_view_index(s);
}

/// Where a sequence stops, so does any longer one that starts with it.
proof fn lemma_stops_extend(a: Seq<TokenView>, b: Seq<TokenView>, stop: Stop)
    requires
        stops_at(a, stop),
    ensures
        stops_at(a + b, stop),
{
    assert((a + b)[0] == a[0]);
    if a.len() >= 2 {
        assert((a + b)[1] == a[1]);
    }
}

/// Removes and returns the first token.
fn take(toks: &mut Vec<Token>) -> (t: Token)
    requires
        old(toks)@.len() > 0,
    ensures
        t == old(toks)@[0],
        final(toks)@ == old(toks)@.subrange(1, old(toks)@.len() as int),
        tokens_view(old(toks)@) == seq![token_view(t)] + tokens_view(final(toks)@),
        tree_size(old(toks)@) == token_size(t) + tree_size(final(toks)@),
        token_size(t) >= 1,
{
    let t = toks.remove(0);
    proof {
        assert(old(toks)@ =~= seq![t] + toks@);
        lemma_tokens_view_concat(seq![t], toks@);
        lemma_tokens_view_single(t);
        lemma_tree_size_concat(seq![t], toks@);
        lemma_tree_size_single(t);
    }
    t
}

/// Removes and returns the first token; where the tokens are known to be
/// `x` and then `tail`, the token is `x` and `tail` remains.
fn take_front(toks: &mut Vec<Token>, exp: Ghost<Option<(TokenView, Seq<TokenView>)>>) -> (t: Token)
    requires
        old(toks)@.len() > 0,
        exp@ matches Some((x, tail)) ==> tokens_view(old(toks)@) == seq![x] + tail,
    ensures
        final(toks)@ == old(toks)@.subrange(1, old(toks)@.len() as int),
        tokens_view(old(toks)@) == seq![token_view(t)] + tokens_view(final(toks)@),
        tree_size(old(toks)@) == token_size(t) + tree_size(final(toks)@),
        exp@ matches Some((x, tail)) ==> token_view(t) == x && tokens_view(final(toks)@) == tail,
{
    let t = take(toks);
    proof {
        if let Some((x, tail)) = exp@ {
            lemma_cancel(seq![token_view(t)], tokens_view(toks@), seq![x], tail);
            assert(seq![token_view(t)][0] == seq![x][0]);
        }
    }
    t
}

fn error_at(toks: &Vec<Token>, kind: SyntaxErrorKind) -> (r: SyntaxError)
    ensures
        r.kind == kind,
        r.span == first_span(tokens_view(toks@)),
{
    proof {
        lemma_first_view(toks@);
    }
    let span = if toks.len() > 0 {
        Some(toks[0].span())
    } else {
        None
    };
    SyntaxError { kind, span }
}

fn peek_ident(toks: &Vec<Token>, name: &str) -> (r: bool)
    ensures
        r == (toks@.len() > 0 && v_ident(tokens_view(toks@)[0], name@)),
{
    proof {
        lemma_first_view(toks@);
    }
    if toks.len() == 0 {
        return false;
    }
    match &toks[0] {
        Token::Ident { name: n, .. } => str_eq(n.as_str(), name),
        _ => false,
    }
}

fn peek_plain_ident(toks: &Vec<Token>) -> (r: bool)
    ensures
        r == (toks@.len() > 0 && v_plain_ident(tokens_view(toks@)[0])),
{
    proof {
        lemma_first_view(toks@);
    }
    if toks.len() == 0 {
        return false;
    }
    match &toks[0] {
        Token::Ident { name, .. } => !is_keyword(name.as_str()),
        _ => false,
    }
}

fn peek_punct_at(toks: &Vec<Token>, i: usize, c: char) -> (r: bool)
    requires
        i < 2,
    ensures
        r == (i < toks@.len() && v_punct(tokens_view(toks@)[i as int], c)),
{
    proof {
        lemma_first_view(toks@);
    }
    if i >= toks.len() {
        return false;
    }
    match &toks[i] {
        Token::Punct { ch, .. } => *ch == c,
        _ => false,
    }
}

fn peek_group(toks: &Vec<Token>, d: Delimiter) -> (r: bool)
    ensures
        r == (toks@.len() > 0 && v_group(tokens_view(toks@)[0], d)),
{
    proof {
        lemma_first_view(toks@);
    }
    if toks.len() == 0 {
        return false;
    }
    match &toks[0] {
        Token::Group { delimiter, .. } => *delimiter == d,
        _ => false,
    }
}

fn peek_str_literal(toks: &Vec<Token>) -> (r: bool)
    ensures
        r == (toks@.len() > 0 && v_str_literal(tokens_view(toks@)[0])),
{
    proof {
        lemma_first_view(toks@);
    }
    if toks.len() == 0 {
        return false;
    }
    match &toks[0] {
        Token::Literal { value, .. } => value.is_some(),
        _ => false,
    }
}

fn peek_stop(toks: &Vec<Token>, stop: Stop) -> (r: bool)
    ensures
        r == stops_at(tokens_view(toks@), stop),
{
    proof {
        lemma_first_view(toks@);
    }
    match stop {
        Stop::Brace => peek_group(toks, Delimiter::Brace),
        Stop::In => peek_ident(toks, "in"),
        Stop::GuardOrArrow => peek_ident(toks, "if") || (peek_punct_at(toks, 0, '=')
            && peek_punct_at(toks, 1, '>')),
        Stop::Arrow => peek_punct_at(toks, 0, '=') && peek_punct_at(toks, 1, '>'),
    }
}

/// Takes the tokens before the first place where `stop` holds (or all of
/// them); fails where there is none to take. Host tokens that hold no such
/// place, followed by one, are taken whole.
fn take_until(toks: &mut Vec<Token>, stop: Stop, exp: Ghost<Option<(Seq<TokenView>, Seq<TokenView>)>>) -> (r: Result<Vec<Token>, SyntaxError>)
    requires
        exp@ matches Some((s, rest)) ==> host_ok(s, stop) && tokens_view(old(toks)@) == s + rest
            && stops_at(rest, stop),
    ensures
        r matches Err(e) ==> located_in(e, tokens_view(old(toks)@)),
        r matches Ok(v) ==> v@.len() > 0 && split(old(toks)@, tokens_view(v@), final(toks)@) && (
        final(toks)@.len() == 0 || stops_at(tokens_view(final(toks)@), stop)) && host_ok(
            tokens_view(v@),
            stop,
        ),
        r matches Err(e) ==> e.kind == SyntaxErrorKind::ExpectedExpression,
        exp@ matches Some((s, rest)) ==> r matches Ok(v) && tokens_view(v@) == s && tokens_view(
            final(toks)@,
        ) == rest,
{
    let ghost orig = toks@;
    let mut taken: Vec<Token> = Vec::new();
    assert(tokens_view(orig) =~= tokens_view(taken@) + tokens_view(toks@));
    while toks.len() > 0 && !peek_stop(toks, stop)
        invariant
            split(orig, tokens_view(taken@), toks@),
            forall|i: int|
                0 <= i < taken@.len() ==> !#[trigger] stops_at(
                    tokens_view(taken@).subrange(i, taken@.len() as int) + tokens_view(toks@),
                    stop,
                ),
            exp@ matches Some((s, rest)) ==> host_ok(s, stop) && tokens_view(orig) == s + rest
                && stops_at(rest, stop) && taken@.len() <= s.len() && tokens_view(taken@)
                == s.subrange(0, taken@.len() as int) && tokens_view(toks@) == s.subrange(
                taken@.len() as int,
                s.len() as int,
            ) + rest,
        decreases toks@.len(),
    {
        proof {
            lemma_tokens_view_index(taken@);
            if let Some((s, rest)) = exp@ {
                let k = taken@.len() as int;
                if k == s.len() {
                    assert(tokens_view(toks@) =~= rest);
                    assert(false);
                }
            }
        }
        let ghost pre = toks@;
        let ghost before = taken@;
        let t = take(toks);
        proof {
            crate::token::lemma_tokens_view_push(taken@, t);
        }
        taken.push(t);
        proof {
            let n = before.len() as int;
            lemma_tokens_view_index(before);
            lemma_tokens_view_index(taken@);
            assert forall|i: int| 0 <= i < taken@.len() implies !#[trigger] stops_at(
                tokens_view(taken@).subrange(i, taken@.len() as int) + tokens_view(toks@),
                stop,
            ) by {
                if i < n {
                    assert(tokens_view(taken@).subrange(i, taken@.len() as int) + tokens_view(toks@)
                        =~= tokens_view(before).subrange(i, n) + tokens_view(pre));
                } else {
                    assert(tokens_view(taken@).subrange(i, taken@.len() as int) + tokens_view(toks@)
                        =~= tokens_view(pre));
                }
            }
        }
        assert(tokens_view(orig) =~= tokens_view(taken@) + tokens_view(toks@));
        proof {
            lemma_tokens_view_index(taken@);
            if let Some((s, rest)) = exp@ {
                let k = taken@.len() as int;
                assert(tokens_view(taken@) =~= s.subrange(0, k));
                assert(tokens_view(pre) == s.subrange(k - 1, s.len() as int) + rest);
                assert(tokens_view(pre) == seq![token_view(t)] + tokens_view(toks@));
                assert(tokens_view(toks@) =~= tokens_view(pre).subrange(1, tokens_view(pre).len() as int));
                assert(tokens_view(toks@) =~= s.subrange(k, s.len() as int) + rest);
            }
        }
    }
    proof {
        lemma_tokens_view_index(taken@);
        if let Some((s, rest)) = exp@ {
            let k = taken@.len() as int;
            if k < s.len() {
                let v = tokens_view(toks@);
                let sub = s.subrange(k, s.len() as int);
                assert(!stops_at(sub, stop));
                assert(v[0] == sub[0]);
                if k + 1 < s.len() {
                    assert(v[1] == sub[1]);
                } else {
                    assert(v[1] == rest[0]);
                    assert(!v_punct(rest[0], '>'));
                }
                assert(!stops_at(v, stop));
                assert(false);
            }
            assert(tokens_view(taken@) =~= s);
            assert(tokens_view(toks@) =~= rest);
        }
    }
    if taken.len() == 0 {
        return Err(error_at(toks, SyntaxErrorKind::ExpectedExpression));
    }
    proof {
        let v = tokens_view(taken@);
        lemma_tokens_view_index(taken@);
        assert forall|i: int| 0 <= i < v.len() implies !#[trigger] stops_at(v.subrange(i, v.len() as int), stop) by {
            if stops_at(v.subrange(i, v.len() as int), stop) {
                lemma_stops_extend(v.subrange(i, v.len() as int), tokens_view(toks@), stop);
            }
        }
    }
    Ok(taken)
}

/// The span of the first token, or `None` at the end of the input.
pub open spec fn first_span(s: Seq<TokenView>) -> Option<usize> {
    if s.len() > 0 {
        Some(view_span(s[0]))
    } else {
        None
    }
}

/// The error points at a token of `s`, or at the end of the input.
pub open spec fn located_in(e: SyntaxError, s: Seq<TokenView>) -> bool {
    match e.span {
        None => true,
        Some(sp) => tokens_have_span(s, sp),
    }
}

/// A token that can start an attribute.
pub open spec fn attr_start(t: TokenView) -> bool {
    v_plain_ident(t) || v_punct(t, '@') || v_punct(t, '.')
}

/// A token that a well-formed attribute can end with.
pub open spec fn attr_end(t: TokenView) -> bool {
    v_plain_ident(t) || v_str_literal(t) || (t matches TokenView::Group(d, inner, _)
        && d == Delimiter::Parenthesis && inner.len() > 0)
}

/// `s` is a tag name and well-formed attributes, then `rest`.
pub open spec fn name_and_attrs_then(s: Seq<TokenView>, rest: Seq<TokenView>) -> bool {
    exists|a: Seq<Attribute>|
        (forall|i: int| 0 <= i < a.len() ==> #[trigger] wf_attr(a[i])) && s.len() > 0
            && v_plain_ident(s[0]) && s == seq![s[0]] + attrs_tokens(a) + rest
}

/// The tokens consumed between `old` and `rest` end with a token that ends
/// no well-formed attribute.
pub open spec fn stopped_after_bad_end(old: Seq<TokenView>, rest: Seq<TokenView>) -> bool {
    let k = old.len() - rest.len();
    &&& k > 0
    &&& old.subrange(k, old.len() as int) == rest
    &&& !attr_end(old[k - 1])
}

proof fn lemma_attrs_end(a: Seq<Attribute>)
    requires
        forall|i: int| 0 <= i < a.len() ==> #[trigger] wf_attr(a[i]),
        a.len() > 0,
    ensures
        attrs_tokens(a).len() > 0,
        attr_end(attrs_tokens(a).last()),
{
    let l = a.last();
    assert(wf_attr(a[a.len() - 1]));
    assert(attrs_tokens(a) == attrs_tokens(a.drop_last()) + attr_tokens(l));
    lemma_tokens_view_index(l->Id_value->Paren_tokens@);
    lemma_tokens_view_index(l->Class_value->Paren_tokens@);
    lemma_tokens_view_index(l->KeyValue_value->0->Paren_tokens@);
    reveal_strlit("else");
}

/// Stopping after a token that ends no attribute, preceded by more tokens,
/// is still stopping after such a token.
proof fn lemma_bad_end_extend(pre: Seq<TokenView>, mid: Seq<TokenView>, rest: Seq<TokenView>)
    requires
        pre.len() > 0,
        (mid == rest && !attr_end(pre.last())) || stopped_after_bad_end(mid, rest),
    ensures
        stopped_after_bad_end(pre + mid, rest),
{
    let s = pre + mid;
    let k = s.len() - rest.len();
    if mid == rest {
        assert(s[k - 1] == pre.last());
        assert(s.subrange(k, s.len() as int) =~= rest);
    } else {
        let km = mid.len() - rest.len();
        assert(s[k - 1] == mid[km - 1]);
        assert(s.subrange(k, s.len() as int) =~= mid.subrange(km, mid.len() as int));
    }
}

/// A tag name and well-formed attributes can't be followed by `rest` where
/// the parse stopped after a token that ends no attribute.
proof fn lemma_no_reading_after_bad(pre: Seq<TokenView>, mid: Seq<TokenView>, rest: Seq<TokenView>)
    requires
        pre.len() > 0,
        stopped_after_bad_end(mid, rest),
    ensures
        !name_and_attrs_then(pre + mid, rest),
{
    let s = pre + mid;
    if name_and_attrs_then(s, rest) {
        let a = choose|a: Seq<Attribute>|
            (forall|i: int| 0 <= i < a.len() ==> #[trigger] wf_attr(a[i])) && s.len() > 0
                && v_plain_ident(s[0]) && s == seq![s[0]] + attrs_tokens(a) + rest;
        let at = attrs_tokens(a);
        let k = mid.len() - rest.len();
        assert(s.len() == 1 + at.len() + rest.len());
        if a.len() == 0 {
            assert(at.len() == 0);
        } else {
            lemma_attrs_end(a);
            let j = at.len() as int;
            assert(s[j] == at.last());
            assert(s[j] == mid[j - pre.len()]);
            assert(mid[k - 1] == s[j]);
        }
    }
}

proof fn lemma_attr_first(a: Attribute)
    requires
        wf_attr(a),
    ensures
        attr_tokens(a).len() > 0,
        v_plain_ident(attr_tokens(a)[0]) || v_punct(attr_tokens(a)[0], '@') || v_punct(
            attr_tokens(a)[0],
            '.',
        ),
        a is Id <==> v_punct(attr_tokens(a)[0], '@'),
        a is Class <==> v_punct(attr_tokens(a)[0], '.'),
{
}

/// Parses nodes until the tokens run out.
#[verifier::loop_isolation(false)]
#[verifier::rlimit(50)]
fn parse_nodes(v: Vec<Token>, exp: Ghost<Option<Seq<Node>>>) -> (r: Result<Vec<Node>, SyntaxError>)
    requires
        exp@ matches Some(s) ==> wf_nodes(s) && tokens_view(v@) == nodes_tokens(s),
    ensures
        r matches Err(e) ==> located_in(e, tokens_view(v@)),
        r matches Ok(nodes) ==> nodes_tokens(nodes@) == tokens_view(v@) && wf_nodes(nodes@),
        exp@ matches Some(s) ==> r matches Ok(nodes) && nodes_tokens(nodes@) == nodes_tokens(s),
    decreases tree_size(v@), 5nat,
{
    let ghost orig = v@;
    let mut toks = v;
    let mut nodes: Vec<Node> = Vec::new();
    assert(tokens_view(orig) =~= nodes_tokens(nodes@) + tokens_view(toks@));
    proof {
        if let Some(s) = exp@ {
            lemma_wf_nodes_index(s);
            assert(s.subrange(0, 0) =~= Seq::<Node>::empty());
            assert(s.subrange(0, s.len() as int) =~= s);
        }
    }
    while toks.len() > 0
        invariant
            split(orig, nodes_tokens(nodes@), toks@),
            wf_nodes(nodes@),
            exp@ matches Some(s) ==> (forall|i: int| 0 <= i < s.len() ==> #[trigger] wf_node(s[i]))
                && nodes@.len() <= s.len() && nodes_tokens(nodes@) == nodes_tokens(
                s.subrange(0, nodes@.len() as int),
            ) && tokens_view(toks@) == nodes_tokens(s.subrange(nodes@.len() as int, s.len() as int)),
        decreases toks@.len(),
    {
        let ghost k = nodes@.len() as int;
        let ghost e: Option<(Node, Seq<TokenView>)> = match exp@ {
            Some(s) => Some((s[k], nodes_tokens(s.subrange(k + 1, s.len() as int)))),
            None => None,
        };
        proof {
            lemma_first_view(toks@);
            if let Some(s) = exp@ {
                if k == s.len() {
                    assert(s.subrange(k, k) =~= Seq::<Node>::empty());
                    assert(false);
                }
                lemma_nodes_tokens_split(s, k);
                if k + 1 < s.len() {
                    lemma_nodes_tokens_split(s, k + 1);
                    lemma_node_first(s[k + 1]);
                } else {
                    assert(s.subrange(k + 1, s.len() as int) =~= Seq::<Node>::empty());
                }
            }
        }
        let n = match parse_node(&mut toks, Ghost(e)) {
            Ok(n) => n,
            Err(e) => return Err(e),
        };
        let ghost before = nodes@;
        nodes.push(n);
        proof {
            assert(nodes@.drop_last() =~= before);
            assert(tokens_view(orig) =~= nodes_tokens(nodes@) + tokens_view(toks@));
            assert(wf_nodes(nodes@));
        }
    }
    proof {
        lemma_first_view(toks@);
        if let Some(s) = exp@ {
            let k = nodes@.len() as int;
            lemma_nodes_nonempty(s.subrange(k, s.len() as int));
            assert(s.subrange(0, k) =~= s);
        }
    }
    assert(tokens_view(orig) =~= nodes_tokens(nodes@));
    Ok(nodes)
}

/// Parses one node, chosen by its first token.
fn parse_node(toks: &mut Vec<Token>, exp: Ghost<Option<(Node, Seq<TokenView>)>>) -> (r: Result<Node, SyntaxError>)
    requires
        old(toks)@.len() > 0,
        exp@ matches Some((n, rest)) ==> wf_node(n) && tokens_view(old(toks)@) == node_tokens(n) + rest
            && no_else_next(rest),
    ensures
        r matches Err(e) ==> located_in(e, tokens_view(old(toks)@)),
        r matches Ok(n) ==> split(old(toks)@, node_tokens(n), final(toks)@) && final(toks)@.len()
            < old(toks)@.len() && wf_node(n),
        exp@ matches Some((n, rest)) ==> r matches Ok(n2) && node_tokens(n2) == node_tokens(n)
            && tokens_view(final(toks)@) == rest && (n2 is Expr <==> n is Expr),
    decreases tree_size(old(toks)@), 4nat,
{
    proof {
        lemma_first_view(toks@);
        reveal_strlit("if");
        reveal_strlit("match");
        reveal_strlit("for");
        if let Some((n, rest)) = exp@ {
            lemma_node_first(n);
            assert(tokens_view(toks@)[0] == node_tokens(n)[0]);
        }
    }
    if peek_ident(toks, "if") {
        let ghost e = match exp@ {
            Some((Node::If(i), rest)) => Some((i, rest)),
            _ => None,
        };
        proof {
            if let Some((n, rest)) = exp@ {
                lemma_node_first(n);
                assert(tokens_view(toks@)[0] == node_tokens(n)[0]);
                assert(n is If);
            }
        }
        match parse_if(toks, Ghost(e)) {
            Ok(i) => Ok(Node::If(i)),
            Err(e) => Err(e),
        }
    } else if peek_ident(toks, "match") {
        let ghost e = match exp@ {
            Some((Node::Match(m), rest)) => Some((m, rest)),
            _ => None,
        };
        proof {
            if let Some((n, rest)) = exp@ {
                lemma_node_first(n);
                assert(tokens_view(toks@)[0] == node_tokens(n)[0]);
                assert(n is Match);
            }
        }
        match parse_match(toks, Ghost(e)) {
            Ok(m) => Ok(Node::Match(m)),
            Err(e) => Err(e),
        }
    } else if peek_ident(toks, "for") {
        let ghost e = match exp@ {
            Some((Node::ForLoop(f), rest)) => Some((f, rest)),
            _ => None,
        };
        proof {
            if let Some((n, rest)) = exp@ {
                lemma_node_first(n);
                assert(tokens_view(toks@)[0] == node_tokens(n)[0]);
                assert(n is ForLoop);
            }
        }
        match parse_for(toks, Ghost(e)) {
            Ok(f) => Ok(Node::ForLoop(f)),
            Err(e) => Err(e),
        }
    } else if peek_group(toks, Delimiter::Parenthesis) || peek_str_literal(toks) {
        let ghost e = match exp@ {
            Some((Node::Expr(x), rest)) => Some((x, rest)),
            _ => None,
        };
        proof {
            if let Some((n, rest)) = exp@ {
                lemma_node_first(n);
                assert(tokens_view(toks@)[0] == node_tokens(n)[0]);
                assert(n is Expr);
            }
        }
        match parse_value(toks, Ghost(e)) {
            Ok(e) => Ok(Node::Expr(e)),
            Err(e) => Err(e),
        }
    } else if peek_group(toks, Delimiter::Brace) {
        let ghost e = match exp@ {
            Some((Node::Block(b), rest)) => Some((b, rest)),
            _ => None,
        };
        proof {
            if let Some((n, rest)) = exp@ {
                lemma_node_first(n);
                assert(tokens_view(toks@)[0] == node_tokens(n)[0]);
                assert(n is Block);
            }
        }
        match parse_block(toks, Ghost(e)) {
            Ok(b) => Ok(Node::Block(b)),
            Err(e) => Err(e),
        }
    } else {
        let ghost e = match exp@ {
            Some((Node::Element(x), rest)) => Some((x, rest)),
            _ => None,
        };
        proof {
            if let Some((n, rest)) = exp@ {
                lemma_node_first(n);
                assert(tokens_view(toks@)[0] == node_tokens(n)[0]);
                assert(n is Element);
            }
        }
        match parse_element(toks, Ghost(e)) {
            Ok(e) => Ok(Node::Element(e)),
            Err(e) => Err(e),
        }
    }
}

/// Parses a brace group as a block of nodes.
fn parse_block(toks: &mut Vec<Token>, exp: Ghost<Option<(Block, Seq<TokenView>)>>) -> (r: Result<Block, SyntaxError>)
    requires
        old(toks)@.len() > 0,
        v_group(tokens_view(old(toks)@)[0], Delimiter::Brace),
        exp@ matches Some((b, rest)) ==> wf_nodes(b.nodes@) && tokens_view(old(toks)@) == seq![
            block_token(b),
        ] + rest,
    ensures
        r matches Err(e) ==> located_in(e, tokens_view(old(toks)@)),
        r matches Ok(b) ==> split(old(toks)@, seq![block_token(b)], final(toks)@) && final(toks)@.len()
            < old(toks)@.len() && wf_nodes(b.nodes@),
        r is Err ==> tokens_view(final(toks)@) == tokens_view(old(toks)@).subrange(
            1,
            tokens_view(old(toks)@).len() as int,
        ),
        exp@ matches Some((b, rest)) ==> r matches Ok(b2) && block_token(b2) == block_token(b)
            && tokens_view(final(toks)@) == rest,
    decreases tree_size(old(toks)@), 2nat,
{
    proof {
        lemma_first_view(toks@);
    }
    let t = take(toks);
    proof {
        if let Some((b, rest)) = exp@ {
            lemma_cancel(seq![token_view(t)], tokens_view(toks@), seq![block_token(b)], rest);
            assert(seq![token_view(t)][0] == seq![block_token(b)][0]);
        }
    }
    match t {
        Token::Group { tokens, span, .. } => {
            let ghost inner = tokens@;
            let ghost e = match exp@ {
                Some((b, rest)) => Some(b.nodes@),
                None => None,
            };
            match parse_nodes(tokens, Ghost(e)) {
                Ok(nodes) => {
                    let b = Block { nodes, span };
                    assert(block_token(b) == token_view(t));
                    Ok(b)
                },
                Err(e) => {
                    proof {
                        if let Some(sp) = e.span {
                            assert(tokens_view(old(toks)@)[0] == token_view(t));
                            lemma_span_group(tokens_view(old(toks)@), tokens_view(inner), sp);
                        }
                    }
                    Err(e)
                },
            }
        },
        _ => Err(error_at(toks, SyntaxErrorKind::ExpectedBlock)),
    }
}

/// Parses an attribute value or an expression node: a string literal or a
/// non-empty parenthesised group.
fn parse_value(toks: &mut Vec<Token>, exp: Ghost<Option<(Expr, Seq<TokenView>)>>) -> (r: Result<Expr, SyntaxError>)
    requires
        exp@ matches Some((e, rest)) ==> wf_expr(e) && tokens_view(old(toks)@) == expr_tokens(e) + rest,
    ensures
        r matches Err(e) ==> located_in(e, tokens_view(old(toks)@)),
        r matches Ok(e) ==> split(old(toks)@, expr_tokens(e), final(toks)@) && final(toks)@.len()
            < old(toks)@.len() && wf_expr(e),
        r is Err ==> tokens_view(final(toks)@) == tokens_view(old(toks)@) || stopped_after_bad_end(
            tokens_view(old(toks)@),
            tokens_view(final(toks)@),
        ),
        exp@ matches Some((e, rest)) ==> r matches Ok(e2) && expr_tokens(e2) == expr_tokens(e)
            && tokens_view(final(toks)@) == rest,
    decreases tree_size(old(toks)@), 1nat,
{
    proof {
        lemma_first_view(toks@);
        if let Some((e, rest)) = exp@ {
            assert(expr_tokens(e).len() == 1);
            assert(tokens_view(toks@)[0] == expr_tokens(e)[0]);
        }
    }
    if peek_str_literal(toks) {
        let t = take(toks);
        proof {
            assert(tokens_view(old(toks)@)[0] == token_view(t));
            if let Some((e, rest)) = exp@ {
                assert(expr_tokens(e).len() == 1);
                assert(tokens_view(toks@) =~= tokens_view(old(toks)@).subrange(1, tokens_view(old(toks)@).len() as int));
                assert(tokens_view(toks@) =~= rest);
            }
        }
        match t {
            Token::Literal { text, value: Some(value), span } => Ok(Expr::Str { text, value, span }),
            _ => Err(error_at(toks, SyntaxErrorKind::ExpectedValue)),
        }
    } else if peek_group(toks, Delimiter::Parenthesis) {
        let t = take(toks);
        proof {
            let ov = tokens_view(old(toks)@);
            assert(ov[0] == token_view(t));
            assert(ov.subrange(1, ov.len() as int) =~= tokens_view(toks@));
            if t is Group {
                lemma_tokens_view_index(t->Group_tokens@);
            }
            crate::token::lemma_span_first(ov);
            if let Some((e, rest)) = exp@ {
                assert(expr_tokens(e).len() == 1);
                assert(tokens_view(toks@) =~= tokens_view(old(toks)@).subrange(1, tokens_view(old(toks)@).len() as int));
                assert(tokens_view(toks@) =~= rest);
                assert(e is Paren);
                lemma_tokens_view_index(e->Paren_tokens@);
                if t is Group {
                    lemma_tokens_view_index(t->Group_tokens@);
                }
            }
        }
        match t {
            Token::Group { tokens, span, .. } => {
                if tokens.len() == 0 {
                    Err(SyntaxError { kind: SyntaxErrorKind::ExpectedExpression, span: Some(span) })
                } else {
                    Ok(Expr::Paren { tokens, span })
                }
            },
            _ => Err(error_at(toks, SyntaxErrorKind::ExpectedValue)),
        }
    } else {
        Err(error_at(toks, SyntaxErrorKind::ExpectedValue))
    }
}

/// Parses one attribute: `@value`, `.value`, `key` or `key: value`.
fn parse_attribute(toks: &mut Vec<Token>, exp: Ghost<Option<(Attribute, Seq<TokenView>)>>) -> (r: Result<Attribute, SyntaxError>)
    requires
        old(toks)@.len() > 0,
        v_plain_ident(tokens_view(old(toks)@)[0]) || v_punct(tokens_view(old(toks)@)[0], '@')
            || v_punct(tokens_view(old(toks)@)[0], '.'),
        exp@ matches Some((a, rest)) ==> wf_attr(a) && tokens_view(old(toks)@) == attr_tokens(a) + rest
            && !(rest.len() > 0 && v_punct(rest[0], ':')),
    ensures
        r matches Err(e) ==> located_in(e, tokens_view(old(toks)@)),
        r matches Ok(a) ==> split(old(toks)@, attr_tokens(a), final(toks)@) && final(toks)@.len()
            < old(toks)@.len() && wf_attr(a),
        r is Err ==> stopped_after_bad_end(tokens_view(old(toks)@), tokens_view(final(toks)@)),
        exp@ matches Some((a, rest)) ==> r matches Ok(a2) && attr_tokens(a2) == attr_tokens(a)
            && tokens_view(final(toks)@) == rest,
    decreases tree_size(old(toks)@), 2nat,
{
    let ghost orig = toks@;
    proof {
        lemma_first_view(toks@);
        if let Some((a, rest)) = exp@ {
            lemma_attr_first(a);
            assert(tokens_view(toks@)[0] == attr_tokens(a)[0]);
        }
    }
    if peek_punct_at(toks, 0, '@') || peek_punct_at(toks, 0, '.') {
        let is_id = peek_punct_at(toks, 0, '@');
        let sigil = take(toks);
        let ghost mid0 = toks@;
        proof {
            assert(tokens_view(orig)[0] == token_view(sigil));
        }
        let sigil_span = sigil.span();
        let ghost e = match exp@ {
            Some((Attribute::Id { value, .. }, rest)) => Some((value, rest)),
            Some((Attribute::Class { value, .. }, rest)) => Some((value, rest)),
            _ => None,
        };
        proof {
            if let Some((a, rest)) = exp@ {
                assert(!(a is KeyValue));
                if let Some((first_part, _)) = e {
                    let sig = attr_tokens(a)[0];
                    assert(attr_tokens(a) + rest =~= seq![sig] + (expr_tokens(first_part) + rest));
                    lemma_cancel(seq![token_view(sigil)], tokens_view(toks@), seq![sig], expr_tokens(first_part) + rest);
                }
            }
        }
        match parse_value(toks, Ghost(e)) {
            Ok(value) => {
                let a = if is_id {
                    Attribute::Id { sigil_span, value }
                } else {
                    Attribute::Class { sigil_span, value }
                };
                assert(tokens_view(orig) =~= attr_tokens(a) + tokens_view(toks@));
                Ok(a)
            },
            Err(e) => {
                proof {
                    lemma_bad_end_extend(seq![token_view(sigil)], tokens_view(mid0), tokens_view(toks@));
                }
                Err(e)
            },
        }
    } else {
        let t = take(toks);
        proof {
            lemma_first_view(toks@);
            assert(tokens_view(orig)[0] == token_view(t));
        }
        match t {
            Token::Ident { name, span } => {
                if peek_punct_at(toks, 0, ':') {
                    let ghost mid = toks@;
                    let colon = take(toks);
                    let colon_span = colon.span();
                    let ghost after_colon = toks@;
                    let ghost e = match exp@ {
                        Some((Attribute::KeyValue { value: Some(v), .. }, rest)) => Some((v, rest)),
                        _ => None,
                    };
                    proof {
                        if let Some((a, rest)) = exp@ {
                            assert(a is KeyValue);
                            let kt = attr_tokens(a)[0];
                            if a->KeyValue_value is None {
                                assert(attr_tokens(a) + rest =~= seq![kt] + rest);
                                lemma_cancel(seq![token_view(t)], tokens_view(mid), seq![kt], rest);
                                assert(false);
                            }
                            if let Some((first_part, _)) = e {
                                let ct = attr_tokens(a)[1];
                                assert(attr_tokens(a) + rest =~= seq![kt] + (seq![ct] + (expr_tokens(first_part) + rest)));
                                lemma_cancel(seq![token_view(t)], tokens_view(mid), seq![kt], seq![ct] + (expr_tokens(first_part) + rest));
                                lemma_cancel(seq![token_view(colon)], tokens_view(toks@), seq![ct], expr_tokens(first_part) + rest);
                            }
                        }
                    }
                    match parse_value(toks, Ghost(e)) {
                        Ok(v) => {
                            let a = Attribute::KeyValue { key: name, span, value: Some(v), colon_span };
                            assert(tokens_view(orig) =~= attr_tokens(a) + tokens_view(toks@));
                            Ok(a)
                        },
                        Err(e) => {
                            proof {
                                lemma_bad_end_extend(seq![token_view(colon)], tokens_view(after_colon), tokens_view(toks@));
                                lemma_bad_end_extend(seq![token_view(t)], tokens_view(mid), tokens_view(toks@));
                            }
                            Err(e)
                        },
                    }
                } else {
                    let a = Attribute::KeyValue { key: name, span, value: None, colon_span: 0 };
                    proof {
                        if let Some((x, rest)) = exp@ {
                            assert(x is KeyValue);
                            let kt = attr_tokens(x)[0];
                            if x->KeyValue_value is Some {
                                let v = x->KeyValue_value->0;
                                let ct = attr_tokens(x)[1];
                                assert(attr_tokens(x) + rest =~= seq![kt] + (seq![ct] + (expr_tokens(v) + rest)));
                                lemma_cancel(seq![token_view(t)], tokens_view(toks@), seq![kt], seq![ct] + (expr_tokens(v) + rest));
                                assert(false);
                            }
                            assert(attr_tokens(x) + rest =~= seq![kt] + rest);
                            lemma_cancel(seq![token_view(t)], tokens_view(toks@), seq![kt], rest);
                        }
                    }
                    assert(tokens_view(orig) =~= attr_tokens(a) + tokens_view(toks@));
                    Ok(a)
                }
            },
            _ => Err(error_at(toks, SyntaxErrorKind::ExpectedIdent)),
        }
    }
}

pub open spec fn end_tokens(e: Element) -> Seq<TokenView> {
    match e.body {
        Some(b) => seq![block_token(b)],
        None => seq![TokenView::Punct(';', e.semi_span)],
    }
}

/// Parses an element: a tag name, attributes, then `;` or a block.
#[verifier::loop_isolation(false)]
#[verifier::rlimit(60)]
fn parse_element(toks: &mut Vec<Token>, exp: Ghost<Option<(Element, Seq<TokenView>)>>) -> (r: Result<Element, SyntaxError>)
    requires
        old(toks)@.len() > 0,
        exp@ matches Some((e, rest)) ==> wf_node(Node::Element(e)) && tokens_view(old(toks)@)
            == node_tokens(Node::Element(e)) + rest,
    ensures
        r matches Err(e) ==> located_in(e, tokens_view(old(toks)@)),
        r matches Ok(e) ==> split(old(toks)@, node_tokens(Node::Element(e)), final(toks)@)
            && final(toks)@.len() < old(toks)@.len() && wf_node(Node::Element(e)),
        r matches Err(e) ==> (name_and_attrs_then(tokens_view(old(toks)@), tokens_view(final(toks)@))
            ==> e.kind == SyntaxErrorKind::ExpectedBodyOrSemicolon && e.span == first_span(
            tokens_view(final(toks)@),
        ) && !(tokens_view(final(toks)@).len() > 0 && (v_punct(tokens_view(final(toks)@)[0], ';')
            || v_group(tokens_view(final(toks)@)[0], Delimiter::Brace)))),
        exp@ matches Some((e, rest)) ==> r matches Ok(e2) && node_tokens(Node::Element(e2))
            == node_tokens(Node::Element(e)) && tokens_view(final(toks)@) == rest,
    decreases tree_size(old(toks)@), 3nat,
{
    let ghost orig = toks@;
    proof {
        lemma_first_view(toks@);
        if let Some((e, rest)) = exp@ {
            assert(tokens_view(toks@)[0] == node_tokens(Node::Element(e))[0]);
        }
    }
    if !peek_plain_ident(toks) {
        return Err(error_at(toks, SyntaxErrorKind::ExpectedIdent));
    }
    let ghost en = match exp@ {
        Some((e, rest)) => Some(
            (TokenView::Ident(e.name@, e.span), attrs_tokens(e.attr_list@) + end_tokens(e) + rest),
        ),
        None => None,
    };
    proof {
        if let Some((e, rest)) = exp@ {
            assert(node_tokens(Node::Element(e)) + rest =~= seq![TokenView::Ident(e.name@, e.span)]
                + (attrs_tokens(e.attr_list@) + end_tokens(e) + rest));
        }
    }
    let t = take_front(toks, Ghost(en));
    let (name, span) = match t {
        Token::Ident { name, span } => (name, span),
        _ => return Err(error_at(toks, SyntaxErrorKind::ExpectedIdent)),
    };
    let ghost head = seq![TokenView::Ident(name@, span)];
    let mut attr_list: Vec<Attribute> = Vec::new();
    assert(tokens_view(orig) =~= head + attrs_tokens(attr_list@) + tokens_view(toks@));
    proof {
        if let Some((e, rest)) = exp@ {
            let s = e.attr_list@;
            assert(s.subrange(0, 0) =~= Seq::<Attribute>::empty());
            assert(s.subrange(0, s.len() as int) =~= s);
        }
    }
    while peek_plain_ident(toks) || peek_punct_at(toks, 0, '@') || peek_punct_at(toks, 0, '.')
        invariant
            split(orig, head + attrs_tokens(attr_list@), toks@),
            toks@.len() < orig.len(),
            forall|i: int| 0 <= i < attr_list@.len() ==> #[trigger] wf_attr(attr_list@[i]),
            exp@ matches Some((e, rest)) ==> attr_list@.len() <= e.attr_list@.len()
                && attrs_tokens(attr_list@) == attrs_tokens(
                e.attr_list@.subrange(0, attr_list@.len() as int),
            ) && tokens_view(toks@) == attrs_tokens(
                e.attr_list@.subrange(attr_list@.len() as int, e.attr_list@.len() as int),
            ) + end_tokens(e) + rest,
        decreases toks@.len(),
    {
        let ghost k = attr_list@.len() as int;
        let ghost ea: Option<(Attribute, Seq<TokenView>)> = match exp@ {
            Some((e, rest)) => Some(
                (
                    e.attr_list@[k],
                    attrs_tokens(e.attr_list@.subrange(k + 1, e.attr_list@.len() as int)) + end_tokens(e)
                        + rest,
                ),
            ),
            None => None,
        };
        proof {
            lemma_first_view(toks@);
            if let Some((e, rest)) = exp@ {
                let s = e.attr_list@;
                if k == s.len() {
                    assert(s.subrange(k, k) =~= Seq::<Attribute>::empty());
                    assert(tokens_view(toks@) =~= end_tokens(e) + rest);
                    assert(tokens_view(toks@)[0] == end_tokens(e)[0]);
                    assert(false);
                }
                lemma_attrs_tokens_split(s, k);
                assert(wf_attr(s[k]));
                if k + 1 < s.len() {
                    lemma_attrs_tokens_split(s, k + 1);
                    assert(wf_attr(s[k + 1]));
                    lemma_attr_first(s[k + 1]);
                } else {
                    assert(s.subrange(k + 1, s.len() as int) =~= Seq::<Attribute>::empty());
                }
                if let Some((_, second_part)) = ea {
                    assert(tokens_view(toks@) =~= attr_tokens(s[k]) + second_part);
                }
            }
        }
        let ghost pre = toks@;
        let a = match parse_attribute(toks, Ghost(ea)) {
            Ok(a) => a,
            Err(e) => {
                proof {
                    let front = head + attrs_tokens(attr_list@);
                    assert(tokens_view(orig) == front + tokens_view(pre));
                    lemma_no_reading_after_bad(front, tokens_view(pre), tokens_view(toks@));
                }
                return Err(e);
            },
        };
        let ghost before = attr_list@;
        attr_list.push(a);
        proof {
            assert(attr_list@.drop_last() =~= before);
            assert(tokens_view(orig) =~= head + attrs_tokens(attr_list@) + tokens_view(toks@));
            assert(forall|i: int| 0 <= i < before.len() ==> attr_list@[i] == before[i]);
        }
    }
    proof {
        lemma_first_view(toks@);
        if let Some((e, rest)) = exp@ {
            let s = e.attr_list@;
            let k = attr_list@.len() as int;
            if k < s.len() {
                lemma_attrs_tokens_split(s, k);
                assert(wf_attr(s[k]));
                lemma_attr_first(s[k]);
                assert(tokens_view(toks@)[0] == attr_tokens(s[k])[0]);
                assert(false);
            }
            assert(s.subrange(k, k) =~= Seq::<Attribute>::empty());
            assert(s.subrange(0, k) =~= s);
            assert(tokens_view(toks@) =~= end_tokens(e) + rest);
        }
    }
    if peek_punct_at(toks, 0, ';') {
        let ghost es = match exp@ {
            Some((e, rest)) => Some((TokenView::Punct(';', e.semi_span), rest)),
            None => None,
        };
        proof {
            if let Some((e, rest)) = exp@ {
                assert(e.body is None);
            }
        }
        let semi = take_front(toks, Ghost(es));
        let e = Element { name, span, attr_list, body: None, semi_span: semi.span() };
        assert(tokens_view(orig) =~= node_tokens(Node::Element(e)) + tokens_view(toks@));
        Ok(e)
    } else if peek_group(toks, Delimiter::Brace) {
        let ghost eb = match exp@ {
            Some((x, rest)) => match x.body {
                Some(b) => Some((b, rest)),
                None => None,
            },
            None => None,
        };
        proof {
            if let Some((x, rest)) = exp@ {
                assert(x.body is Some);
            }
        }
        let ghost pre = toks@;
        match parse_block(toks, Ghost(eb)) {
            Ok(b) => {
                let e = Element { name, span, attr_list, body: Some(b), semi_span: 0 };
                assert(tokens_view(orig) =~= node_tokens(Node::Element(e)) + tokens_view(toks@));
                Ok(e)
            },
            Err(e) => {
                proof {
                    let front = head + attrs_tokens(attr_list@);
                    let pv = tokens_view(pre);
                    assert(tokens_view(orig) == front + pv);
                    assert(pv.subrange(1, pv.len() as int) == tokens_view(toks@));
                    assert(stopped_after_bad_end(pv, tokens_view(toks@)));
                    lemma_no_reading_after_bad(front, pv, tokens_view(toks@));
                }
                Err(e)
            },
        }
    } else {
        Err(error_at(toks, SyntaxErrorKind::ExpectedBodyOrSemicolon))
    }
}

pub open spec fn else_tokens(i: If) -> Seq<TokenView> {
    match i.else_branch {
        None => Seq::empty(),
        Some(b) => seq![TokenView::Ident("else"@, i.else_span)] + node_tokens(*b),
    }
}

/// Parses `if cond { .. }` and an optional `else` branch.
fn parse_if(toks: &mut Vec<Token>, exp: Ghost<Option<(If, Seq<TokenView>)>>) -> (r: Result<If, SyntaxError>)
    requires
        old(toks)@.len() > 0,
        v_ident(tokens_view(old(toks)@)[0], "if"@),
        exp@ matches Some((i, rest)) ==> wf_node(Node::If(i)) && tokens_view(old(toks)@) == node_tokens(
            Node::If(i),
        ) + rest && no_else_next(rest),
    ensures
        r matches Err(e) ==> located_in(e, tokens_view(old(toks)@)),
        r matches Ok(i) ==> split(old(toks)@, node_tokens(Node::If(i)), final(toks)@)
            && final(toks)@.len() < old(toks)@.len() && wf_node(Node::If(i)),
        exp@ matches Some((i, rest)) ==> r matches Ok(i2) && node_tokens(Node::If(i2)) == node_tokens(
            Node::If(i),
        ) && tokens_view(final(toks)@) == rest,
    decreases tree_size(old(toks)@), 3nat,
{
    let ghost orig = toks@;
    let ghost ef = match exp@ {
        Some((i, rest)) => Some(
            (
                TokenView::Ident("if"@, i.if_span),
                tokens_view(i.cond@) + (seq![block_token(i.then_branch)] + else_tokens(i) + rest),
            ),
        ),
        None => None,
    };
    proof {
        if let Some((i, rest)) = exp@ {
            assert(node_tokens(Node::If(i)) + rest =~= seq![TokenView::Ident("if"@, i.if_span)] + (
            tokens_view(i.cond@) + (seq![block_token(i.then_branch)] + else_tokens(i) + rest)));
        }
    }
    let if_tok = take_front(toks, Ghost(ef));
    let if_span = if_tok.span();
    let ghost c0 = seq![TokenView::Ident("if"@, if_span)];
    assert(tokens_view(orig) =~= c0 + tokens_view(toks@));
    let ghost ec = match exp@ {
        Some((i, rest)) => Some(
            (tokens_view(i.cond@), seq![block_token(i.then_branch)] + else_tokens(i) + rest),
        ),
        None => None,
    };
    let cond = match take_until(toks, Stop::Brace, Ghost(ec)) {
        Ok(c) => c,
        Err(e) => return Err(e),
    };
    let ghost c1 = c0 + tokens_view(cond@);
    assert(tokens_view(orig) =~= c1 + tokens_view(toks@));
    proof {
        lemma_first_view(toks@);
    }
    if !peek_group(toks, Delimiter::Brace) {
        return Err(error_at(toks, SyntaxErrorKind::ExpectedBlock));
    }
    let ghost eb = match exp@ {
        Some((i, rest)) => Some((i.then_branch, else_tokens(i) + rest)),
        None => None,
    };
    proof {
        if let Some((i, rest)) = exp@ {
            assert(tokens_view(toks@) =~= seq![block_token(i.then_branch)] + (else_tokens(i) + rest));
        }
    }
    let then_branch = match parse_block(toks, Ghost(eb)) {
        Ok(b) => b,
        Err(e) => return Err(e),
    };
    let ghost c2 = c1 + seq![block_token(then_branch)];
    assert(tokens_view(orig) =~= c2 + tokens_view(toks@));
    proof {
        lemma_first_view(toks@);
        reveal_strlit("else");
        reveal_strlit("if");
        if let Some((i, rest)) = exp@ {
            if let Some(b) = i.else_branch {
                lemma_node_first(*b);
                assert(tokens_view(toks@) =~= seq![TokenView::Ident("else"@, i.else_span)] + (
                node_tokens(*b) + rest));
            } else {
                assert(tokens_view(toks@) =~= rest);
            }
        }
    }
    if peek_ident(toks, "else") {
        let ghost ee = match exp@ {
            Some((i, rest)) => match i.else_branch {
                Some(b) => Some((TokenView::Ident("else"@, i.else_span), node_tokens(*b) + rest)),
                None => None,
            },
            None => None,
        };
        let else_tok = take_front(toks, Ghost(ee));
        let else_span = else_tok.span();
        let ghost c3 = c2 + seq![TokenView::Ident("else"@, else_span)];
        assert(tokens_view(orig) =~= c3 + tokens_view(toks@));
        proof {
            lemma_first_view(toks@);
            if let Some((i, rest)) = exp@ {
                assert(i.else_branch is Some);
                lemma_node_first(*i.else_branch->0);
            }
        }
        let ghost en = match exp@ {
            Some((i, rest)) => match i.else_branch {
                Some(b) => Some((*b, rest)),
                None => None,
            },
            None => None,
        };
        proof {
            if let Some((i, rest)) = exp@ {
                assert(wf_node(*i.else_branch->0));
            }
        }
        let else_node = match parse_else(toks, Ghost(en)) {
            Ok(n) => n,
            Err(e) => return Err(e),
        };
        assert(tokens_view(orig) =~= c3 + node_tokens(else_node) + tokens_view(toks@));
        let i = If { if_span, cond, then_branch, else_branch: Some(Box::new(else_node)), else_span };
        assert(node_tokens(Node::If(i)) =~= c3 + node_tokens(else_node));
        assert(tokens_view(orig) =~= node_tokens(Node::If(i)) + tokens_view(toks@));
        Ok(i)
    } else {
        let i = If { if_span, cond, then_branch, else_branch: None, else_span: 0 };
        proof {
            if let Some((x, rest)) = exp@ {
                assert(x.else_branch is None);
            }
        }
        assert(tokens_view(orig) =~= node_tokens(Node::If(i)) + tokens_view(toks@));
        Ok(i)
    }
}

/// Parses what follows `else`: another `if`, or a block.
fn parse_else(toks: &mut Vec<Token>, exp: Ghost<Option<(Node, Seq<TokenView>)>>) -> (r: Result<Node, SyntaxError>)
    requires
        exp@ matches Some((n, rest)) ==> (n is If || n is Block) && wf_node(n) && tokens_view(
            old(toks)@,
        ) == node_tokens(n) + rest && no_else_next(rest),
    ensures
        r matches Err(e) ==> located_in(e, tokens_view(old(toks)@)),
        r matches Ok(n) ==> split(old(toks)@, node_tokens(n), final(toks)@) && final(toks)@.len()
            < old(toks)@.len() && (n is If || n is Block) && wf_node(n),
        exp@ matches Some((n, rest)) ==> r matches Ok(n2) && node_tokens(n2) == node_tokens(n)
            && tokens_view(final(toks)@) == rest,
    decreases tree_size(old(toks)@), 4nat,
{
    proof {
        lemma_first_view(toks@);
        if let Some((n, rest)) = exp@ {
            lemma_node_first(n);
            assert(tokens_view(toks@)[0] == node_tokens(n)[0]);
        }
    }
    if peek_ident(toks, "if") {
        let ghost ei = match exp@ {
            Some((Node::If(x), rest)) => Some((x, rest)),
            _ => None,
        };
        proof {
            if let Some((n, rest)) = exp@ {
                assert(n is If);
            }
        }
        match parse_if(toks, Ghost(ei)) {
            Ok(i) => Ok(Node::If(i)),
            Err(e) => Err(e),
        }
    } else if peek_group(toks, Delimiter::Brace) {
        let ghost eb = match exp@ {
            Some((Node::Block(x), rest)) => Some((x, rest)),
            _ => None,
        };
        proof {
            if let Some((n, rest)) = exp@ {
                assert(n is Block);
            }
        }
        match parse_block(toks, Ghost(eb)) {
            Ok(b) => Ok(Node::Block(b)),
            Err(e) => Err(e),
        }
    } else {
        proof {
            if let Some((n, rest)) = exp@ {
                assert(false);
            }
        }
        Err(error_at(toks, SyntaxErrorKind::ExpectedBlock))
    }
}

/// Parses `for pattern in expr { .. }`.
fn parse_for(toks: &mut Vec<Token>, exp: Ghost<Option<(ForLoop, Seq<TokenView>)>>) -> (r: Result<ForLoop, SyntaxError>)
    requires
        old(toks)@.len() > 0,
        v_ident(tokens_view(old(toks)@)[0], "for"@),
        exp@ matches Some((f, rest)) ==> wf_node(Node::ForLoop(f)) && tokens_view(old(toks)@)
            == node_tokens(Node::ForLoop(f)) + rest,
    ensures
        r matches Err(e) ==> located_in(e, tokens_view(old(toks)@)),
        r matches Ok(f) ==> split(old(toks)@, node_tokens(Node::ForLoop(f)), final(toks)@)
            && final(toks)@.len() < old(toks)@.len() && wf_node(Node::ForLoop(f)),
        exp@ matches Some((f, rest)) ==> r matches Ok(f2) && node_tokens(Node::ForLoop(f2))
            == node_tokens(Node::ForLoop(f)) && tokens_view(final(toks)@) == rest,
    decreases tree_size(old(toks)@), 3nat,
{
    let ghost orig = toks@;
    let ghost ef = match exp@ {
        Some((f, rest)) => Some(
            (
                TokenView::Ident("for"@, f.for_span),
                tokens_view(f.pat@) + (seq![TokenView::Ident("in"@, f.in_span)] + (tokens_view(
                    f.expr@,
                ) + (seq![block_token(f.body)] + rest))),
            ),
        ),
        None => None,
    };
    proof {
        if let Some((f, rest)) = exp@ {
            if let Some((x, tail)) = ef {
                assert(node_tokens(Node::ForLoop(f)) + rest =~= seq![x] + tail);
            }
        }
    }
    let for_tok = take_front(toks, Ghost(ef));
    let for_span = for_tok.span();
    let ghost c0 = seq![TokenView::Ident("for"@, for_span)];
    assert(tokens_view(orig) =~= c0 + tokens_view(toks@));
    let ghost ep = match exp@ {
        Some((f, rest)) => Some(
            (
                tokens_view(f.pat@),
                seq![TokenView::Ident("in"@, f.in_span)] + (tokens_view(f.expr@) + (seq![
                    block_token(f.body),
                ] + rest)),
            ),
        ),
        None => None,
    };
    let pat = match take_until(toks, Stop::In, Ghost(ep)) {
        Ok(p) => p,
        Err(e) => return Err(e),
    };
    let ghost c1 = c0 + tokens_view(pat@);
    assert(tokens_view(orig) =~= c1 + tokens_view(toks@));
    proof {
        lemma_first_view(toks@);
    }
    if !peek_ident(toks, "in") {
        return Err(error_at(toks, SyntaxErrorKind::ExpectedIn));
    }
    let ghost ei = match exp@ {
        Some((f, rest)) => Some(
            (
                TokenView::Ident("in"@, f.in_span),
                tokens_view(f.expr@) + (seq![block_token(f.body)] + rest),
            ),
        ),
        None => None,
    };
    let in_tok = take_front(toks, Ghost(ei));
    let in_span = in_tok.span();
    let ghost c2 = c1 + seq![TokenView::Ident("in"@, in_span)];
    assert(tokens_view(orig) =~= c2 + tokens_view(toks@));
    let ghost ee = match exp@ {
        Some((f, rest)) => Some((tokens_view(f.expr@), seq![block_token(f.body)] + rest)),
        None => None,
    };
    let expr = match take_until(toks, Stop::Brace, Ghost(ee)) {
        Ok(x) => x,
        Err(e) => return Err(e),
    };
    let ghost c3 = c2 + tokens_view(expr@);
    assert(tokens_view(orig) =~= c3 + tokens_view(toks@));
    proof {
        lemma_first_view(toks@);
    }
    if !peek_group(toks, Delimiter::Brace) {
        return Err(error_at(toks, SyntaxErrorKind::ExpectedBlock));
    }
    let ghost eb = match exp@ {
        Some((f, rest)) => Some((f.body, rest)),
        None => None,
    };
    let body = match parse_block(toks, Ghost(eb)) {
        Ok(b) => b,
        Err(e) => return Err(e),
    };
    let f = ForLoop { for_span, pat, in_span, expr, body };
    assert(tokens_view(orig) =~= node_tokens(Node::ForLoop(f)) + tokens_view(toks@));
    Ok(f)
}

pub open spec fn guard_tokens(a: Arm) -> Seq<TokenView> {
    match a.guard {
        None => Seq::empty(),
        Some(g) => seq![TokenView::Ident("if"@, a.if_span)] + tokens_view(g@),
    }
}

pub open spec fn comma_tokens(a: Arm) -> Seq<TokenView> {
    match a.comma_span {
        None => Seq::empty(),
        Some(c) => seq![TokenView::Punct(',', c)],
    }
}

pub open spec fn arrow_tokens(a: Arm) -> Seq<TokenView> {
    seq![TokenView::Punct('=', a.arrow_spans.0), TokenView::Punct('>', a.arrow_spans.1)]
}

/// The tokens of an arm after its pattern and guard.
pub open spec fn arm_tail(a: Arm) -> Seq<TokenView> {
    arrow_tokens(a) + node_tokens(a.body) + comma_tokens(a)
}

pub open spec fn guard_view(guard: Option<Vec<Token>>, if_span: usize) -> Seq<TokenView> {
    match guard {
        None => Seq::empty(),
        Some(g) => seq![TokenView::Ident("if"@, if_span)] + tokens_view(g@),
    }
}

/// Parses the pattern of a match arm and its guard, if any.
fn parse_arm_head(toks: &mut Vec<Token>, exp: Ghost<Option<(Arm, Seq<TokenView>)>>) -> (r: Result<(Vec<Token>, Option<Vec<Token>>, usize), SyntaxError>)
    requires
        exp@ matches Some((a, rest)) ==> wf_arm(a) && tokens_view(old(toks)@) == arm_tokens(a) + rest,
    ensures
        r matches Err(e) ==> located_in(e, tokens_view(old(toks)@)),
        r matches Ok((p, g, s)) ==> split(old(toks)@, tokens_view(p@) + guard_view(g, s), final(toks)@)
            && host_ok(tokens_view(p@), Stop::GuardOrArrow) && !v_punct(tokens_view(p@)[0], ',')
            && !v_ident(tokens_view(p@)[0], "else"@) && (g matches Some(gg) ==> host_ok(
            tokens_view(gg@),
            Stop::Arrow,
        )),
        exp@ matches Some((a, rest)) ==> r matches Ok((p, g, s)) && tokens_view(p@) + guard_view(g, s)
            == tokens_view(a.pat@) + guard_tokens(a) && tokens_view(final(toks)@) == arm_tail(a)
            + rest,
{
    let ghost orig = toks@;
    let ghost ep = match exp@ {
        Some((a, rest)) => Some((tokens_view(a.pat@), guard_tokens(a) + (arm_tail(a) + rest))),
        None => None,
    };
    proof {
        reveal_strlit("if");
        if let Some((a, rest)) = exp@ {
            assert(arm_tokens(a) + rest =~= tokens_view(a.pat@) + (guard_tokens(a) + (arm_tail(a) + rest)));
        }
    }
    let pat = match take_until(toks, Stop::GuardOrArrow, Ghost(ep)) {
        Ok(p) => p,
        Err(e) => return Err(e),
    };
    assert(tokens_view(orig) =~= tokens_view(pat@) + tokens_view(toks@));
    if peek_punct_at(&pat, 0, ',') || peek_ident(&pat, "else") {
        proof {
            if let Some((a, rest)) = exp@ {
                assert(false);
            }
        }
        return Err(error_at(&pat, SyntaxErrorKind::ExpectedExpression));
    }
    proof {
        lemma_first_view(toks@);
        if let Some((a, rest)) = exp@ {
            if a.guard is None {
                assert(tokens_view(toks@) =~= arm_tail(a) + rest);
            }
        }
    }
    if peek_ident(toks, "if") {
        let ghost ei = match exp@ {
            Some((a, rest)) => match a.guard {
                Some(g) => Some((TokenView::Ident("if"@, a.if_span), tokens_view(g@) + (arm_tail(a) + rest))),
                None => None,
            },
            None => None,
        };
        proof {
            if let Some((a, rest)) = exp@ {
                assert(a.guard is Some);
                if let Some((x, tail)) = ei {
                    assert(tokens_view(toks@) =~= seq![x] + tail);
                }
            }
        }
        let if_tok = take_front(toks, Ghost(ei));
        let if_span = if_tok.span();
        let ghost eg = match exp@ {
            Some((a, rest)) => match a.guard {
                Some(g) => Some((tokens_view(g@), arm_tail(a) + rest)),
                None => None,
            },
            None => None,
        };
        match take_until(toks, Stop::Arrow, Ghost(eg)) {
            Ok(g) => {
                let ghost gv = guard_view(Some(g), if_span);
                assert(tokens_view(orig) =~= tokens_view(pat@) + gv + tokens_view(toks@));
                Ok((pat, Some(g), if_span))
            },
            Err(e) => Err(e),
        }
    } else {
        proof {
            if let Some((a, rest)) = exp@ {
                assert(guard_tokens(a) =~= Seq::<TokenView>::empty());
            }
        }
        assert(tokens_view(orig) =~= tokens_view(pat@) + guard_view(None, 0) + tokens_view(toks@));
        Ok((pat, None, 0))
    }
}

/// Parses one match arm; the comma after it may be left out where the body
/// ends in braces or the arm is the last one.
#[verifier::rlimit(80)]
fn parse_arm(toks: &mut Vec<Token>, exp: Ghost<Option<(Arm, Seq<TokenView>)>>) -> (r: Result<Arm, SyntaxError>)
    requires
        old(toks)@.len() > 0,
        exp@ matches Some((a, rest)) ==> wf_arm(a) && tokens_view(old(toks)@) == arm_tokens(a) + rest
            && (rest.len() > 0 ==> arm_closed(a) && !v_punct(rest[0], ',') && !v_ident(
            rest[0],
            "else"@,
        )),
    ensures
        r matches Err(e) ==> located_in(e, tokens_view(old(toks)@)),
        r matches Ok(a) ==> split(old(toks)@, arm_tokens(a), final(toks)@) && final(toks)@.len()
            < old(toks)@.len() && wf_arm(a) && (final(toks)@.len() > 0 ==> arm_closed(a)),
        exp@ matches Some((a, rest)) ==> r matches Ok(a2) && arm_tokens(a2) == arm_tokens(a)
            && tokens_view(final(toks)@) == rest,
    decreases tree_size(old(toks)@), 3nat,
{
    let ghost orig = toks@;
    let (pat, guard, if_span) = match parse_arm_head(toks, exp) {
        Ok(h) => h,
        Err(e) => return Err(e),
    };
    let ghost mut c = tokens_view(pat@) + guard_view(guard, if_span);
    assert(tokens_view(orig) =~= c + tokens_view(toks@));
    proof {
        lemma_first_view(toks@);
    }
    if !(peek_punct_at(toks, 0, '=') && peek_punct_at(toks, 1, '>')) {
        return Err(error_at(toks, SyntaxErrorKind::ExpectedArrow));
    }
    let ghost eq_exp = match exp@ {
        Some((a, rest)) => Some(
            (
                TokenView::Punct('=', a.arrow_spans.0),
                seq![TokenView::Punct('>', a.arrow_spans.1)] + (node_tokens(a.body) + comma_tokens(a) + rest),
            ),
        ),
        None => None,
    };
    proof {
        if let Some((a, rest)) = exp@ {
            if let Some((x, tail)) = eq_exp {
                assert(arm_tail(a) + rest =~= seq![x] + tail);
            }
        }
    }
    let eq = take_front(toks, Ghost(eq_exp));
    let ghost gt_exp = match exp@ {
        Some((a, rest)) => Some(
            (TokenView::Punct('>', a.arrow_spans.1), node_tokens(a.body) + comma_tokens(a) + rest),
        ),
        None => None,
    };
    let gt = take_front(toks, Ghost(gt_exp));
    let arrow_spans = (eq.span(), gt.span());
    proof {
        c = c + seq![TokenView::Punct('=', arrow_spans.0), TokenView::Punct('>', arrow_spans.1)];
    }
    assert(tokens_view(orig) =~= c + tokens_view(toks@));
    let ghost eb = match exp@ {
        Some((a, rest)) => Some((a.body, comma_tokens(a) + rest)),
        None => None,
    };
    proof {
        lemma_first_view(toks@);
        reveal_strlit("else");
        if let Some((a, rest)) = exp@ {
            assert(tokens_view(toks@) =~= node_tokens(a.body) + (comma_tokens(a) + rest));
            lemma_node_first(a.body);
        }
    }
    if toks.len() == 0 {
        return Err(error_at(toks, SyntaxErrorKind::ExpectedExpression));
    }
    let body = match parse_node(toks, Ghost(eb)) {
        Ok(n) => n,
        Err(e) => return Err(e),
    };
    proof {
        c = c + node_tokens(body);
        lemma_first_view(toks@);
    }
    assert(tokens_view(orig) =~= c + tokens_view(toks@));
    let comma_span = if peek_punct_at(toks, 0, ',') {
        let ghost ec = match exp@ {
            Some((a, rest)) => match a.comma_span {
                Some(cs) => Some((TokenView::Punct(',', cs), rest)),
                None => None,
            },
            None => None,
        };
        proof {
            if let Some((a, rest)) = exp@ {
                assert(a.comma_span is Some);
            }
        }
        let comma = take_front(toks, Ghost(ec));
        Some(comma.span())
    } else if body.ends_with_eager_brace() || toks.len() == 0 {
        proof {
            if let Some((a, rest)) = exp@ {
                assert(a.comma_span is None);
                assert(tokens_view(toks@) =~= rest);
            }
        }
        None
    } else {
        proof {
            if let Some((a, rest)) = exp@ {
                assert(a.comma_span is None);
                assert(false);
            }
        }
        return Err(error_at(toks, SyntaxErrorKind::ExpectedComma));
    };
    let a = Arm { pat, guard, if_span, arrow_spans, body, comma_span };
    assert(arm_tokens(a) =~= tokens_view(pat@) + guard_view(a.guard, if_span) + arm_tail(a));
    assert(tokens_view(orig) =~= arm_tokens(a) + tokens_view(toks@));
    Ok(a)
}

/// Parses `match expr { arms }`.
#[verifier::loop_isolation(false)]
fn parse_match(toks: &mut Vec<Token>, exp: Ghost<Option<(Match, Seq<TokenView>)>>) -> (r: Result<Match, SyntaxError>)
    requires
        old(toks)@.len() > 0,
        v_ident(tokens_view(old(toks)@)[0], "match"@),
        exp@ matches Some((m, rest)) ==> wf_node(Node::Match(m)) && tokens_view(old(toks)@)
            == node_tokens(Node::Match(m)) + rest,
    ensures
        r matches Err(e) ==> located_in(e, tokens_view(old(toks)@)),
        r matches Ok(m) ==> split(old(toks)@, node_tokens(Node::Match(m)), final(toks)@)
            && final(toks)@.len() < old(toks)@.len() && wf_node(Node::Match(m)),
        exp@ matches Some((m, rest)) ==> r matches Ok(m2) && node_tokens(Node::Match(m2))
            == node_tokens(Node::Match(m)) && tokens_view(final(toks)@) == rest,
    decreases tree_size(old(toks)@), 3nat,
{
    let ghost orig = toks@;
    let ghost em = match exp@ {
        Some((m, rest)) => Some(
            (
                TokenView::Ident("match"@, m.match_span),
                tokens_view(m.expr@) + (seq![
                    TokenView::Group(Delimiter::Brace, arms_tokens(m.arms@), m.brace_span),
                ] + rest),
            ),
        ),
        None => None,
    };
    proof {
        if let Some((m, rest)) = exp@ {
            if let Some((x, tail)) = em {
                assert(node_tokens(Node::Match(m)) + rest =~= seq![x] + tail);
            }
        }
    }
    let match_tok = take_front(toks, Ghost(em));
    let match_span = match_tok.span();
    let ghost c0 = seq![TokenView::Ident("match"@, match_span)];
    assert(tokens_view(orig) =~= c0 + tokens_view(toks@));
    let ghost ee = match exp@ {
        Some((m, rest)) => Some(
            (
                tokens_view(m.expr@),
                seq![TokenView::Group(Delimiter::Brace, arms_tokens(m.arms@), m.brace_span)] + rest,
            ),
        ),
        None => None,
    };
    let expr = match take_until(toks, Stop::Brace, Ghost(ee)) {
        Ok(x) => x,
        Err(e) => return Err(e),
    };
    let ghost c1 = c0 + tokens_view(expr@);
    assert(tokens_view(orig) =~= c1 + tokens_view(toks@));
    proof {
        lemma_first_view(toks@);
    }
    if !peek_group(toks, Delimiter::Brace) {
        return Err(error_at(toks, SyntaxErrorKind::ExpectedBlock));
    }
    let ghost eg = match exp@ {
        Some((m, rest)) => Some(
            (TokenView::Group(Delimiter::Brace, arms_tokens(m.arms@), m.brace_span), rest),
        ),
        None => None,
    };
    let group = take_front(toks, Ghost(eg));
    let ghost after = toks@;
    let (inner, brace_span) = match group {
        Token::Group { tokens, span, .. } => (tokens, span),
        _ => return Err(error_at(toks, SyntaxErrorKind::ExpectedBlock)),
    };
    let ghost inner0 = inner@;
    assert(tokens_view(orig) =~= c1 + seq![
        TokenView::Group(Delimiter::Brace, tokens_view(inner0), brace_span),
    ] + tokens_view(toks@));
    let mut inner = inner;
    let mut arms: Vec<Arm> = Vec::new();
    assert(tokens_view(inner0) =~= arms_tokens(arms@) + tokens_view(inner@));
    proof {
        if let Some((m, rest)) = exp@ {
            let s = m.arms@;
            lemma_wf_arms_index(s);
            assert(s.subrange(0, 0) =~= Seq::<Arm>::empty());
            assert(s.subrange(0, s.len() as int) =~= s);
            assert(tokens_view(inner0) == arms_tokens(s));
        }
    }
    while inner.len() > 0
        invariant
            split(inner0, arms_tokens(arms@), inner@),
            wf_arms(arms@),
            arms@.len() > 0 && inner@.len() > 0 ==> arm_closed(arms@.last()),
            exp@ matches Some((m, rest)) ==> (forall|i: int|
                0 <= i < m.arms@.len() ==> #[trigger] wf_arm(m.arms@[i])) && (forall|i: int|
                0 <= i < m.arms@.len() - 1 ==> #[trigger] arm_closed(m.arms@[i])) && arms@.len()
                <= m.arms@.len() && arms_tokens(arms@) == arms_tokens(
                m.arms@.subrange(0, arms@.len() as int),
            ) && tokens_view(inner@) == arms_tokens(
                m.arms@.subrange(arms@.len() as int, m.arms@.len() as int),
            ),
        decreases inner@.len(),
    {
        let ghost k = arms@.len() as int;
        let ghost ea: Option<(Arm, Seq<TokenView>)> = match exp@ {
            Some((m, rest)) => Some(
                (m.arms@[k], arms_tokens(m.arms@.subrange(k + 1, m.arms@.len() as int))),
            ),
            None => None,
        };
        proof {
            lemma_first_view(inner@);
            if let Some((m, rest)) = exp@ {
                let s = m.arms@;
                if k == s.len() {
                    assert(s.subrange(k, k) =~= Seq::<Arm>::empty());
                    assert(false);
                }
                lemma_arms_tokens_split(s, k);
                if k + 1 < s.len() {
                    lemma_arms_tokens_split(s, k + 1);
                    let nx = s[k + 1];
                    assert(wf_arm(nx));
                    lemma_tokens_view_index(nx.pat@);
                    assert(arm_tokens(nx)[0] == tokens_view(nx.pat@)[0]);
                    assert(arm_closed(s[k]));
                } else {
                    assert(s.subrange(k + 1, s.len() as int) =~= Seq::<Arm>::empty());
                }
            }
        }
        let a = match parse_arm(&mut inner, Ghost(ea)) {
            Ok(a) => a,
            Err(e) => {
                proof {
                    if let Some(sp) = e.span {
                        assert(tokens_have_span(tokens_view(inner0), sp));
                        let g = seq![TokenView::Group(Delimiter::Brace, tokens_view(inner0), brace_span)]
                            + tokens_view(after);
                        lemma_span_group(g, tokens_view(inner0), sp);
                        assert(tokens_view(orig) =~= c1 + g);
                    }
                }
                return Err(e);
            },
        };
        let ghost before = arms@;
        arms.push(a);
        proof {
            assert(arms@.drop_last() =~= before);
            assert(tokens_view(inner0) =~= arms_tokens(arms@) + tokens_view(inner@));
            assert(wf_arms(arms@));
        }
    }
    proof {
        lemma_first_view(inner@);
        if let Some((m, rest)) = exp@ {
            let s = m.arms@;
            let k = arms@.len() as int;
            lemma_arms_nonempty(s.subrange(k, s.len() as int));
            assert(s.subrange(0, k) =~= s);
        }
    }
    assert(tokens_view(inner0) =~= arms_tokens(arms@));
    assert(toks@ == after);
    let m = Match { match_span, expr, arms, brace_span };
    assert(tokens_view(orig) =~= node_tokens(Node::Match(m)) + tokens_view(toks@));
    Ok(m)
}


/// Host tokens cut at the first stop are cut at one place only.
proof fn lemma_unique_host(s1: Seq<TokenView>, x1: Seq<TokenView>, s2: Seq<TokenView>, x2: Seq<TokenView>, stop: Stop)
    requires
        host_ok(s1, stop),
        host_ok(s2, stop),
        stops_at(x1, stop),
        stops_at(x2, stop),
        s1 + x1 == s2 + x2,
    ensures
        s1 == s2,
        x1 == x2,
{
    reveal_strlit("in");
    reveal_strlit("if");
    lemma_host_cut(s1, x1, s2, x2, stop);
    lemma_host_cut(s2, x2, s1, x1, stop);
    lemma_cancel(s1, x1, s2, x2);
}

proof fn lemma_host_cut(s1: Seq<TokenView>, x1: Seq<TokenView>, s2: Seq<TokenView>, x2: Seq<TokenView>, stop: Stop)
    requires
        host_ok(s2, stop),
        stops_at(x1, stop),
        stops_at(x2, stop),
        s1 + x1 == s2 + x2,
    ensures
        s1.len() >= s2.len(),
{
    reveal_strlit("in");
    reveal_strlit("if");
    if s1.len() < s2.len() {
        let i = s1.len() as int;
        let t = s2.subrange(i, s2.len() as int);
        assert(!stops_at(t, stop));
        assert(x1[0] == (s1 + x1)[i]);
        assert(t[0] == (s2 + x2)[i]);
        if t.len() >= 2 {
            assert(x1[1] == (s1 + x1)[i + 1]);
            assert(t[1] == (s2 + x2)[i + 1]);
        } else {
            assert(x1[1] == (s1 + x1)[i + 1]);
            assert(x2[0] == (s2 + x2)[i + 1]);
        }
    }
}

/// Two well-formed attributes at the front of one sequence, each followed by
/// something that is not `:`, are written as the same tokens.
proof fn lemma_unique_attr(a1: Attribute, y1: Seq<TokenView>, a2: Attribute, y2: Seq<TokenView>)
    requires
        wf_attr(a1),
        wf_attr(a2),
        attr_tokens(a1) + y1 == attr_tokens(a2) + y2,
        !(y1.len() > 0 && v_punct(y1[0], ':')),
        !(y2.len() > 0 && v_punct(y2[0], ':')),
    ensures
        attr_tokens(a1) == attr_tokens(a2),
{
    let t1 = attr_tokens(a1);
    let t2 = attr_tokens(a2);
    lemma_attr_first(a1);
    lemma_attr_first(a2);
    assert((t1 + y1)[0] == t1[0]);
    assert((t2 + y2)[0] == t2[0]);
    if t1.len() > 1 {
        assert((t1 + y1)[1] == t1[1]);
    }
    if t2.len() > 1 {
        assert((t2 + y2)[1] == t2[1]);
    }
    if t1.len() == 1 && t2.len() > 1 {
        assert((t1 + y1)[1] == y1[0]);
    }
    if t2.len() == 1 && t1.len() > 1 {
        assert((t2 + y2)[1] == y2[0]);
    }
    assert(t1.len() == t2.len());
    lemma_cancel(t1, y1, t2, y2);
}

/// Two sequences of well-formed attributes at the front of one sequence,
/// each followed by a token that starts no attribute and is not `:`, are
/// written as the same tokens.
proof fn lemma_unique_attrs(a1: Seq<Attribute>, x1: Seq<TokenView>, a2: Seq<Attribute>, x2: Seq<TokenView>)
    requires
        forall|i: int| 0 <= i < a1.len() ==> #[trigger] wf_attr(a1[i]),
        forall|i: int| 0 <= i < a2.len() ==> #[trigger] wf_attr(a2[i]),
        attrs_tokens(a1) + x1 == attrs_tokens(a2) + x2,
        x1.len() > 0 && !attr_start(x1[0]) && !v_punct(x1[0], ':'),
        x2.len() > 0 && !attr_start(x2[0]) && !v_punct(x2[0], ':'),
    ensures
        attrs_tokens(a1) == attrs_tokens(a2),
    decreases a1.len(),
{
    if a1.len() == 0 && a2.len() == 0 {
    } else if a1.len() == 0 {
        lemma_attrs_tokens_split(a2, 0);
        lemma_attr_first(a2[0]);
        assert(a2.subrange(0, a2.len() as int) =~= a2);
        assert((attrs_tokens(a2) + x2)[0] == attr_tokens(a2[0])[0]);
        assert(attrs_tokens(a1) =~= Seq::<TokenView>::empty());
        assert((attrs_tokens(a1) + x1)[0] == x1[0]);
    } else if a2.len() == 0 {
        lemma_attrs_tokens_split(a1, 0);
        lemma_attr_first(a1[0]);
        assert(a1.subrange(0, a1.len() as int) =~= a1);
        assert((attrs_tokens(a1) + x1)[0] == attr_tokens(a1[0])[0]);
        assert(attrs_tokens(a2) =~= Seq::<TokenView>::empty());
        assert((attrs_tokens(a2) + x2)[0] == x2[0]);
    } else {
        lemma_attrs_tokens_split(a1, 0);
        lemma_attrs_tokens_split(a2, 0);
        let r1 = a1.subrange(1, a1.len() as int);
        let r2 = a2.subrange(1, a2.len() as int);
        assert(a1.subrange(0, a1.len() as int) =~= a1);
        assert(a2.subrange(0, a2.len() as int) =~= a2);
        let y1 = attrs_tokens(r1) + x1;
        let y2 = attrs_tokens(r2) + x2;
        assert(attr_tokens(a1[0]) + y1 == attr_tokens(a2[0]) + y2) by {
            assert(attrs_tokens(a1) + x1 =~= attr_tokens(a1[0]) + y1);
            assert(attrs_tokens(a2) + x2 =~= attr_tokens(a2[0]) + y2);
        }
        assert(wf_attr(a1[0]) && wf_attr(a2[0]));
        if r1.len() > 0 {
            lemma_attrs_tokens_split(r1, 0);
            assert(r1.subrange(0, r1.len() as int) =~= r1);
            assert(r1[0] == a1[1]);
            assert(wf_attr(r1[0]));
            lemma_attr_first(r1[0]);
            assert(y1[0] == attr_tokens(r1[0])[0]);
        } else {
            assert(attrs_tokens(r1) =~= Seq::<TokenView>::empty());
            assert(y1 =~= x1);
        }
        if r2.len() > 0 {
            lemma_attrs_tokens_split(r2, 0);
            assert(r2.subrange(0, r2.len() as int) =~= r2);
            assert(r2[0] == a2[1]);
            assert(wf_attr(r2[0]));
            lemma_attr_first(r2[0]);
            assert(y2[0] == attr_tokens(r2[0])[0]);
        } else {
            assert(attrs_tokens(r2) =~= Seq::<TokenView>::empty());
            assert(y2 =~= x2);
        }
        lemma_unique_attr(a1[0], y1, a2[0], y2);
        lemma_cancel(attr_tokens(a1[0]), y1, attr_tokens(a2[0]), y2);
        assert forall|i: int| 0 <= i < r1.len() implies #[trigger] wf_attr(r1[i]) by {
            assert(r1[i] == a1[i + 1]);
        }
        assert forall|i: int| 0 <= i < r2.len() implies #[trigger] wf_attr(r2[i]) by {
            assert(r2[i] == a2[i + 1]);
        }
        lemma_unique_attrs(r1, x1, r2, x2);
    }
}

/// Whether two nodes are of the same kind.
pub open spec fn same_kind(a: Node, b: Node) -> bool {
    &&& (a is Element <==> b is Element)
    &&& (a is Block <==> b is Block)
    &&& (a is Expr <==> b is Expr)
    &&& (a is If <==> b is If)
    &&& (a is Match <==> b is Match)
    &&& (a is ForLoop <==> b is ForLoop)
}

proof fn lemma_same_front(x1: TokenView, y1: Seq<TokenView>, x2: TokenView, y2: Seq<TokenView>)
    requires
        seq![x1] + y1 == seq![x2] + y2,
    ensures
        x1 == x2,
        y1 == y2,
{
    lemma_cancel(seq![x1], y1, seq![x2], y2);
    assert(seq![x1][0] == seq![x2][0]);
}

proof fn lemma_unique_element(n1: Node, r1: Seq<TokenView>, n2: Node, r2: Seq<TokenView>)
    requires
        wf_node(n1),
        wf_node(n2),
        node_tokens(n1) + r1 == node_tokens(n2) + r2,
        no_else_next(r1),
        no_else_next(r2),
        n1 is Element,
        n2 is Element,
    ensures
        node_tokens(n1) == node_tokens(n2),
{
    let t1 = node_tokens(n1);
    let t2 = node_tokens(n2);
    lemma_node_first(n1);
    lemma_node_first(n2);
    assert((t1 + r1)[0] == t1[0]);
    assert((t2 + r2)[0] == t2[0]);
    let e1 = n1->Element_0;
    let e2 = n2->Element_0;
    let z1 = end_tokens(e1) + r1;
    let z2 = end_tokens(e2) + r2;
    assert(t1 + r1 =~= seq![t1[0]] + (attrs_tokens(e1.attr_list@) + z1));
    assert(t2 + r2 =~= seq![t2[0]] + (attrs_tokens(e2.attr_list@) + z2));
    lemma_same_front(t1[0], attrs_tokens(e1.attr_list@) + z1, t2[0], attrs_tokens(e2.attr_list@) + z2);
    assert(z1[0] == end_tokens(e1)[0]);
    assert(z2[0] == end_tokens(e2)[0]);
    lemma_unique_attrs(e1.attr_list@, z1, e2.attr_list@, z2);
    lemma_cancel(attrs_tokens(e1.attr_list@), z1, attrs_tokens(e2.attr_list@), z2);
    lemma_cancel(end_tokens(e1), r1, end_tokens(e2), r2);
    assert(t1 =~= t2);
}

proof fn lemma_unique_if(n1: Node, r1: Seq<TokenView>, n2: Node, r2: Seq<TokenView>)
    requires
        wf_node(n1),
        wf_node(n2),
        node_tokens(n1) + r1 == node_tokens(n2) + r2,
        no_else_next(r1),
        no_else_next(r2),
        n1 is If,
        n2 is If,
    ensures
        node_tokens(n1) == node_tokens(n2),
    decreases n1, 0nat,
{
    let t1 = node_tokens(n1);
    let t2 = node_tokens(n2);
    lemma_node_first(n1);
    lemma_node_first(n2);
    assert((t1 + r1)[0] == t1[0]);
    assert((t2 + r2)[0] == t2[0]);
    let i1 = n1->If_0;
    let i2 = n2->If_0;
    let z1 = seq![block_token(i1.then_branch)] + (else_tokens(i1) + r1);
    let z2 = seq![block_token(i2.then_branch)] + (else_tokens(i2) + r2);
    assert(t1 + r1 =~= seq![t1[0]] + (tokens_view(i1.cond@) + z1));
    assert(t2 + r2 =~= seq![t2[0]] + (tokens_view(i2.cond@) + z2));
    lemma_same_front(t1[0], tokens_view(i1.cond@) + z1, t2[0], tokens_view(i2.cond@) + z2);
    lemma_unique_host(tokens_view(i1.cond@), z1, tokens_view(i2.cond@), z2, Stop::Brace);
    lemma_same_front(block_token(i1.then_branch), else_tokens(i1) + r1, block_token(i2.then_branch), else_tokens(i2) + r2);
    reveal_strlit("else");
    if i1.else_branch is Some && i2.else_branch is Some {
        let b1 = *i1.else_branch->0;
        let b2 = *i2.else_branch->0;
        assert(else_tokens(i1) + r1 =~= seq![TokenView::Ident("else"@, i1.else_span)] + (node_tokens(b1) + r1));
        assert(else_tokens(i2) + r2 =~= seq![TokenView::Ident("else"@, i2.else_span)] + (node_tokens(b2) + r2));
        lemma_same_front(TokenView::Ident("else"@, i1.else_span), node_tokens(b1) + r1, TokenView::Ident("else"@, i2.else_span), node_tokens(b2) + r2);
        lemma_unique_node(b1, r1, b2, r2);
    } else if i1.else_branch is Some {
        assert(else_tokens(i2) + r2 =~= r2);
        assert((else_tokens(i1) + r1)[0] == else_tokens(i1)[0]);
    } else if i2.else_branch is Some {
        assert(else_tokens(i1) + r1 =~= r1);
        assert((else_tokens(i2) + r2)[0] == else_tokens(i2)[0]);
    } else {
        assert(else_tokens(i1) + r1 =~= r1);
        assert(else_tokens(i2) + r2 =~= r2);
    }
    assert(t1 =~= t2);
}

proof fn lemma_unique_match(n1: Node, r1: Seq<TokenView>, n2: Node, r2: Seq<TokenView>)
    requires
        wf_node(n1),
        wf_node(n2),
        node_tokens(n1) + r1 == node_tokens(n2) + r2,
        no_else_next(r1),
        no_else_next(r2),
        n1 is Match,
        n2 is Match,
    ensures
        node_tokens(n1) == node_tokens(n2),
{
    let t1 = node_tokens(n1);
    let t2 = node_tokens(n2);
    lemma_node_first(n1);
    lemma_node_first(n2);
    assert((t1 + r1)[0] == t1[0]);
    assert((t2 + r2)[0] == t2[0]);
    let m1 = n1->Match_0;
    let m2 = n2->Match_0;
    let g1 = TokenView::Group(Delimiter::Brace, arms_tokens(m1.arms@), m1.brace_span);
    let g2 = TokenView::Group(Delimiter::Brace, arms_tokens(m2.arms@), m2.brace_span);
    assert(t1 + r1 =~= seq![t1[0]] + (tokens_view(m1.expr@) + (seq![g1] + r1)));
    assert(t2 + r2 =~= seq![t2[0]] + (tokens_view(m2.expr@) + (seq![g2] + r2)));
    lemma_same_front(t1[0], tokens_view(m1.expr@) + (seq![g1] + r1), t2[0], tokens_view(m2.expr@) + (seq![g2] + r2));
    lemma_unique_host(tokens_view(m1.expr@), seq![g1] + r1, tokens_view(m2.expr@), seq![g2] + r2, Stop::Brace);
    lemma_same_front(g1, r1, g2, r2);
    assert(t1 =~= t2);
}

proof fn lemma_unique_for(n1: Node, r1: Seq<TokenView>, n2: Node, r2: Seq<TokenView>)
    requires
        wf_node(n1),
        wf_node(n2),
        node_tokens(n1) + r1 == node_tokens(n2) + r2,
        no_else_next(r1),
        no_else_next(r2),
        n1 is ForLoop,
        n2 is ForLoop,
    ensures
        node_tokens(n1) == node_tokens(n2),
{
    let t1 = node_tokens(n1);
    let t2 = node_tokens(n2);
    lemma_node_first(n1);
    lemma_node_first(n2);
    assert((t1 + r1)[0] == t1[0]);
    assert((t2 + r2)[0] == t2[0]);
    let f1 = n1->ForLoop_0;
    let f2 = n2->ForLoop_0;
    let w1 = seq![block_token(f1.body)] + r1;
    let w2 = seq![block_token(f2.body)] + r2;
    let v1 = seq![TokenView::Ident("in"@, f1.in_span)] + (tokens_view(f1.expr@) + w1);
    let v2 = seq![TokenView::Ident("in"@, f2.in_span)] + (tokens_view(f2.expr@) + w2);
    assert(t1 + r1 =~= seq![t1[0]] + (tokens_view(f1.pat@) + v1));
    assert(t2 + r2 =~= seq![t2[0]] + (tokens_view(f2.pat@) + v2));
    lemma_same_front(t1[0], tokens_view(f1.pat@) + v1, t2[0], tokens_view(f2.pat@) + v2);
    reveal_strlit("in");
    lemma_unique_host(tokens_view(f1.pat@), v1, tokens_view(f2.pat@), v2, Stop::In);
    lemma_same_front(TokenView::Ident("in"@, f1.in_span), tokens_view(f1.expr@) + w1, TokenView::Ident("in"@, f2.in_span), tokens_view(f2.expr@) + w2);
    lemma_unique_host(tokens_view(f1.expr@), w1, tokens_view(f2.expr@), w2, Stop::Brace);
    lemma_same_front(block_token(f1.body), r1, block_token(f2.body), r2);
    assert(t1 =~= t2);
}

/// Two well-formed nodes at the front of one sequence, each followed by
/// something that does not start with `else`, are written as the same
/// tokens and are of the same kind.
proof fn lemma_unique_node(n1: Node, r1: Seq<TokenView>, n2: Node, r2: Seq<TokenView>)
    requires
        wf_node(n1),
        wf_node(n2),
        node_tokens(n1) + r1 == node_tokens(n2) + r2,
        no_else_next(r1),
        no_else_next(r2),
    ensures
        node_tokens(n1) == node_tokens(n2),
        same_kind(n1, n2),
    decreases n1, 1nat,
{
    lemma_node_first(n1);
    lemma_node_first(n2);
    let t1 = node_tokens(n1);
    let t2 = node_tokens(n2);
    assert((t1 + r1)[0] == t1[0]);
    assert((t2 + r2)[0] == t2[0]);
    assert(t1[0] == t2[0]);
    assert(same_kind(n1, n2));
    if n1 is Element {
        lemma_unique_element(n1, r1, n2, r2);
    } else if n1 is Block || n1 is Expr {
        assert(t1.len() == 1 && t2.len() == 1);
        lemma_cancel(t1, r1, t2, r2);
    } else if n1 is If {
        lemma_unique_if(n1, r1, n2, r2);
    } else if n1 is Match {
        lemma_unique_match(n1, r1, n2, r2);
    } else {
        lemma_unique_for(n1, r1, n2, r2);
    }
}

proof fn lemma_wf_nodes_from_index(s: Seq<Node>)
    requires
        forall|i: int| 0 <= i < s.len() ==> #[trigger] wf_node(s[i]),
    ensures
        wf_nodes(s),
    decreases s.len(),
{
    if s.len() > 0 {
        assert forall|i: int| 0 <= i < s.drop_last().len() implies #[trigger] wf_node(s.drop_last()[i]) by {
            assert(s.drop_last()[i] == s[i]);
        }
        lemma_wf_nodes_from_index(s.drop_last());
        assert(wf_node(s[s.len() - 1]));
    }
}

proof fn lemma_unique_nodes(s1: Seq<Node>, s2: Seq<Node>)
    requires
        wf_nodes(s1),
        wf_nodes(s2),
        nodes_tokens(s1) == nodes_tokens(s2),
    ensures
        s1.len() == s2.len(),
        forall|i: int| 0 <= i < s1.len() ==> node_tokens(#[trigger] s1[i]) == node_tokens(s2[i])
            && same_kind(s1[i], s2[i]),
    decreases s1.len(),
{
    lemma_nodes_nonempty(s1);
    lemma_nodes_nonempty(s2);
    if s1.len() > 0 && s2.len() > 0 {
        lemma_wf_nodes_index(s1);
        lemma_wf_nodes_index(s2);
        lemma_nodes_tokens_split(s1, 0);
        lemma_nodes_tokens_split(s2, 0);
        assert(s1.subrange(0, s1.len() as int) =~= s1);
        assert(s2.subrange(0, s2.len() as int) =~= s2);
        let q1 = s1.subrange(1, s1.len() as int);
        let q2 = s2.subrange(1, s2.len() as int);
        if q1.len() > 0 {
            lemma_nodes_tokens_split(q1, 0);
            assert(q1.subrange(0, q1.len() as int) =~= q1);
            assert(q1[0] == s1[1]);
            lemma_node_first(q1[0]);
            assert(nodes_tokens(q1)[0] == node_tokens(q1[0])[0]);
        }
        if q2.len() > 0 {
            lemma_nodes_tokens_split(q2, 0);
            assert(q2.subrange(0, q2.len() as int) =~= q2);
            assert(q2[0] == s2[1]);
            lemma_node_first(q2[0]);
            assert(nodes_tokens(q2)[0] == node_tokens(q2[0])[0]);
        }
        lemma_unique_node(s1[0], nodes_tokens(q1), s2[0], nodes_tokens(q2));
        lemma_cancel(node_tokens(s1[0]), nodes_tokens(q1), node_tokens(s2[0]), nodes_tokens(q2));
        assert forall|i: int| 0 <= i < q1.len() implies #[trigger] wf_node(q1[i]) by {
            assert(q1[i] == s1[i + 1]);
        }
        assert forall|i: int| 0 <= i < q2.len() implies #[trigger] wf_node(q2[i]) by {
            assert(q2[i] == s2[i + 1]);
        }
        lemma_wf_nodes_from_index(q1);
        lemma_wf_nodes_from_index(q2);
        lemma_unique_nodes(q1, q2);
        assert forall|i: int| 0 <= i < s1.len() implies node_tokens(#[trigger] s1[i]) == node_tokens(s2[i])
            && same_kind(s1[i], s2[i]) by {
            if i > 0 {
                assert(s1[i] == q1[i - 1]);
                assert(s2[i] == q2[i - 1]);
            }
        }
    }
}

/// Tokens have one well-formed reading: two well-formed templates written as
/// the same tokens have as many nodes, and each node of one is written as the
/// same tokens as the node of the other at its place, and is of the same kind.
pub proof fn lemma_one_reading(t1: Template, t2: Template)
    requires
        wf_template(t1),
        wf_template(t2),
        nodes_tokens(t1.nodes@) == nodes_tokens(t2.nodes@),
    ensures
        t1.nodes@.len() == t2.nodes@.len(),
        forall|i: int|
            0 <= i < t1.nodes@.len() ==> node_tokens(#[trigger] t1.nodes@[i]) == node_tokens(
                t2.nodes@[i],
            ) && same_kind(t1.nodes@[i], t2.nodes@[i]),
{
    lemma_unique_nodes(t1.nodes@, t2.nodes@);
}

impl Template {
    /// Parses a whole token stream as a template. The template, written
    /// back as tokens, is exactly the input; and the tokens of any
    /// well-formed template are parsed successfully.
    pub fn parse(tokens: Vec<Token>) -> (r: Result<Template, SyntaxError>)
        ensures
            r matches Err(e) ==> located_in(e, tokens_view(tokens@)),
            r matches Ok(t) ==> nodes_tokens(t.nodes@) == tokens_view(tokens@) && wf_template(t),
            r is Ok <==> exists|t: Template| wf_template(t) && nodes_tokens(t.nodes@) == tokens_view(
                tokens@,
            ),
    {
        let ghost e = if exists|t: Template| wf_template(t) && nodes_tokens(t.nodes@) == tokens_view(
            tokens@,
        ) {
            Some(
                (choose|t: Template| wf_template(t) && nodes_tokens(t.nodes@) == tokens_view(
                    tokens@,
                )).nodes@,
            )
        } else {
            None
        };
        let ghost input = tokens_view(tokens@);
        match parse_nodes(tokens, Ghost(e)) {
            Ok(nodes) => {
                let t = Template { nodes };
                assert(wf_template(t) && nodes_tokens(t.nodes@) == input);
                Ok(t)
            },
            Err(e) => Err(e),
        }
    }
}

} // verus!
