//! The token stream that a template is written in: identifiers, punctuation,
//! literals and delimited groups, each carrying the index of its source span.
use vstd::prelude::*;

verus! {

/// The delimiter of a token group.
#[derive(Clone, Copy, Debug, PartialEq, Eq, Structural)]
pub enum Delimiter {
    Parenthesis,
    Brace,
    Bracket,
    Invisible,
}

/// One token tree. `span` indexes the source location that the caller keeps.
#[derive(Debug)]
pub enum Token {
    /// An identifier or a keyword, raw identifiers with their `r#` prefix.
    Ident { name: String, span: usize },
    /// A single punctuation character.
    Punct { ch: char, span: usize },
    /// A literal as written; `value` holds the text of a string literal.
    Literal { text: String, value: Option<String>, span: usize },
    /// A delimited group and the tokens inside it.
    Group { delimiter: Delimiter, tokens: Vec<Token>, span: usize },
}

/// The mathematical value of a token tree.
pub enum TokenView {
    Ident(Seq<char>, usize),
    Punct(char, usize),
    Literal(Seq<char>, Option<Seq<char>>, usize),
    Group(Delimiter, Seq<TokenView>, usize),
}

pub open spec fn opt_view(s: Option<String>) -> Option<Seq<char>> {
    match s {
        Some(v) => Some(v@),
        None => None,
    }
}

pub open spec fn token_view(t: Token) -> TokenView
    decreases t,
{
    match t {
        Token::Ident { name, span } => TokenView::Ident(name@, span),
        Token::Punct { ch, span } => TokenView::Punct(ch, span),
        Token::Literal { text, value, span } => TokenView::Literal(text@, opt_view(value), span),
        Token::Group { delimiter, tokens, span } => TokenView::Group(
            delimiter,
            tokens_view(tokens@),
            span,
        ),
    }
}

pub open spec fn tokens_view(s: Seq<Token>) -> Seq<TokenView>
    decreases s,
{
    if s.len() == 0 {
        Seq::empty()
    } else {
        tokens_view(s.drop_last()).push(token_view(s.last()))
    }
}

pub proof fn lemma_tokens_view_index(s: Seq<Token>)
    ensures
        tokens_view(s).len() == s.len(),
        forall|i: int| 0 <= i < s.len() ==> #[trigger] tokens_view(s)[i] == token_view(s[i]),
    decreases s.len(),
{
    if s.len() > 0 {
        lemma_tokens_view_index(s.drop_last());
    }
}

pub proof fn lemma_tokens_view_push(s: Seq<Token>, t: Token)
    ensures
        tokens_view(s.push(t)) == tokens_view(s).push(token_view(t)),
{
    assert(s.push(t).drop_last() =~= s);
}

pub proof fn lemma_tokens_view_concat(a: Seq<Token>, b: Seq<Token>)
    ensures
        tokens_view(a + b) == tokens_view(a) + tokens_view(b),
    decreases b.len(),
{
    if b.len() == 0 {
        assert(a + b =~= a);
        assert(tokens_view(a) + tokens_view(b) =~= tokens_view(a));
    } else {
        assert((a + b).drop_last() =~= a + b.drop_last());
        lemma_tokens_view_concat(a, b.drop_last());
        assert(tokens_view(a) + tokens_view(b) =~= (tokens_view(a) + tokens_view(b.drop_last())).push(
            token_view(b.last()),
        ));
    }
}

pub proof fn lemma_tokens_view_single(t: Token)
    ensures
        tokens_view(seq![t]) == seq![token_view(t)],
{
    let s = seq![t];
    assert(s.drop_last() =~= Seq::<Token>::empty());
    assert(s.last() == t);
    assert(tokens_view(s.drop_last()) == Seq::<TokenView>::empty());
    assert(tokens_view(s) == tokens_view(s.drop_last()).push(token_view(s.last())));
    assert(Seq::<TokenView>::empty().push(token_view(t)) =~= seq![token_view(t)]);
}

/// The number of token trees in a sequence, counting those inside groups.
pub open spec fn tree_size(s: Seq<Token>) -> nat
    decreases s,
{
    if s.len() == 0 {
        0
    } else {
        tree_size(s.drop_last()) + token_size(s.last())
    }
}

pub open spec fn token_size(t: Token) -> nat
    decreases t,
{
    match t {
        Token::Group { tokens, .. } => 1 + tree_size(tokens@),
        _ => 1,
    }
}

pub proof fn lemma_tree_size_concat(a: Seq<Token>, b: Seq<Token>)
    ensures
        tree_size(a + b) == tree_size(a) + tree_size(b),
    decreases b.len(),
{
    if b.len() == 0 {
        assert(a + b =~= a);
    } else {
        assert((a + b).drop_last() =~= a + b.drop_last());
        lemma_tree_size_concat(a, b.drop_last());
    }
}

pub proof fn lemma_tree_size_single(t: Token)
    ensures
        tree_size(seq![t]) == token_size(t),
{
    let s = seq![t];
    assert(s.drop_last() =~= Seq::<Token>::empty());
    assert(s.last() == t);
    assert(tree_size(s.drop_last()) == 0);
    assert(tree_size(s) == tree_size(s.drop_last()) + token_size(s.last()));
}

/// The span of a token.
pub open spec fn view_span(t: TokenView) -> usize {
    match t {
        TokenView::Ident(_, s) => s,
        TokenView::Punct(_, s) => s,
        TokenView::Literal(_, _, s) => s,
        TokenView::Group(_, _, s) => s,
    }
}

/// Whether the token, or one inside it, has span `sp`.
pub open spec fn token_has_span(t: TokenView, sp: usize) -> bool
    decreases t,
{
    match t {
        TokenView::Group(_, inner, s) => s == sp || tokens_have_span(inner, sp),
        _ => view_span(t) == sp,
    }
}

/// Whether a token of the sequence, or one inside it, has span `sp`.
pub open spec fn tokens_have_span(s: Seq<TokenView>, sp: usize) -> bool
    decreases s,
{
    s.len() > 0 && (tokens_have_span(s.drop_last(), sp) || token_has_span(s.last(), sp))
}

pub broadcast proof fn lemma_span_concat(a: Seq<TokenView>, b: Seq<TokenView>, sp: usize)
    ensures
        #[trigger] tokens_have_span(a + b, sp) == (tokens_have_span(a, sp) || tokens_have_span(b, sp)),
    decreases b.len(),
{
    if b.len() == 0 {
        assert(a + b =~= a);
    } else {
        assert((a + b).drop_last() =~= a + b.drop_last());
        lemma_span_concat(a, b.drop_last(), sp);
    }
}

pub broadcast proof fn lemma_span_first(s: Seq<TokenView>)
    requires
        s.len() > 0,
    ensures
        #[trigger] tokens_have_span(s, view_span(s[0])),
{
    let one = seq![s[0]];
    assert(s =~= one + s.subrange(1, s.len() as int));
    lemma_span_concat(one, s.subrange(1, s.len() as int), view_span(s[0]));
    assert(one.drop_last() =~= Seq::<TokenView>::empty());
    assert(one.last() == s[0]);
    assert(token_has_span(s[0], view_span(s[0])));
    assert(tokens_have_span(one, view_span(s[0])));
}

pub proof fn lemma_span_group(s: Seq<TokenView>, inner: Seq<TokenView>, sp: usize)
    requires
        s.len() > 0,
        s[0] matches TokenView::Group(_, i, _) && i == inner,
        tokens_have_span(inner, sp),
    ensures
        tokens_have_span(s, sp),
{
    let one = seq![s[0]];
    assert(s =~= one + s.subrange(1, s.len() as int));
    lemma_span_concat(one, s.subrange(1, s.len() as int), sp);
    assert(one.drop_last() =~= Seq::<TokenView>::empty());
    assert(token_has_span(s[0], sp));
}

impl Token {
    /// The index of the token's source span.
    pub fn span(&self) -> (r: usize)
        ensures
            r == match *self {
                Token::Ident { span, .. } => span,
                Token::Punct { span, .. } => span,
                Token::Literal { span, .. } => span,
                Token::Group { span, .. } => span,
            },
    {
        match self {
            Token::Ident { span, .. } => *span,
            Token::Punct { span, .. } => *span,
            Token::Literal { span, .. } => *span,
            Token::Group { span, .. } => *span,
        }
    }
}

} // verus!
