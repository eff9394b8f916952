//! Generation of rendering statements from a template: static text is
//! coalesced into as few writes as possible, expressions are rendered
//! through the escaping contract, control flow is carried over.
use vstd::prelude::*;
use crate::ast::{Arm, Attribute, Block, Element, Expr, ForLoop, If, Match, Node, Template};
use crate::error::{Error, ProblemView};
use crate::escape::{escape_html, escape_seq};
use crate::token::{Token, TokenView, tokens_view};
use crate::validate::{attr_key, element_problems};

verus! {

/// A generated statement, run in order against an output sink.
#[derive(Debug)]
pub enum Stmt {
    /// Write this text as it is.
    Write(String),
    /// Render the value of this host expression, escaped.
    Render(Vec<Token>),
    /// Report these problems at compile time.
    Error(Error),
    If { cond: Vec<Token>, then_branch: Vec<Stmt>, else_branch: Option<Vec<Stmt>> },
    Match { expr: Vec<Token>, arms: Vec<StmtArm> },
    For { pat: Vec<Token>, expr: Vec<Token>, body: Vec<Stmt> },
}

/// One arm of a generated `match`.
#[derive(Debug)]
pub struct StmtArm {
    pub pat: Vec<Token>,
    pub guard: Option<Vec<Token>>,
    pub body: Vec<Stmt>,
}

/// The mathematical value of generated code.
pub enum Code {
    Text(Seq<char>),
    Render(Seq<TokenView>),
    Error(Seq<ProblemView>),
    If(Seq<TokenView>, Seq<Code>, Option<Seq<Code>>),
    Match(Seq<TokenView>, Seq<ArmCode>),
    For(Seq<TokenView>, Seq<TokenView>, Seq<Code>),
}

pub struct ArmCode {
    pub pat: Seq<TokenView>,
    pub guard: Option<Seq<TokenView>>,
    pub body: Seq<Code>,
}

pub open spec fn opt_tokens_view(s: Option<Vec<Token>>) -> Option<Seq<TokenView>> {
    match s {
        Some(v) => Some(tokens_view(v@)),
        None => None,
    }
}

pub open spec fn stmt_code(s: Stmt) -> Code
    decreases s,
{
    match s {
        Stmt::Write(t) => Code::Text(t@),
        Stmt::Render(e) => Code::Render(tokens_view(e@)),
        Stmt::Error(e) => Code::Error(e@),
        Stmt::If { cond, then_branch, else_branch } => Code::If(
            tokens_view(cond@),
            stmts_code(then_branch@),
            match else_branch {
                Some(b) => Some(stmts_code(b@)),
                None => None,
            },
        ),
        Stmt::Match { expr, arms } => Code::Match(tokens_view(expr@), stmt_arms_code(arms@)),
        Stmt::For { pat, expr, body } => Code::For(
            tokens_view(pat@),
            tokens_view(expr@),
            stmts_code(body@),
        ),
    }
}

pub open spec fn stmts_code(s: Seq<Stmt>) -> Seq<Code>
    decreases s,
{
    if s.len() == 0 {
        Seq::empty()
    } else {
        stmts_code(s.drop_last()).push(stmt_code(s.last()))
    }
}

pub open spec fn stmt_arms_code(s: Seq<StmtArm>) -> Seq<ArmCode>
    decreases s,
{
    if s.len() == 0 {
        Seq::empty()
    } else {
        stmt_arms_code(s.drop_last()).push(
            ArmCode {
                pat: tokens_view(s.last().pat@),
                guard: opt_tokens_view(s.last().guard),
                body: stmts_code(s.last().body@),
            },
        )
    }
}

/// Adds one piece of code, merging text into text that precedes it.
pub open spec fn push_piece(acc: Seq<Code>, c: Code) -> Seq<Code> {
    match c {
        Code::Text(t) => if acc.len() > 0 && acc.last() is Text {
            acc.drop_last().push(Code::Text(acc.last()->Text_0 + t))
        } else {
            acc.push(c)
        },
        _ => acc.push(c),
    }
}

/// Adds pieces in order, each by `push_piece`.
pub open spec fn push_all(acc: Seq<Code>, s: Seq<Code>) -> Seq<Code>
    decreases s.len(),
{
    if s.len() == 0 {
        acc
    } else {
        push_piece(push_all(acc, s.drop_last()), s.last())
    }
}

/// Pieces with adjacent text merged.
pub open spec fn coalesce(s: Seq<Code>) -> Seq<Code> {
    push_all(Seq::empty(), s)
}

pub proof fn lemma_push_all_concat(acc: Seq<Code>, a: Seq<Code>, b: Seq<Code>)
    ensures
        push_all(acc, a + b) == push_all(push_all(acc, a), b),
    decreases b.len(),
{
    if b.len() == 0 {
        assert(a + b =~= a);
    } else {
        assert((a + b).drop_last() =~= a + b.drop_last());
        lemma_push_all_concat(acc, a, b.drop_last());
    }
}

/// The code of a rendered expression: known text is escaped now, anything
/// else is rendered when the code runs.
pub open spec fn expr_code(e: Expr) -> Code {
    match e.spec_static_text() {
        Some(t) => Code::Text(escape_seq(t)),
        None => Code::Render(tokens_view(e->Paren_tokens@)),
    }
}

pub open spec fn attr_pieces(a: Attribute) -> Seq<Code> {
    seq![Code::Text(" "@), Code::Text(attr_key(a).1)] + match a {
        Attribute::Id { value, .. } => seq![Code::Text("=\""@), expr_code(value), Code::Text("\""@)],
        Attribute::Class { value, .. } => seq![Code::Text("=\""@), expr_code(value), Code::Text("\""@)],
        Attribute::KeyValue { value, .. } => match value {
            Some(v) => seq![Code::Text("=\""@), expr_code(v), Code::Text("\""@)],
            None => Seq::empty(),
        },
    }
}

pub open spec fn attrs_pieces(s: Seq<Attribute>) -> Seq<Code>
    decreases s.len(),
{
    if s.len() == 0 {
        Seq::empty()
    } else {
        attrs_pieces(s.drop_last()) + attr_pieces(s.last())
    }
}

pub open spec fn error_pieces(e: Element) -> Seq<Code> {
    if element_problems(e).len() > 0 {
        seq![Code::Error(element_problems(e))]
    } else {
        Seq::empty()
    }
}

/// The pieces that a node generates, before text is merged.
pub open spec fn node_pieces(n: Node) -> Seq<Code>
    decreases n,
{
    match n {
        Node::Element(e) => error_pieces(e) + seq![Code::Text("<"@), Code::Text(e.name@)]
            + attrs_pieces(e.attr_list@) + seq![Code::Text(">"@)] + match e.body {
            Some(b) => nodes_pieces(b.nodes@) + seq![
                Code::Text("</"@),
                Code::Text(e.name@),
                Code::Text(">"@),
            ],
            None => Seq::empty(),
        },
        Node::Block(b) => nodes_pieces(b.nodes@),
        Node::Expr(e) => seq![expr_code(e)],
        Node::If(i) => seq![
            Code::If(
                tokens_view(i.cond@),
                coalesce(nodes_pieces(i.then_branch.nodes@)),
                match i.else_branch {
                    Some(b) => Some(coalesce(node_pieces(*b))),
                    None => None,
                },
            ),
        ],
        Node::Match(m) => seq![Code::Match(tokens_view(m.expr@), arms_code(m.arms@))],
        Node::ForLoop(f) => seq![
            Code::For(
                tokens_view(f.pat@),
                tokens_view(f.expr@),
                coalesce(nodes_pieces(f.body.nodes@)),
            ),
        ],
    }
}

pub open spec fn nodes_pieces(s: Seq<Node>) -> Seq<Code>
    decreases s,
{
    if s.len() == 0 {
        Seq::empty()
    } else {
        nodes_pieces(s.drop_last()) + node_pieces(s.last())
    }
}

pub open spec fn arms_code(s: Seq<Arm>) -> Seq<ArmCode>
    decreases s,
{
    if s.len() == 0 {
        Seq::empty()
    } else {
        arms_code(s.drop_last()).push(
            ArmCode {
                pat: tokens_view(s.last().pat@),
                guard: opt_tokens_view(s.last().guard),
                body: coalesce(node_pieces(s.last().body)),
            },
        )
    }
}

/// A part of the output being built: static text, or a statement.
#[derive(Debug)]
pub enum Part {
    Static(String),
    Dynamic(Stmt),
}

pub open spec fn part_code(p: Part) -> Code {
    match p {
        Part::Static(s) => Code::Text(s@),
        Part::Dynamic(s) => stmt_code(s),
    }
}

/// The buffer of parts that generation fills.
#[derive(Debug)]
pub struct Generator {
    parts: Vec<Part>,
}

impl Generator {
    pub closed spec fn view(&self) -> Seq<Code> {
        self.parts@.map_values(|p: Part| part_code(p))
    }

    pub fn new() -> (r: Generator)
        ensures
            r.wf(),
            r.view() == Seq::<Code>::empty(),
    {
        let r = Generator { parts: Vec::new() };
        assert(r.view() =~= Seq::<Code>::empty());
        assert(r.wf());
        r
    }

    /// No statement part is a plain write: static text is always held in
    /// static parts.
    pub closed spec fn wf(&self) -> bool {
        forall|i: int| 0 <= i < self.parts@.len() ==> !(#[trigger] self.parts@[i] matches Part::Dynamic(Stmt::Write(_)))
    }

    /// Adds static text, extending the last part where it is static too.
    pub fn push_str(&mut self, s: &str)
        requires
            old(self).wf(),
        ensures
            final(self).wf(),
            final(self).view() == push_piece(old(self).view(), Code::Text(s@)),
    {
        if self.parts.len() > 0 {
            let last = self.parts.pop().unwrap();
            match last {
                Part::Static(mut lit) => {
                    lit.append(s);
                    self.parts.push(Part::Static(lit));
                },
                Part::Dynamic(st) => {
                    self.parts.push(Part::Dynamic(st));
                    self.parts.push(Part::Static(String::from_str(s)));
                },
            }
        } else {
            self.parts.push(Part::Static(String::from_str(s)));
        }
        assert(self.view() =~= push_piece(old(self).view(), Code::Text(s@)));
    }

    pub fn push_stmt(&mut self, st: Stmt)
        requires
            old(self).wf(),
            !(st is Write),
        ensures
            final(self).wf(),
            final(self).view() == old(self).view().push(stmt_code(st)),
    {
        self.parts.push(Part::Dynamic(st));
        assert(self.view() =~= old(self).view().push(stmt_code(st)));
    }

    pub fn push_error(&mut self, err: Error)
        requires
            old(self).wf(),
        ensures
            final(self).wf(),
            final(self).view() == old(self).view().push(Code::Error(err@)),
    {
        self.push_stmt(Stmt::Error(err));
    }

    /// Adds an expression to render: a string literal is escaped now and
    /// joins the static text, anything else becomes a render statement.
    pub fn push_rendered_expr(&mut self, e: Expr)
        requires
            old(self).wf(),
        ensures
            final(self).wf(),
            final(self).view() == push_piece(old(self).view(), expr_code(e)),
    {
        match e {
            Expr::Str { value, .. } => {
                let t = escape_html(value.as_str());
                self.push_str(t.as_str());
            },
            Expr::Paren { tokens, span } => {
                let mut known: Option<String> = None;
                if tokens.len() == 1 {
                    match &tokens[0] {
                        Token::Literal { value: Some(v), .. } => {
                            known = Some(escape_html(v.as_str()));
                        },
                        _ => {},
                    }
                }
                match known {
                    Some(t) => self.push_str(t.as_str()),
                    None => {
                        proof {
                            crate::token::lemma_tokens_view_index(tokens@);
                        }
                        self.push_stmt(Stmt::Render(tokens));
                    },
                }
            },
        }
    }

    /// The statements: each static part becomes one write.
    pub fn finish(self) -> (r: Vec<Stmt>)
        ensures
            stmts_code(r@) == self.view(),
    {
        let ghost all = self.view();
        let mut parts = self.parts;
        let mut r: Vec<Stmt> = Vec::new();
        let ghost k: int = 0;
        while parts.len() > 0
            invariant
                0 <= k <= all.len(),
                all.len() == k + parts@.len(),
                stmts_code(r@) == all.subrange(0, k),
                forall|i: int| 0 <= i < parts@.len() ==> part_code(#[trigger] parts@[i]) == all[k + i],
            decreases parts.len(),
        {
            let ghost prev = parts@;
            let p = parts.remove(0);
            let ghost before = r@;
            match p {
                Part::Static(s) => r.push(Stmt::Write(s)),
                Part::Dynamic(st) => r.push(st),
            }
            proof {
                assert(r@.drop_last() =~= before);
                assert(part_code(p) == all[k]);
                assert(stmt_code(r@.last()) == all[k]);
                assert(stmts_code(r@) == stmts_code(before).push(all[k]));
                assert(all.subrange(0, k + 1) =~= all.subrange(0, k).push(all[k]));
                assert(forall|i: int| 0 <= i < parts@.len() ==> #[trigger] parts@[i] == prev[i + 1]);
                k = k + 1;
            }
        }
        assert(all.subrange(0, k) =~= all);
        r
    }
}

pub proof fn lemma_push_all_push(acc: Seq<Code>, s: Seq<Code>, c: Code)
    ensures
        push_all(acc, s.push(c)) == push_piece(push_all(acc, s), c),
{
    assert(s.push(c).drop_last() =~= s);
}

proof fn lemma_nodes_pieces_step(s: Seq<Node>, k: int)
    requires
        0 <= k < s.len(),
    ensures
        nodes_pieces(s.subrange(0, k + 1)) == nodes_pieces(s.subrange(0, k)) + node_pieces(s[k]),
{
    assert(s.subrange(0, k + 1).drop_last() =~= s.subrange(0, k));
}

proof fn lemma_attrs_pieces_step(s: Seq<Attribute>, k: int)
    requires
        0 <= k < s.len(),
    ensures
        attrs_pieces(s.subrange(0, k + 1)) == attrs_pieces(s.subrange(0, k)) + attr_pieces(s[k]),
{
    assert(s.subrange(0, k + 1).drop_last() =~= s.subrange(0, k));
}

/// Generates the nodes in order into `g`.
#[verifier::loop_isolation(false)]
fn generate_nodes(nodes: Vec<Node>, g: &mut Generator)
    requires
        old(g).wf(),
    ensures
        final(g).wf(),
        final(g).view() == push_all(old(g).view(), nodes_pieces(nodes@)),
    decreases nodes,
{
    let ghost orig = nodes@;
    let ghost nv = nodes;
    let ghost v0 = g.view();
    let mut nodes = nodes;
    let ghost mut k: int = 0;
    assert(orig.subrange(0, 0) =~= Seq::<Node>::empty());
    while nodes.len() > 0
        invariant
            g.wf(),
            0 <= k <= orig.len(),
            orig == nv@,
            nodes@ == orig.subrange(k, orig.len() as int),
            g.view() == push_all(v0, nodes_pieces(orig.subrange(0, k))),
        decreases nodes.len(),
    {
        let n = nodes.remove(0);
        proof {
            assert(n == orig[k]);
            vstd::std_specs::vec::axiom_vec_index_decreases(nv, k);
            assert(decreases_to!(nv => n));
        }
        let ghost before = g.view();
        n.generate(g);
        proof {
            lemma_push_all_concat(v0, nodes_pieces(orig.subrange(0, k)), node_pieces(orig[k]));
            lemma_nodes_pieces_step(orig, k);
            k = k + 1;
            assert(nodes@ =~= orig.subrange(k, orig.len() as int));
        }
    }
    assert(orig.subrange(0, k) =~= orig);
}

impl Node {
    /// Generates the node into `g`.
    pub fn generate(self, g: &mut Generator)
        requires
            old(g).wf(),
        ensures
            final(g).wf(),
            final(g).view() == push_all(old(g).view(), node_pieces(self)),
        decreases self,
    {
        match self {
            Node::Element(e) => e.generate(g),
            Node::Block(b) => b.generate(g),
            Node::Expr(e) => e.generate(g),
            Node::If(i) => i.generate(g),
            Node::Match(m) => m.generate(g),
            Node::ForLoop(f) => f.generate(g),
        }
    }
}

impl Block {
    pub fn generate(self, g: &mut Generator)
        requires
            old(g).wf(),
        ensures
            final(g).wf(),
            final(g).view() == push_all(old(g).view(), nodes_pieces(self.nodes@)),
        decreases self,
    {
        generate_nodes(self.nodes, g)
    }
}

impl Expr {
    pub fn generate(self, g: &mut Generator)
        requires
            old(g).wf(),
        ensures
            final(g).wf(),
            final(g).view() == push_all(old(g).view(), seq![expr_code(self)]),
    {
        proof {
            lemma_push_all_push(old(g).view(), Seq::empty(), expr_code(self));
            assert(Seq::<Code>::empty().push(expr_code(self)) =~= seq![expr_code(self)]);
        }
        g.push_rendered_expr(self);
    }
}

impl Element {
    /// Generates the element: any problems first, then the opening tag with
    /// its attributes in order, then the body and closing tag if there is a
    /// body.
    pub fn generate(self, g: &mut Generator)
        requires
            old(g).wf(),
        ensures
            final(g).wf(),
            final(g).view() == push_all(old(g).view(), node_pieces(Node::Element(self))),
        decreases self,
    {
        let ghost e0 = self;
        let ghost v0 = g.view();
        let ghost mut pieces: Seq<Code> = Seq::empty();
        match self.validate() {
            Ok(()) => {},
            Err(err) => {
                g.push_error(err);
                proof {
                    lemma_push_all_push(v0, pieces, Code::Error(element_problems(e0)));
                    pieces = pieces.push(Code::Error(element_problems(e0)));
                }
            },
        }
        assert(pieces =~= error_pieces(e0));
        g.push_str("<");
        proof {
            lemma_push_all_push(v0, pieces, Code::Text("<"@));
            pieces = pieces.push(Code::Text("<"@));
        }
        g.push_str(self.name.as_str());
        proof {
            lemma_push_all_push(v0, pieces, Code::Text(e0.name@));
            pieces = pieces.push(Code::Text(e0.name@));
        }
        let Element { name, attr_list, body, .. } = self;
        let ghost orig = attr_list@;
        let ghost head = pieces;
        let mut attrs = attr_list;
        let ghost mut k: int = 0;
        assert(orig.subrange(0, 0) =~= Seq::<Attribute>::empty());
        assert(head + attrs_pieces(orig.subrange(0, 0)) =~= head);
        while attrs.len() > 0
            invariant
                g.wf(),
                0 <= k <= orig.len(),
                attrs@ == orig.subrange(k, orig.len() as int),
                pieces == head + attrs_pieces(orig.subrange(0, k)),
                g.view() == push_all(v0, pieces),
            decreases attrs.len(),
        {
            let a = attrs.remove(0);
            assert(a == orig[k]);
            let (_, key) = a.key();
            g.push_str(" ");
            proof {
                lemma_push_all_push(v0, pieces, Code::Text(" "@));
                pieces = pieces.push(Code::Text(" "@));
            }
            g.push_str(key.as_str());
            proof {
                lemma_push_all_push(v0, pieces, Code::Text(key@));
                pieces = pieces.push(Code::Text(key@));
            }
            let value = match a {
                Attribute::Id { value, .. } => Some(value),
                Attribute::Class { value, .. } => Some(value),
                Attribute::KeyValue { value, .. } => value,
            };
            match value {
                Some(v) => {
                    g.push_str("=\"");
                    proof {
                        lemma_push_all_push(v0, pieces, Code::Text("=\""@));
                        pieces = pieces.push(Code::Text("=\""@));
                    }
                    let ghost c = expr_code(v);
                    g.push_rendered_expr(v);
                    proof {
                        lemma_push_all_push(v0, pieces, c);
                        pieces = pieces.push(c);
                    }
                    g.push_str("\"");
                    proof {
                        lemma_push_all_push(v0, pieces, Code::Text("\""@));
                        pieces = pieces.push(Code::Text("\""@));
                    }
                },
                None => {},
            }
            proof {
                lemma_attrs_pieces_step(orig, k);
                assert(pieces =~= head + attrs_pieces(orig.subrange(0, k + 1)));
                k = k + 1;
                assert(attrs@ =~= orig.subrange(k, orig.len() as int));
            }
        }
        assert(orig.subrange(0, k) =~= orig);
        g.push_str(">");
        proof {
            lemma_push_all_push(v0, pieces, Code::Text(">"@));
            pieces = pieces.push(Code::Text(">"@));
        }
        match body {
            Some(b) => {
                let ghost inner = nodes_pieces(b.nodes@);
                b.generate(g);
                proof {
                    lemma_push_all_concat(v0, pieces, inner);
                    pieces = pieces + inner;
                }
                g.push_str("</");
                proof {
                    lemma_push_all_push(v0, pieces, Code::Text("</"@));
                    pieces = pieces.push(Code::Text("</"@));
                }
                g.push_str(name.as_str());
                proof {
                    lemma_push_all_push(v0, pieces, Code::Text(e0.name@));
                    pieces = pieces.push(Code::Text(e0.name@));
                }
                g.push_str(">");
                proof {
                    lemma_push_all_push(v0, pieces, Code::Text(">"@));
                    pieces = pieces.push(Code::Text(">"@));
                }
            },
            None => {},
        }
        assert(pieces =~= node_pieces(Node::Element(e0)));
    }
}

proof fn lemma_single(acc: Seq<Code>, c: Code)
    ensures
        !(c is Text) ==> push_all(acc, seq![c]) == acc.push(c),
{
    lemma_push_all_push(acc, Seq::empty(), c);
    assert(Seq::<Code>::empty().push(c) =~= seq![c]);
}

impl If {
    /// Generates a conditional statement whose branches are generated
    /// blocks.
    pub fn generate(self, g: &mut Generator)
        requires
            old(g).wf(),
        ensures
            final(g).wf(),
            final(g).view() == push_all(old(g).view(), node_pieces(Node::If(self))),
        decreases self,
    {
        let ghost i0 = self;
        let If { cond, then_branch, else_branch, .. } = self;
        let mut tg = Generator::new();
        then_branch.generate(&mut tg);
        let then_stmts = tg.finish();
        let else_stmts = match else_branch {
            Some(b) => {
                let mut eg = Generator::new();
                (*b).generate(&mut eg);
                Some(eg.finish())
            },
            None => None,
        };
        let st = Stmt::If { cond, then_branch: then_stmts, else_branch: else_stmts };
        proof {
            lemma_single(g.view(), stmt_code(st));
        }
        g.push_stmt(st);
    }
}

proof fn lemma_arms_code_step(s: Seq<Arm>, k: int)
    requires
        0 <= k < s.len(),
    ensures
        arms_code(s.subrange(0, k + 1)) == arms_code(s.subrange(0, k)).push(
            ArmCode {
                pat: tokens_view(s[k].pat@),
                guard: opt_tokens_view(s[k].guard),
                body: coalesce(node_pieces(s[k].body)),
            },
        ),
{
    assert(s.subrange(0, k + 1).drop_last() =~= s.subrange(0, k));
}

impl Match {
    /// Generates a match statement with the arms in their order.
    #[verifier::loop_isolation(false)]
    pub fn generate(self, g: &mut Generator)
        requires
            old(g).wf(),
        ensures
            final(g).wf(),
            final(g).view() == push_all(old(g).view(), node_pieces(Node::Match(self))),
        decreases self,
    {
        let ghost m0 = self;
        let Match { expr, arms, .. } = self;
        let ghost orig = arms@;
        let mut arms = arms;
        let mut out: Vec<StmtArm> = Vec::new();
        let ghost mut k: int = 0;
        assert(orig.subrange(0, 0) =~= Seq::<Arm>::empty());
        while arms.len() > 0
            invariant
                0 <= k <= orig.len(),
                orig == m0.arms@,
                arms@ == orig.subrange(k, orig.len() as int),
                stmt_arms_code(out@) == arms_code(orig.subrange(0, k)),
            decreases arms.len(),
        {
            let a = arms.remove(0);
            proof {
                assert(a == orig[k]);
                vstd::std_specs::vec::axiom_vec_index_decreases(m0.arms, k);
                assert(decreases_to!(m0 => m0.arms));
                assert(decreases_to!(m0.arms => a));
                assert(decreases_to!(a => a.body));
                assert(decreases_to!(m0 => a.body));
            }
            let Arm { pat, guard, body, .. } = a;
            assert(decreases_to!(m0 => body));
            let mut ag = Generator::new();
            body.generate(&mut ag);
            let body_stmts = ag.finish();
            let ghost before = out@;
            out.push(StmtArm { pat, guard, body: body_stmts });
            proof {
                assert(out@.drop_last() =~= before);
                lemma_arms_code_step(orig, k);
                k = k + 1;
                assert(arms@ =~= orig.subrange(k, orig.len() as int));
            }
        }
        assert(orig.subrange(0, k) =~= orig);
        let st = Stmt::Match { expr, arms: out };
        proof {
            lemma_single(g.view(), stmt_code(st));
        }
        g.push_stmt(st);
    }
}

impl ForLoop {
    /// Generates a loop statement over the generated body.
    pub fn generate(self, g: &mut Generator)
        requires
            old(g).wf(),
        ensures
            final(g).wf(),
            final(g).view() == push_all(old(g).view(), node_pieces(Node::ForLoop(self))),
        decreases self,
    {
        let ForLoop { pat, expr, body, .. } = self;
        let mut bg = Generator::new();
        body.generate(&mut bg);
        let st = Stmt::For { pat, expr, body: bg.finish() };
        proof {
            lemma_single(g.view(), stmt_code(st));
        }
        g.push_stmt(st);
    }
}

/// Whether every piece is static text.
pub open spec fn all_text(s: Seq<Code>) -> bool {
    forall|i: int| 0 <= i < s.len() ==> #[trigger] s[i] is Text
}

/// The concatenation of the texts of the pieces.
pub open spec fn text_of(s: Seq<Code>) -> Seq<char>
    decreases s.len(),
{
    if s.len() == 0 {
        Seq::empty()
    } else {
        text_of(s.drop_last()) + match s.last() {
            Code::Text(t) => t,
            _ => Seq::empty(),
        }
    }
}

/// Whether an attribute's value, if any, is known text.
pub open spec fn is_static_attr(a: Attribute) -> bool {
    match a {
        Attribute::Id { value, .. } => value.spec_static_text() is Some,
        Attribute::Class { value, .. } => value.spec_static_text() is Some,
        Attribute::KeyValue { value, .. } => match value {
            Some(v) => v.spec_static_text() is Some,
            None => true,
        },
    }
}

/// Whether a node is made of literal text and valid elements with literal
/// attribute values only.
pub open spec fn is_static_node(n: Node) -> bool
    decreases n,
{
    match n {
        Node::Element(e) => element_problems(e).len() == 0 && (forall|i: int|
            0 <= i < e.attr_list@.len() ==> #[trigger] is_static_attr(e.attr_list@[i])) && match e.body {
            Some(b) => is_static_nodes(b.nodes@),
            None => true,
        },
        Node::Block(b) => is_static_nodes(b.nodes@),
        Node::Expr(e) => e.spec_static_text() is Some,
        _ => false,
    }
}

pub open spec fn is_static_nodes(s: Seq<Node>) -> bool
    decreases s,
{
    s.len() == 0 || (is_static_nodes(s.drop_last()) && is_static_node(s.last()))
}

proof fn lemma_attrs_pieces_text(s: Seq<Attribute>)
    requires
        forall|i: int| 0 <= i < s.len() ==> #[trigger] is_static_attr(s[i]),
    ensures
        all_text(attrs_pieces(s)),
    decreases s.len(),
{
    if s.len() > 0 {
        assert forall|i: int| 0 <= i < s.drop_last().len() implies #[trigger] is_static_attr(
            s.drop_last()[i],
        ) by {
            assert(s.drop_last()[i] == s[i]);
        }
        lemma_attrs_pieces_text(s.drop_last());
        assert(is_static_attr(s[s.len() - 1]));
    }
}

proof fn lemma_static_node_text(n: Node)
    requires
        is_static_node(n),
    ensures
        all_text(node_pieces(n)),
    decreases n,
{
    match n {
        Node::Element(e) => {
            lemma_attrs_pieces_text(e.attr_list@);
            match e.body {
                Some(b) => {
                    lemma_static_nodes_text(b.nodes@);
                },
                None => {},
            }
        },
        Node::Block(b) => {
            lemma_static_nodes_text(b.nodes@);
        },
        _ => {},
    }
}

proof fn lemma_static_nodes_text(s: Seq<Node>)
    requires
        is_static_nodes(s),
    ensures
        all_text(nodes_pieces(s)),
    decreases s,
{
    if s.len() > 0 {
        lemma_static_nodes_text(s.drop_last());
        lemma_static_node_text(s.last());
    }
}

proof fn lemma_coalesce_text(s: Seq<Code>)
    requires
        all_text(s),
    ensures
        push_all(Seq::empty(), s) == if s.len() == 0 {
            Seq::<Code>::empty()
        } else {
            seq![Code::Text(text_of(s))]
        },
    decreases s.len(),
{
    if s.len() > 0 {
        let d = s.drop_last();
        assert(all_text(d)) by {
            assert forall|i: int| 0 <= i < d.len() implies #[trigger] d[i] is Text by {
                assert(d[i] == s[i]);
            }
        }
        lemma_coalesce_text(d);
        assert(s[s.len() - 1] is Text);
        if d.len() == 0 {
            assert(text_of(d) == Seq::<char>::empty());
            assert(text_of(s) =~= s.last()->Text_0);
            assert(push_all(Seq::empty(), s) =~= seq![Code::Text(text_of(s))]);
        } else {
            assert(push_all(Seq::empty(), s) =~= seq![Code::Text(text_of(s))]);
        }
    }
}

/// A template of literal text and valid elements with literal attribute
/// values generates at most one statement: a write of all its text.
pub proof fn lemma_static_folding(t: Template)
    requires
        is_static_nodes(t.nodes@),
    ensures
        all_text(nodes_pieces(t.nodes@)),
        coalesce(nodes_pieces(t.nodes@)) == if nodes_pieces(t.nodes@).len() == 0 {
            Seq::<Code>::empty()
        } else {
            seq![Code::Text(text_of(nodes_pieces(t.nodes@)))]
        },
{
    lemma_static_nodes_text(t.nodes@);
    lemma_coalesce_text(nodes_pieces(t.nodes@));
}

impl Template {
    /// Generates the whole template: the statements that, run in order
    /// against a sink, write what the template describes.
    pub fn expand(self) -> (r: Vec<Stmt>)
        ensures
            stmts_code(r@) == coalesce(nodes_pieces(self.nodes@)),
    {
        let mut g = Generator::new();
        generate_nodes(self.nodes, &mut g);
        g.finish()
    }
}

} // verus!
