//! Semantic problems found in a template, collected rather than stopping at
//! the first one.
use vstd::prelude::*;

verus! {

/// One problem with one element.
#[derive(Debug)]
pub enum Problem {
    /// The tag name is not in the tag table.
    InvalidTag { name: String, span: usize },
    /// A void element was given a body.
    SelfClosing { name: String, span: usize },
    /// An element with content was written without a body.
    NotSelfClosing { name: String, span: usize },
    /// Several attributes of one element normalise to the same key; `spans`
    /// holds every one of them in order.
    AttributeSpecifiedMoreThanOnce { key: String, spans: Vec<usize> },
}

/// The mathematical value of a problem.
pub enum ProblemView {
    InvalidTag(Seq<char>, usize),
    SelfClosing(Seq<char>, usize),
    NotSelfClosing(Seq<char>, usize),
    AttributeSpecifiedMoreThanOnce(Seq<char>, Seq<usize>),
}

impl View for Problem {
    type V = ProblemView;

    open spec fn view(&self) -> ProblemView {
        match *self {
            Problem::InvalidTag { name, span } => ProblemView::InvalidTag(name@, span),
            Problem::SelfClosing { name, span } => ProblemView::SelfClosing(name@, span),
            Problem::NotSelfClosing { name, span } => ProblemView::NotSelfClosing(name@, span),
            Problem::AttributeSpecifiedMoreThanOnce { key, spans } =>
                ProblemView::AttributeSpecifiedMoreThanOnce(key@, spans@),
        }
    }
}

/// An aggregate of problems, in the order they were found.
#[derive(Debug)]
pub struct Error {
    problems: Vec<Problem>,
}

impl View for Error {
    type V = Seq<ProblemView>;

    closed spec fn view(&self) -> Seq<ProblemView> {
        self.problems@.map_values(|p: Problem| p@)
    }
}

/// A message attached to one source span.
#[derive(Debug)]
pub struct Diagnostic {
    pub span: usize,
    pub message: String,
}

pub open spec fn tag_message(name: Seq<char>, tail: Seq<char>) -> Seq<char> {
    "`"@ + name + tail
}

/// The diagnostics that one problem is reported as: one message per span.
pub open spec fn problem_diagnostics(p: ProblemView) -> Seq<(usize, Seq<char>)> {
    match p {
        ProblemView::InvalidTag(n, s) => seq![
            (s, tag_message(n, "` is not a valid HTML tag"@))
        ],
        ProblemView::SelfClosing(n, s) => seq![
            (s, tag_message(n, "` must be used like a self closing tag"@))
        ],
        ProblemView::NotSelfClosing(n, s) => seq![
            (s, tag_message(n, "` cannot be used like a self closing tag"@))
        ],
        ProblemView::AttributeSpecifiedMoreThanOnce(k, spans) => spans.map_values(
            |s: usize| (s, "attribute `"@ + k + "` specified more than once"@),
        ),
    }
}

pub open spec fn all_diagnostics(ps: Seq<ProblemView>) -> Seq<(usize, Seq<char>)>
    decreases ps.len(),
{
    if ps.len() == 0 {
        Seq::empty()
    } else {
        all_diagnostics(ps.drop_last()) + problem_diagnostics(ps.last())
    }
}

impl Problem {
    /// The diagnostics that this problem is reported as.
    pub fn diagnostics(&self) -> (r: Vec<Diagnostic>)
        ensures
            r@.map_values(|d: Diagnostic| (d.span, d.message@)) == problem_diagnostics(self@),
    {
        let mut r: Vec<Diagnostic> = Vec::new();
        match self {
            Problem::InvalidTag { name, span } => {
                let mut m = String::from_str("`");
                m.append(name.as_str());
                m.append("` is not a valid HTML tag");
                r.push(Diagnostic { span: *span, message: m });
            },
            Problem::SelfClosing { name, span } => {
                let mut m = String::from_str("`");
                m.append(name.as_str());
                m.append("` must be used like a self closing tag");
                r.push(Diagnostic { span: *span, message: m });
            },
            Problem::NotSelfClosing { name, span } => {
                let mut m = String::from_str("`");
                m.append(name.as_str());
                m.append("` cannot be used like a self closing tag");
                r.push(Diagnostic { span: *span, message: m });
            },
            Problem::AttributeSpecifiedMoreThanOnce { key, spans } => {
                let ghost msg = "attribute `"@ + key@ + "` specified more than once"@;
                let mut i: usize = 0;
                while i < spans.len()
                    invariant
                        i <= spans@.len(),
                        msg == "attribute `"@ + key@ + "` specified more than once"@,
                        self@ == ProblemView::AttributeSpecifiedMoreThanOnce(key@, spans@),
                        r@.len() == i,
                        forall|j: int|
                            0 <= j < i ==> #[trigger] r@[j].span == spans@[j] && r@[j].message@
                                == msg,
                    decreases spans@.len() - i,
                {
                    let mut m = String::from_str("attribute `");
                    m.append(key.as_str());
                    m.append("` specified more than once");
                    r.push(Diagnostic { span: spans[i], message: m });
                    i = i + 1;
                }
                assert(r@.map_values(|d: Diagnostic| (d.span, d.message@)) =~= spans@.map_values(
                    |s: usize| (s, msg),
                ));
            },
        }
        assert(r@.map_values(|d: Diagnostic| (d.span, d.message@)) =~= problem_diagnostics(
            self@,
        ));
        r
    }
}

impl Error {
    /// An aggregate with no problem in it.
    pub fn empty() -> (r: Error)
        ensures
            r@ == Seq::<ProblemView>::empty(),
    {
        let r = Error { problems: Vec::new() };
        assert(r@ =~= Seq::<ProblemView>::empty());
        r
    }

    /// An aggregate of one problem.
    pub fn single(p: Problem) -> (r: Error)
        ensures
            r@ == seq![p@],
    {
        let mut problems = Vec::new();
        problems.push(p);
        let r = Error { problems };
        assert(r@ =~= seq![p@]);
        r
    }

    pub fn is_empty(&self) -> (r: bool)
        ensures
            r == (self@.len() == 0),
    {
        self.problems.len() == 0
    }

    /// Adds every problem of `other` after those already collected.
    pub fn push(&mut self, other: Error)
        ensures
            final(self)@ == old(self)@ + other@,
    {
        let mut other = other;
        let ghost added = other@;
        self.problems.append(&mut other.problems);
        assert(self@ =~= old(self)@ + added);
    }

    /// The problems collected, in order.
    pub fn problems(&self) -> (r: &Vec<Problem>)
        ensures
            r@.map_values(|p: Problem| p@) == self@,
    {
        &self.problems
    }

    /// Every diagnostic of every problem, in order.
    pub fn diagnostics(&self) -> (r: Vec<Diagnostic>)
        ensures
            r@.map_values(|d: Diagnostic| (d.span, d.message@)) == all_diagnostics(self@),
    {
        let mut r: Vec<Diagnostic> = Vec::new();
        let mut i: usize = 0;
        while i < self.problems.len()
            invariant
                i <= self.problems@.len(),
                r@.map_values(|d: Diagnostic| (d.span, d.message@)) == all_diagnostics(
                    self@.subrange(0, i as int),
                ),
            decreases self.problems@.len() - i,
        {
            let mut d = self.problems[i].diagnostics();
            let ghost before = r@;
            r.append(&mut d);
            proof {
                assert(self@.subrange(0, i as int + 1).drop_last() =~= self@.subrange(0, i as int));
                assert(r@.map_values(|d: Diagnostic| (d.span, d.message@)) =~= before.map_values(
                    |d: Diagnostic| (d.span, d.message@),
                ) + problem_diagnostics(self@[i as int]));
            }
            i = i + 1;
        }
        assert(self@.subrange(0, self@.len() as int) =~= self@);
        r
    }
}

} // verus!
