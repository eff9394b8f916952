//! Content that element builders accept, and the categories that decide
//! which elements may hold which.
use vstd::prelude::*;
use crate::escape::{encode_text, escape_text_seq};

verus! {

/// Content that renders to HTML, consumed by rendering.
pub trait Render: Sized {
    /// The HTML that rendering writes.
    spec fn html(&self) -> Seq<char>;

    /// Appends the HTML to `target`.
    fn render(self, target: &mut String)
        ensures
            final(target)@ == old(target)@ + self.html(),
    ;

    /// The HTML as a string.
    fn render_to_string(self) -> (r: String)
        ensures
            r@ == self.html(),
    {
        let mut s = String::new();
        self.render(&mut s);
        s
    }
}

/// Flow content: what may stand in the body of a document.
pub trait FlowContent: Render {
}

/// Phrasing content: text and the markup within it; a subset of flow content.
pub trait PhrasingContent: FlowContent {
}

/// Content without interactive elements.
pub trait NonInteractiveContent: Render {
}

impl<'a> Render for &'a str {
    open spec fn html(&self) -> Seq<char> {
        escape_text_seq((*self)@)
    }

    fn render(self, target: &mut String) {
        let e = encode_text(self);
        target.append(e.as_str());
    }
}

impl<'a> FlowContent for &'a str {
}

impl<'a> PhrasingContent for &'a str {
}

impl<'a> NonInteractiveContent for &'a str {
}

impl Render for String {
    open spec fn html(&self) -> Seq<char> {
        escape_text_seq(self@)
    }

    fn render(self, target: &mut String) {
        let e = encode_text(self.as_str());
        target.append(e.as_str());
    }
}

impl FlowContent for String {
}

impl PhrasingContent for String {
}

impl NonInteractiveContent for String {
}

impl Render for () {
    open spec fn html(&self) -> Seq<char> {
        Seq::empty()
    }

    fn render(self, target: &mut String) {
        assert(target@ =~= old(target)@ + Seq::<char>::empty());
    }
}

impl FlowContent for () {
}

impl PhrasingContent for () {
}

impl NonInteractiveContent for () {
}

} // verus!
