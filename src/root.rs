//! The root of a document: `<html>` with a head holding the title, and a
//! body.
use vstd::prelude::*;
use crate::escape::{encode_text, escape_text_seq};
use crate::marker::{FlowContent, Render};

verus! {

/// A whole page: a title and flow content for the body.
#[derive(Debug)]
pub struct Page<T> {
    title: String,
    body: T,
}

/// A page with the given title and body.
pub fn page<T: FlowContent>(title: &str, body: T) -> (r: Page<T>)
    ensures
        r.title() == title@,
        r.body() == body,
{
    Page { title: String::from_str(title), body }
}

impl<T: FlowContent> Page<T> {
    pub closed spec fn title(&self) -> Seq<char> {
        self.title@
    }

    pub closed spec fn body(&self) -> T {
        self.body
    }
}

impl<T: FlowContent> Render for Page<T> {
    open spec fn html(&self) -> Seq<char> {
        "<html><head><title>"@ + escape_text_seq(self.title()) + "</title></head><body>"@
            + self.body().html() + "</body></html>"@
    }

    fn render(self, target: &mut String) {
        let ghost me = self;
        target.append("<html><head><title>");
        let t = encode_text(self.title.as_str());
        target.append(t.as_str());
        target.append("</title></head><body>");
        self.body.render(target);
        target.append("</body></html>");
        assert(target@ =~= old(target)@ + me.html());
    }
}

} // verus!
