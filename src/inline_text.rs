//! Inline text elements: the anchor element `<a>`.
use vstd::prelude::*;
use crate::attribute::{
    ClassList, DataMap, Download, Id, Lang, Target, attr_text, class_list_text, data_text,
    download_text, is_kebab, push_attr, target_text,
};
use crate::escape::{encode_attribute, escape_seq};
use crate::marker::{FlowContent, NonInteractiveContent, PhrasingContent, Render};
use crate::rel::{AnchorRelList, comma_joined};

verus! {

/// Builder for the `<a>` element, a hyperlink around phrasing content.
#[derive(Debug)]
pub struct A<T> {
    content: T,
    id: Option<Id>,
    class: ClassList,
    data_map: DataMap,
    lang: Option<Lang>,
    href: Option<String>,
    download: Option<Download>,
    target: Option<Target>,
    rel: AnchorRelList,
}

/// The `<a>` element around `content`, with no attribute set.
pub fn a<T: PhrasingContent + NonInteractiveContent>(content: T) -> (r: A<T>)
    ensures
        r.content() == content,
        r.wf(),
        r.attrs_text() == Seq::<char>::empty(),
{
    let r = A {
        content,
        id: None,
        class: ClassList::new(Vec::new()),
        data_map: DataMap::new(),
        lang: None,
        href: None,
        download: None,
        target: None,
        rel: AnchorRelList::new(),
    };
    assert(r.attrs_text() =~= Seq::<char>::empty());
    r
}

impl<T: PhrasingContent + NonInteractiveContent> A<T> {
    pub closed spec fn content(&self) -> T {
        self.content
    }

    pub closed spec fn wf(&self) -> bool {
        self.data_map.wf()
    }

    pub closed spec fn id_text(&self) -> Seq<char> {
        match self.id {
            Some(i) => attr_text("id"@, i@),
            None => Seq::empty(),
        }
    }

    pub closed spec fn class_text(&self) -> Seq<char> {
        if self.class.classes().len() == 0 {
            Seq::empty()
        } else {
            attr_text("class"@, class_list_text(self.class.classes()))
        }
    }

    pub closed spec fn data_text(&self) -> Seq<char> {
        data_text(self.data_map.entries())
    }

    pub closed spec fn lang_text(&self) -> Seq<char> {
        match self.lang {
            Some(l) => attr_text("lang"@, escape_seq(l@)),
            None => Seq::empty(),
        }
    }

    pub closed spec fn href_text(&self) -> Seq<char> {
        match self.href {
            Some(h) => attr_text("href"@, escape_seq(h@)),
            None => Seq::empty(),
        }
    }

    pub closed spec fn download_text(&self) -> Seq<char> {
        match self.download {
            Some(d) => download_text("download"@, d.name()),
            None => Seq::empty(),
        }
    }

    pub closed spec fn target_text(&self) -> Seq<char> {
        match self.target {
            Some(t) => attr_text("target"@, target_text(t)),
            None => Seq::empty(),
        }
    }

    pub closed spec fn rel_text(&self) -> Seq<char> {
        if self.rel.items().len() == 0 {
            Seq::empty()
        } else {
            attr_text("rel"@, comma_joined(self.rel.texts()))
        }
    }

    /// The attributes as written in the opening tag, in their fixed order.
    pub open spec fn attrs_text(&self) -> Seq<char> {
        self.id_text() + self.class_text() + self.data_text() + self.lang_text() + self.href_text()
            + self.download_text() + self.target_text() + self.rel_text()
    }

    /// Writes the attributes in their fixed order.
    pub fn render_attrs(&self, t: &mut String)
        ensures
            final(t)@ == old(t)@ + self.attrs_text(),
    {
        self.render_head_attrs(t);
        self.render_tail_attrs(t);
        assert(t@ =~= old(t)@ + self.attrs_text());
    }

    fn render_head_attrs(&self, t: &mut String)
        ensures
            final(t)@ == old(t)@ + self.id_text() + self.class_text() + self.data_text()
                + self.lang_text(),
    {
        let ghost t0 = t@;
        match &self.id {
            Some(id) => id.render_attr("id", t),
            None => {},
        }
        assert(t@ =~= t0 + self.id_text());
        let ghost t1 = t@;
        self.class.render_attr("class", t);
        assert(t@ =~= t1 + self.class_text());
        let ghost t2 = t@;
        self.data_map.render_attr(t);
        assert(t@ =~= t2 + self.data_text());
        let ghost t3 = t@;
        match &self.lang {
            Some(l) => l.render_attr("lang", t),
            None => {},
        }
        assert(t@ =~= t3 + self.lang_text());
        assert(t@ =~= t0 + self.id_text() + self.class_text() + self.data_text() + self.lang_text());
    }

    fn render_tail_attrs(&self, t: &mut String)
        ensures
            final(t)@ == old(t)@ + self.href_text() + self.download_text() + self.target_text()
                + self.rel_text(),
    {
        let ghost t4 = t@;
        match &self.href {
            Some(h) => {
                let v = encode_attribute(h.as_str());
                push_attr(t, "href", v.as_str());
            },
            None => {},
        }
        assert(t@ =~= t4 + self.href_text());
        let ghost t5 = t@;
        match &self.download {
            Some(d) => d.render_attr("download", t),
            None => {},
        }
        assert(t@ =~= t5 + self.download_text());
        let ghost t6 = t@;
        match &self.target {
            Some(tg) => tg.render_attr("target", t),
            None => {},
        }
        assert(t@ =~= t6 + self.target_text());
        let ghost t7 = t@;
        self.rel.render_attr("rel", t);
        assert(t@ =~= t7 + self.rel_text());
        assert(t@ =~= t4 + self.href_text() + self.download_text() + self.target_text() + self.rel_text());
    }

    /// Sets the `id` attribute.
    pub fn id(self, id: Id) -> (r: Self)
        requires
            self.wf(),
        ensures
            r.wf(),
            r.content() == self.content(),
            r.attrs_text() == attr_text("id"@, id@) + self.class_text() + self.data_text()
                + self.lang_text() + self.href_text() + self.download_text() + self.target_text()
                + self.rel_text(),
    {
        let mut s = self;
        s.id = Some(id);
        s
    }

    /// Sets the `class` attribute.
    pub fn class(self, class: ClassList) -> (r: Self)
        requires
            self.wf(),
        ensures
            r.wf(),
            r.content() == self.content(),
            r.attrs_text() == self.id_text() + (if class.classes().len() == 0 {
                Seq::empty()
            } else {
                attr_text("class"@, class_list_text(class.classes()))
            }) + self.data_text() + self.lang_text() + self.href_text() + self.download_text()
                + self.target_text() + self.rel_text(),
    {
        let mut s = self;
        s.class = class;
        s
    }

    /// Sets the `data-key` attribute; `key` must be kebab-case.
    pub fn data(self, key: &str, value: &str) -> (r: Self)
        requires
            self.wf(),
            is_kebab(key@),
        ensures
            r.wf(),
            r.content() == self.content(),
            r.id_text() == self.id_text(),
            r.class_text() == self.class_text(),
            r.lang_text() == self.lang_text(),
            r.href_text() == self.href_text(),
            r.download_text() == self.download_text(),
            r.target_text() == self.target_text(),
            r.rel_text() == self.rel_text(),
    {
        let mut s = self;
        s.data_map.insert(key, value);
        s
    }

    /// Sets the `lang` attribute.
    pub fn lang(self, lang: Lang) -> (r: Self)
        requires
            self.wf(),
        ensures
            r.wf(),
            r.content() == self.content(),
            r.attrs_text() == self.id_text() + self.class_text() + self.data_text() + attr_text(
                "lang"@,
                escape_seq(lang@),
            ) + self.href_text() + self.download_text() + self.target_text() + self.rel_text(),
    {
        let mut s = self;
        s.lang = Some(lang);
        s
    }

    /// Sets the `href` attribute.
    pub fn href(self, href: &str) -> (r: Self)
        requires
            self.wf(),
        ensures
            r.wf(),
            r.content() == self.content(),
            r.attrs_text() == self.id_text() + self.class_text() + self.data_text()
                + self.lang_text() + attr_text("href"@, escape_seq(href@)) + self.download_text()
                + self.target_text() + self.rel_text(),
    {
        let mut s = self;
        s.href = Some(String::from_str(href));
        s
    }

    /// Sets the `download` attribute, without a file name.
    pub fn download(self) -> (r: Self)
        requires
            self.wf(),
        ensures
            r.wf(),
            r.content() == self.content(),
            r.attrs_text() == self.id_text() + self.class_text() + self.data_text()
                + self.lang_text() + self.href_text() + download_text("download"@, None) + self.target_text()
                + self.rel_text(),
    {
        let mut s = self;
        s.download = Some(Download::new(None));
        s
    }

    /// Sets the `target` attribute.
    pub fn target(self, target: Target) -> (r: Self)
        requires
            self.wf(),
        ensures
            r.wf(),
            r.content() == self.content(),
            r.attrs_text() == self.id_text() + self.class_text() + self.data_text()
                + self.lang_text() + self.href_text() + self.download_text() + attr_text(
                "target"@,
                target_text(target),
            ) + self.rel_text(),
    {
        let mut s = self;
        s.target = Some(target);
        s
    }

    /// Sets the `rel` attribute.
    pub fn rel(self, rel: AnchorRelList) -> (r: Self)
        requires
            self.wf(),
        ensures
            r.wf(),
            r.content() == self.content(),
            r.attrs_text() == self.id_text() + self.class_text() + self.data_text()
                + self.lang_text() + self.href_text() + self.download_text() + self.target_text()
                + (if rel.items().len() == 0 {
                Seq::empty()
            } else {
                attr_text("rel"@, comma_joined(rel.texts()))
            }),
    {
        let mut s = self;
        s.rel = rel;
        s
    }
}

impl<T: PhrasingContent + NonInteractiveContent> Render for A<T> {
    open spec fn html(&self) -> Seq<char> {
        "<a"@ + self.attrs_text() + ">"@ + self.content().html() + "</a>"@
    }

    fn render(self, t: &mut String) {
        let ghost me = self;
        t.append("<a");
        self.render_attrs(t);
        t.append(">");
        let ghost t8 = t@;
        self.content.render(t);
        assert(t@ == t8 + me.content().html());
        t.append("</a>");
        assert(t@ =~= old(t)@ + me.html());
    }
}

impl<T: PhrasingContent + NonInteractiveContent> FlowContent for A<T> {
}

impl<T: PhrasingContent + NonInteractiveContent> PhrasingContent for A<T> {
}

} // verus!
