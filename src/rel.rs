//! Values of the `rel` attribute: link types for `<link>`, `<a>` and
//! `<form>`, and lists of them without repeats.
use vstd::prelude::*;
use crate::attribute::{attr_text, push_attr};

verus! {

/// The items of a list joined by commas.
pub open spec fn comma_joined(s: Seq<Seq<char>>) -> Seq<char>
    decreases s.len(),
{
    if s.len() == 0 {
        Seq::empty()
    } else if s.len() == 1 {
        s[0]
    } else {
        comma_joined(s.drop_last()) + ","@ + s.last()
    }
}

/// A link type of the `rel` attribute of `<link>`.
#[derive(Debug, Clone, Copy, PartialEq, Eq, Structural)]
pub enum LinkRel {
    Alternate,
    Author,
    Canonical,
    DnsPrefetch,
    Expect,
    Help,
    Icon,
    License,
    Manifest,
    Me,
    ModulePreload,
    Next,
    PingBack,
    Preconnect,
    Prefetch,
    Preload,
    Prerender,
    Prev,
    PrivacyPolicy,
    Search,
    StyleSheet,
    TermsOfService,
}

pub open spec fn link_rel_text(r: LinkRel) -> Seq<char> {
    match r {
        LinkRel::Alternate => "alternate"@,
        LinkRel::Author => "author"@,
        LinkRel::Canonical => "canonical"@,
        LinkRel::DnsPrefetch => "dns-prefetch"@,
        LinkRel::Expect => "expect"@,
        LinkRel::Help => "help"@,
        LinkRel::Icon => "icon"@,
        LinkRel::License => "license"@,
        LinkRel::Manifest => "manifest"@,
        LinkRel::Me => "me"@,
        LinkRel::ModulePreload => "modulepreload"@,
        LinkRel::Next => "next"@,
        LinkRel::PingBack => "pingback"@,
        LinkRel::Preconnect => "preconnect"@,
        LinkRel::Prefetch => "prefetch"@,
        LinkRel::Preload => "preload"@,
        LinkRel::Prerender => "prerender"@,
        LinkRel::Prev => "prev"@,
        LinkRel::PrivacyPolicy => "privacy-policy"@,
        LinkRel::Search => "search"@,
        LinkRel::StyleSheet => "stylesheet"@,
        LinkRel::TermsOfService => "terms-of-service"@,
    }
}

impl LinkRel {
    pub fn as_str(&self) -> (r: &'static str)
        ensures
            r@ == link_rel_text(*self),
    {
        match self {
            LinkRel::Alternate => "alternate",
            LinkRel::Author => "author",
            LinkRel::Canonical => "canonical",
            LinkRel::DnsPrefetch => "dns-prefetch",
            LinkRel::Expect => "expect",
            LinkRel::Help => "help",
            LinkRel::Icon => "icon",
            LinkRel::License => "license",
            LinkRel::Manifest => "manifest",
            LinkRel::Me => "me",
            LinkRel::ModulePreload => "modulepreload",
            LinkRel::Next => "next",
            LinkRel::PingBack => "pingback",
            LinkRel::Preconnect => "preconnect",
            LinkRel::Prefetch => "prefetch",
            LinkRel::Preload => "preload",
            LinkRel::Prerender => "prerender",
            LinkRel::Prev => "prev",
            LinkRel::PrivacyPolicy => "privacy-policy",
            LinkRel::Search => "search",
            LinkRel::StyleSheet => "stylesheet",
            LinkRel::TermsOfService => "terms-of-service",
        }
    }
}

/// A list of `<link>` link types, each at most once, in the order added.
#[derive(Debug)]
pub struct LinkRelList {
    data: Vec<LinkRel>,
}

impl LinkRelList {
    pub closed spec fn items(&self) -> Seq<LinkRel> {
        self.data@
    }

    pub open spec fn texts(&self) -> Seq<Seq<char>> {
        self.items().map_values(|r: LinkRel| link_rel_text(r))
    }

    pub fn new() -> (r: LinkRelList)
        ensures
            r.items().len() == 0,
    {
        LinkRelList { data: Vec::new() }
    }

    /// Adds `rel` unless it is in the list already.
    pub fn push(&mut self, rel: LinkRel)
        ensures
            old(self).items().contains(rel) ==> final(self).items() == old(self).items(),
            !old(self).items().contains(rel) ==> final(self).items() == old(self).items().push(rel),
    {
        let mut i: usize = 0;
        while i < self.data.len()
            invariant
                i <= self.data@.len(),
                self.data@ == old(self).data@,
                forall|j: int| 0 <= j < i ==> self.data@[j] != rel,
            decreases self.data@.len() - i,
        {
            if self.data[i] == rel {
                return;
            }
            i = i + 1;
        }
        self.data.push(rel);
    }

    pub fn is_empty(&self) -> (r: bool)
        ensures
            r == (self.items().len() == 0),
    {
        self.data.len() == 0
    }

    /// The attribute value: the link types joined by commas.
    pub fn value(&self) -> (r: String)
        ensures
            r@ == comma_joined(self.texts()),
    {
        let mut r = String::new();
        let mut i: usize = 0;
        while i < self.data.len()
            invariant
                i <= self.data@.len(),
                r@ == comma_joined(self.texts().subrange(0, i as int)),
            decreases self.data@.len() - i,
        {
            if i != 0 {
                r.append(",");
            }
            r.append(self.data[i].as_str());
            proof {
                let t = self.texts();
                assert(t.subrange(0, i as int + 1).drop_last() =~= t.subrange(0, i as int));
                if i == 0 {
                    assert(r@ =~= comma_joined(t.subrange(0, 1)));
                }
            }
            i = i + 1;
        }
        assert(self.texts().subrange(0, self.data@.len() as int) =~= self.texts());
        r
    }

    /// Writes ` attr="..."` unless the list is empty.
    pub fn render_attr(&self, attr: &str, target: &mut String)
        ensures
            final(target)@ == old(target)@ + if self.items().len() == 0 {
                Seq::empty()
            } else {
                attr_text(attr@, comma_joined(self.texts()))
            },
    {
        if self.is_empty() {
            assert(target@ =~= old(target)@ + Seq::<char>::empty());
            return;
        }
        let v = self.value();
        push_attr(target, attr, v.as_str());
    }
}

/// A link type of the `rel` attribute of `<a>`.
#[derive(Debug, Clone, Copy, PartialEq, Eq, Structural)]
pub enum AnchorRel {
    Alternate,
    Author,
    Bookmark,
    External,
    Help,
    License,
    Me,
    Next,
    NoFollow,
    NoOpener,
    NoReferrer,
    Opener,
    Prev,
    PrivacyPolicy,
    Search,
    Tag,
    TermsOfService,
}

pub open spec fn anchor_rel_text(r: AnchorRel) -> Seq<char> {
    match r {
        AnchorRel::Alternate => "alternate"@,
        AnchorRel::Author => "author"@,
        AnchorRel::Bookmark => "bookmark"@,
        AnchorRel::External => "external"@,
        AnchorRel::Help => "help"@,
        AnchorRel::License => "license"@,
        AnchorRel::Me => "me"@,
        AnchorRel::Next => "next"@,
        AnchorRel::NoFollow => "nofollow"@,
        AnchorRel::NoOpener => "noopener"@,
        AnchorRel::NoReferrer => "noreferrer"@,
        AnchorRel::Opener => "opener"@,
        AnchorRel::Prev => "prev"@,
        AnchorRel::PrivacyPolicy => "privacy-policy"@,
        AnchorRel::Search => "search"@,
        AnchorRel::Tag => "tag"@,
        AnchorRel::TermsOfService => "terms-of-service"@,
    }
}

impl AnchorRel {
    pub fn as_str(&self) -> (r: &'static str)
        ensures
            r@ == anchor_rel_text(*self),
    {
        match self {
            AnchorRel::Alternate => "alternate",
            AnchorRel::Author => "author",
            AnchorRel::Bookmark => "bookmark",
            AnchorRel::External => "external",
            AnchorRel::Help => "help",
            AnchorRel::License => "license",
            AnchorRel::Me => "me",
            AnchorRel::Next => "next",
            AnchorRel::NoFollow => "nofollow",
            AnchorRel::NoOpener => "noopener",
            AnchorRel::NoReferrer => "noreferrer",
            AnchorRel::Opener => "opener",
            AnchorRel::Prev => "prev",
            AnchorRel::PrivacyPolicy => "privacy-policy",
            AnchorRel::Search => "search",
            AnchorRel::Tag => "tag",
            AnchorRel::TermsOfService => "terms-of-service",
        }
    }
}

/// A list of `<a>` link types, each at most once, in the order added.
#[derive(Debug)]
pub struct AnchorRelList {
    data: Vec<AnchorRel>,
}

impl AnchorRelList {
    pub closed spec fn items(&self) -> Seq<AnchorRel> {
        self.data@
    }

    pub open spec fn texts(&self) -> Seq<Seq<char>> {
        self.items().map_values(|r: AnchorRel| anchor_rel_text(r))
    }

    pub fn new() -> (r: AnchorRelList)
        ensures
            r.items().len() == 0,
    {
        AnchorRelList { data: Vec::new() }
    }

    /// Adds `rel` unless it is in the list already.
    pub fn push(&mut self, rel: AnchorRel)
        ensures
            old(self).items().contains(rel) ==> final(self).items() == old(self).items(),
            !old(self).items().contains(rel) ==> final(self).items() == old(self).items().push(rel),
    {
        let mut i: usize = 0;
        while i < self.data.len()
            invariant
                i <= self.data@.len(),
                self.data@ == old(self).data@,
                forall|j: int| 0 <= j < i ==> self.data@[j] != rel,
            decreases self.data@.len() - i,
        {
            if self.data[i] == rel {
                return;
            }
            i = i + 1;
        }
        self.data.push(rel);
    }

    pub fn is_empty(&self) -> (r: bool)
        ensures
            r == (self.items().len() == 0),
    {
        self.data.len() == 0
    }

    /// The attribute value: the link types joined by commas.
    pub fn value(&self) -> (r: String)
        ensures
            r@ == comma_joined(self.texts()),
    {
        let mut r = String::new();
        let mut i: usize = 0;
        while i < self.data.len()
            invariant
                i <= self.data@.len(),
                r@ == comma_joined(self.texts().subrange(0, i as int)),
            decreases self.data@.len() - i,
        {
            if i != 0 {
                r.append(",");
            }
            r.append(self.data[i].as_str());
            proof {
                let t = self.texts();
                assert(t.subrange(0, i as int + 1).drop_last() =~= t.subrange(0, i as int));
                if i == 0 {
                    assert(r@ =~= comma_joined(t.subrange(0, 1)));
                }
            }
            i = i + 1;
        }
        assert(self.texts().subrange(0, self.data@.len() as int) =~= self.texts());
        r
    }

    /// Writes ` attr="..."` unless the list is empty.
    pub fn render_attr(&self, attr: &str, target: &mut String)
        ensures
            final(target)@ == old(target)@ + if self.items().len() == 0 {
                Seq::empty()
            } else {
                attr_text(attr@, comma_joined(self.texts()))
            },
    {
        if self.is_empty() {
            assert(target@ =~= old(target)@ + Seq::<char>::empty());
            return;
        }
        let v = self.value();
        push_attr(target, attr, v.as_str());
    }
}

/// A link type of the `rel` attribute of `<form>`.
#[derive(Debug, Clone, Copy, PartialEq, Eq, Structural)]
pub enum FormRel {
    External,
    Help,
    License,
    Next,
    NoFollow,
    NoOpener,
    NoReferrer,
    Opener,
    Prev,
    Search,
}

pub open spec fn form_rel_text(r: FormRel) -> Seq<char> {
    match r {
        FormRel::External => "external"@,
        FormRel::Help => "help"@,
        FormRel::License => "license"@,
        FormRel::Next => "next"@,
        FormRel::NoFollow => "nofollow"@,
        FormRel::NoOpener => "noopener"@,
        FormRel::NoReferrer => "noreferrer"@,
        FormRel::Opener => "opener"@,
        FormRel::Prev => "prev"@,
        FormRel::Search => "search"@,
    }
}

impl FormRel {
    pub fn as_str(&self) -> (r: &'static str)
        ensures
            r@ == form_rel_text(*self),
    {
        match self {
            FormRel::External => "external",
            FormRel::Help => "help",
            FormRel::License => "license",
            FormRel::Next => "next",
            FormRel::NoFollow => "nofollow",
            FormRel::NoOpener => "noopener",
            FormRel::NoReferrer => "noreferrer",
            FormRel::Opener => "opener",
            FormRel::Prev => "prev",
            FormRel::Search => "search",
        }
    }
}

/// A list of `<form>` link types, each at most once, in the order added.
#[derive(Debug)]
pub struct FormRelList {
    data: Vec<FormRel>,
}

impl FormRelList {
    pub closed spec fn items(&self) -> Seq<FormRel> {
        self.data@
    }

    pub open spec fn texts(&self) -> Seq<Seq<char>> {
        self.items().map_values(|r: FormRel| form_rel_text(r))
    }

    pub fn new() -> (r: FormRelList)
        ensures
            r.items().len() == 0,
    {
        FormRelList { data: Vec::new() }
    }

    /// Adds `rel` unless it is in the list already.
    pub fn push(&mut self, rel: FormRel)
        ensures
            old(self).items().contains(rel) ==> final(self).items() == old(self).items(),
            !old(self).items().contains(rel) ==> final(self).items() == old(self).items().push(rel),
    {
        let mut i: usize = 0;
        while i < self.data.len()
            invariant
                i <= self.data@.len(),
                self.data@ == old(self).data@,
                forall|j: int| 0 <= j < i ==> self.data@[j] != rel,
            decreases self.data@.len() - i,
        {
            if self.data[i] == rel {
                return;
            }
            i = i + 1;
        }
        self.data.push(rel);
    }

    pub fn is_empty(&self) -> (r: bool)
        ensures
            r == (self.items().len() == 0),
    {
        self.data.len() == 0
    }

    /// The attribute value: the link types joined by commas.
    pub fn value(&self) -> (r: String)
        ensures
            r@ == comma_joined(self.texts()),
    {
        let mut r = String::new();
        let mut i: usize = 0;
        while i < self.data.len()
            invariant
                i <= self.data@.len(),
                r@ == comma_joined(self.texts().subrange(0, i as int)),
            decreases self.data@.len() - i,
        {
            if i != 0 {
                r.append(",");
            }
            r.append(self.data[i].as_str());
            proof {
                let t = self.texts();
                assert(t.subrange(0, i as int + 1).drop_last() =~= t.subrange(0, i as int));
                if i == 0 {
                    assert(r@ =~= comma_joined(t.subrange(0, 1)));
                }
            }
            i = i + 1;
        }
        assert(self.texts().subrange(0, self.data@.len() as int) =~= self.texts());
        r
    }

    /// Writes ` attr="..."` unless the list is empty.
    pub fn render_attr(&self, attr: &str, target: &mut String)
        ensures
            final(target)@ == old(target)@ + if self.items().len() == 0 {
                Seq::empty()
            } else {
                attr_text(attr@, comma_joined(self.texts()))
            },
    {
        if self.is_empty() {
            assert(target@ =~= old(target)@ + Seq::<char>::empty());
            return;
        }
        let v = self.value();
        push_attr(target, attr, v.as_str());
    }
}

} // verus!
