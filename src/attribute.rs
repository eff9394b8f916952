//! Values of the HTML attributes that element builders carry.
use vstd::prelude::*;
use crate::escape::{encode_attribute, escape_seq};

verus! {

/// Whether a character has the Unicode `White_Space` property.
pub open spec fn is_whitespace_char(c: char) -> bool {
    let u = c as u32;
    (0x9 <= u <= 0xd) || u == 0x20 || u == 0x85 || u == 0xa0 || u == 0x1680 || (0x2000 <= u
        <= 0x200a) || u == 0x2028 || u == 0x2029 || u == 0x202f || u == 0x205f || u == 0x3000
}

pub open spec fn has_whitespace(s: Seq<char>) -> bool {
    exists|i: int| 0 <= i < s.len() && is_whitespace_char(#[trigger] s[i])
}

pub fn is_whitespace(c: char) -> (r: bool)
    ensures
        r == is_whitespace_char(c),
{
    let u = c as u32;
    (0x9 <= u && u <= 0xd) || u == 0x20 || u == 0x85 || u == 0xa0 || u == 0x1680 || (0x2000 <= u
        && u <= 0x200a) || u == 0x2028 || u == 0x2029 || u == 0x202f || u == 0x205f || u == 0x3000
}

/// Whether `s` holds a whitespace character.
pub fn contains_whitespace(s: &str) -> (r: bool)
    ensures
        r == has_whitespace(s@),
{
    let n = s.unicode_len();
    let mut i: usize = 0;
    while i < n
        invariant
            n == s@.len(),
            i <= n,
            forall|j: int| 0 <= j < i ==> !is_whitespace_char(#[trigger] s@[j]),
        decreases n - i,
    {
        if is_whitespace(s.get_char(i)) {
            return true;
        }
        i = i + 1;
    }
    false
}

/// ` attr="value"`, the way an attribute is written inside a tag.
pub open spec fn attr_text(attr: Seq<char>, value: Seq<char>) -> Seq<char> {
    " "@ + attr + "=\""@ + value + "\""@
}

/// Appends ` attr="value"` to `target`.
pub fn push_attr(target: &mut String, attr: &str, value: &str)
    ensures
        final(target)@ == old(target)@ + attr_text(attr@, value@),
{
    target.append(" ");
    target.append(attr);
    target.append("=\"");
    target.append(value);
    target.append("\"");
    assert(target@ =~= old(target)@ + attr_text(attr@, value@));
}

/// Writes ` attr` for a boolean attribute that is set, nothing otherwise.
pub fn render_flag_attr(set: bool, attr: &str, target: &mut String)
    ensures
        final(target)@ == old(target)@ + if set {
            " "@ + attr@
        } else {
            Seq::empty()
        },
{
    if set {
        target.append(" ");
        target.append(attr);
    } else {
        assert(target@ =~= old(target)@ + Seq::<char>::empty());
    }
}

/// One class name: text without whitespace.
#[derive(Debug, Clone, PartialEq, Eq, PartialOrd, Ord)]
pub struct Class(String);

/// The error for a class name that holds whitespace.
#[derive(Debug, Clone, Copy, PartialEq, Eq, Structural)]
pub struct InvalidClassName;

impl View for Class {
    type V = Seq<char>;

    closed spec fn view(&self) -> Seq<char> {
        self.0@
    }
}

impl Class {
    /// A class name, refused where it holds whitespace.
    pub fn try_from(value: &str) -> (r: Result<Class, InvalidClassName>)
        ensures
            r is Ok <==> !has_whitespace(value@),
            r matches Ok(c) ==> c@ == value@,
    {
        if contains_whitespace(value) {
            Err(InvalidClassName)
        } else {
            Ok(Class(String::from_str(value)))
        }
    }

    pub fn as_str(&self) -> (r: &str)
        ensures
            r@ == self@,
    {
        self.0.as_str()
    }
}

/// The `class` attribute: a list of class names.
#[derive(Debug)]
pub struct ClassList(Vec<Class>);

/// Each class name followed by a space.
pub open spec fn class_list_text(s: Seq<Class>) -> Seq<char>
    decreases s.len(),
{
    if s.len() == 0 {
        Seq::empty()
    } else {
        class_list_text(s.drop_last()) + s.last()@ + " "@
    }
}

impl Default for ClassList {
    fn default() -> (r: ClassList)
        ensures
            r.classes().len() == 0,
    {
        ClassList(Vec::new())
    }
}

impl ClassList {
    pub closed spec fn classes(&self) -> Seq<Class> {
        self.0@
    }

    /// A list of the given classes, in order.
    pub fn new(classes: Vec<Class>) -> (r: ClassList)
        ensures
            r.classes() == classes@,
    {
        ClassList(classes)
    }

    pub fn is_empty(&self) -> (r: bool)
        ensures
            r == (self.classes().len() == 0),
    {
        self.0.len() == 0
    }

    /// The attribute value: each class name followed by a space.
    pub fn value(&self) -> (r: String)
        ensures
            r@ == class_list_text(self.classes()),
    {
        let mut r = String::new();
        let mut i: usize = 0;
        while i < self.0.len()
            invariant
                i <= self.0@.len(),
                r@ == class_list_text(self.0@.subrange(0, i as int)),
            decreases self.0@.len() - i,
        {
            r.append(self.0[i].as_str());
            r.append(" ");
            proof {
                assert(self.0@.subrange(0, i as int + 1).drop_last() =~= self.0@.subrange(0, i as int));
            }
            i = i + 1;
        }
        assert(self.0@.subrange(0, self.0@.len() as int) =~= self.0@);
        r
    }

    /// Writes ` attr="..."` unless the list is empty.
    pub fn render_attr(&self, attr: &str, target: &mut String)
        ensures
            final(target)@ == old(target)@ + if self.classes().len() == 0 {
                Seq::empty()
            } else {
                attr_text(attr@, class_list_text(self.classes()))
            },
    {
        if self.is_empty() {
            assert(target@ =~= old(target)@ + Seq::<char>::empty());
            return;
        }
        let v = self.value();
        push_attr(target, attr, v.as_str());
    }
}

/// The `id` attribute: text without whitespace.
#[derive(Debug, Clone, PartialEq, Eq, PartialOrd, Ord)]
pub struct Id(String);

/// The error for an id that holds whitespace.
#[derive(Debug, Clone, Copy, PartialEq, Eq, Structural)]
pub struct InvalidId;

impl View for Id {
    type V = Seq<char>;

    closed spec fn view(&self) -> Seq<char> {
        self.0@
    }
}

impl Id {
    /// An id; `id` must hold no whitespace.
    pub fn new(id: &str) -> (r: Id)
        requires
            !has_whitespace(id@),
        ensures
            r@ == id@,
    {
        match Self::try_new(id) {
            Ok(r) => r,
            Err(_) => Id(String::from_str(id)),
        }
    }

    /// An id, refused where it holds whitespace.
    pub fn try_new(id: &str) -> (r: Result<Id, InvalidId>)
        ensures
            r is Ok <==> !has_whitespace(id@),
            r matches Ok(v) ==> v@ == id@,
    {
        if contains_whitespace(id) {
            return Err(InvalidId);
        }
        Ok(Id(String::from_str(id)))
    }

    pub fn as_str(&self) -> (r: &str)
        ensures
            r@ == self@,
    {
        self.0.as_str()
    }

    /// Writes ` attr="id"`.
    pub fn render_attr(&self, attr: &str, target: &mut String)
        ensures
            final(target)@ == old(target)@ + attr_text(attr@, self@),
    {
        push_attr(target, attr, self.0.as_str());
    }
}

/// The `lang` attribute.
#[derive(Debug, Clone, PartialEq, Eq, PartialOrd, Ord)]
pub struct Lang {
    lang: String,
}

impl View for Lang {
    type V = Seq<char>;

    closed spec fn view(&self) -> Seq<char> {
        self.lang@
    }
}

impl Lang {
    pub fn new(lang: &str) -> (r: Lang)
        ensures
            r@ == lang@,
    {
        Lang { lang: String::from_str(lang) }
    }

    /// Writes ` attr="lang"`, escaped.
    pub fn render_attr(&self, attr: &str, target: &mut String)
        ensures
            final(target)@ == old(target)@ + attr_text(attr@, escape_seq(self@)),
    {
        let v = encode_attribute(self.lang.as_str());
        push_attr(target, attr, v.as_str());
    }
}

/// The `target` attribute: where to open a linked document.
#[derive(Debug, Clone, Copy, PartialEq, Eq, Structural)]
pub enum Target {
    /// A new window or tab.
    Blank,
    /// The same frame (the default).
    Self_,
    /// The parent frame.
    Parent,
    /// The full body of the window.
    Top,
}

pub open spec fn target_text(t: Target) -> Seq<char> {
    match t {
        Target::Blank => "_blank"@,
        Target::Self_ => "_self"@,
        Target::Parent => "_parent"@,
        Target::Top => "_top"@,
    }
}

impl Target {
    pub fn as_str(&self) -> (r: &'static str)
        ensures
            r@ == target_text(*self),
    {
        match self {
            Target::Blank => "_blank",
            Target::Self_ => "_self",
            Target::Parent => "_parent",
            Target::Top => "_top",
        }
    }

    /// Writes ` attr="value"`.
    pub fn render_attr(&self, attr: &str, target: &mut String)
        ensures
            final(target)@ == old(target)@ + attr_text(attr@, target_text(*self)),
    {
        push_attr(target, attr, self.as_str());
    }
}

/// The `download` attribute, with an optional file name.
#[derive(Debug)]
pub struct Download(Option<String>);

pub open spec fn download_text(attr: Seq<char>, name: Option<Seq<char>>) -> Seq<char> {
    match name {
        None => " "@ + attr,
        Some(n) => attr_text(attr, escape_seq(n)),
    }
}

impl Download {
    pub closed spec fn name(&self) -> Option<Seq<char>> {
        match self.0 {
            Some(s) => Some(s@),
            None => None,
        }
    }

    pub fn new(name: Option<String>) -> (r: Download)
        ensures
            r.name() == match name {
                Some(s) => Some(s@),
                None => None,
            },
    {
        Download(name)
    }

    /// Writes ` attr` or ` attr="name"`, escaped.
    pub fn render_attr(&self, attr: &str, target: &mut String)
        ensures
            final(target)@ == old(target)@ + download_text(attr@, self.name()),
    {
        match &self.0 {
            None => {
                target.append(" ");
                target.append(attr);
                assert(target@ =~= old(target)@ + download_text(attr@, self.name()));
            },
            Some(name) => {
                let v = encode_attribute(name.as_str());
                push_attr(target, attr, v.as_str());
            },
        }
    }
}

/// Link types of an anchor's `rel` attribute.
#[derive(Debug, Clone, Copy, PartialEq, Eq, Structural)]
pub enum ARel {
    Alternate,
    Author,
    Bookmark,
    External,
    Help,
    License,
    Next,
    NoFollow,
    NoOpener,
    NoReferrer,
    Prev,
    Search,
    Tag,
}

impl ARel {
    pub fn as_str(&self) -> (r: &'static str) {
        match self {
            ARel::Alternate => "alternate",
            ARel::Author => "author",
            ARel::Bookmark => "bookmark",
            ARel::External => "external",
            ARel::Help => "help",
            ARel::License => "license",
            ARel::Next => "next",
            ARel::NoFollow => "nofollow",
            ARel::NoOpener => "noopener",
            ARel::NoReferrer => "noreferrer",
            ARel::Prev => "prev",
            ARel::Search => "search",
            ARel::Tag => "tag",
        }
    }
}

/// Whether a key is kebab-case: non-empty runs of `a`..`z` joined by single
/// hyphens.
pub open spec fn is_kebab(s: Seq<char>) -> bool {
    &&& s.len() > 0
    &&& s[0] != '-'
    &&& s[s.len() - 1] != '-'
    &&& forall|i: int| 0 <= i < s.len() ==> (('a' <= #[trigger] s[i] <= 'z') || s[i] == '-')
    &&& forall|i: int| 0 <= i < s.len() - 1 ==> !(#[trigger] s[i] == '-' && s[i + 1] == '-')
}

/// Checks that `s` is kebab-case.
pub fn check_kebab(s: &str) -> (r: bool)
    ensures
        r == is_kebab(s@),
{
    let n = s.unicode_len();
    if n == 0 || s.get_char(0) == '-' || s.get_char(n - 1) == '-' {
        return false;
    }
    let mut i: usize = 0;
    while i < n
        invariant
            n == s@.len(),
            i <= n,
            forall|j: int| 0 <= j < i ==> (('a' <= #[trigger] s@[j] <= 'z') || s@[j] == '-'),
            forall|j: int| 0 <= j < i && j < n - 1 ==> !(#[trigger] s@[j] == '-' && s@[j + 1] == '-'),
        decreases n - i,
    {
        let c = s.get_char(i);
        if !(('a' <= c && c <= 'z') || c == '-') {
            return false;
        }
        if c == '-' && i + 1 < n && s.get_char(i + 1) == '-' {
            return false;
        }
        i = i + 1;
    }
    true
}

/// ` data-key="value"` for each entry, values escaped.
pub open spec fn data_text(s: Seq<(Seq<char>, Seq<char>)>) -> Seq<char>
    decreases s.len(),
{
    if s.len() == 0 {
        Seq::empty()
    } else {
        data_text(s.drop_last()) + " data-"@ + s.last().0 + "=\""@ + escape_seq(s.last().1) + "\""@
    }
}

/// The `data-*` attributes: kebab-case keys, each with one value.
#[derive(Debug)]
pub struct DataMap {
    data: Vec<(String, String)>,
}

impl DataMap {
    pub closed spec fn entries(&self) -> Seq<(Seq<char>, Seq<char>)> {
        self.data@.map_values(|e: (String, String)| (e.0@, e.1@))
    }

    /// Keys are kebab-case and appear once each.
    pub open spec fn wf(&self) -> bool {
        &&& forall|i: int| 0 <= i < self.entries().len() ==> is_kebab(#[trigger] self.entries()[i].0)
        &&& forall|i: int, j: int|
            0 <= i < j < self.entries().len() ==> #[trigger] self.entries()[i].0 != #[trigger] self.entries()[j].0
    }

    pub fn new() -> (r: DataMap)
        ensures
            r.wf(),
            r.entries().len() == 0,
    {
        let r = DataMap { data: Vec::new() };
        assert(r.entries() =~= Seq::<(Seq<char>, Seq<char>)>::empty());
        r
    }

    /// Sets the value of `key`, which must be kebab-case: a new key goes
    /// last, an existing one keeps its place.
    pub fn insert(&mut self, key: &str, value: &str)
        requires
            old(self).wf(),
            is_kebab(key@),
        ensures
            final(self).wf(),
            (exists|i: int| 0 <= i < old(self).entries().len() && old(self).entries()[i].0 == key@)
                ==> final(self).entries() == old(self).entries().update(
                choose|i: int| 0 <= i < old(self).entries().len() && old(self).entries()[i].0 == key@,
                (key@, value@),
            ),
            !(exists|i: int| 0 <= i < old(self).entries().len() && old(self).entries()[i].0 == key@)
                ==> final(self).entries() == old(self).entries().push((key@, value@)),
    {
        let n = self.data.len();
        let mut i: usize = 0;
        while i < n
            invariant
                n == self.data@.len(),
                self.entries() == old(self).entries(),
                self.wf(),
                is_kebab(key@),
                i <= n,
                forall|j: int| 0 <= j < i ==> self.entries()[j].0 != key@,
            decreases n - i,
        {
            if crate::tags::str_eq(self.data[i].0.as_str(), key) {
                let ghost e = self.entries();
                assert(e[i as int].0 == key@);
                assert forall|j: int| 0 <= j < e.len() && e[j].0 == key@ implies j == i by {
                    if j != i {
                        if j < i {
                            assert(e[j].0 != e[i as int].0);
                        } else {
                            assert(e[i as int].0 != e[j].0);
                        }
                    }
                }
                let k = self.data[i].0.clone();
                self.data.set(i, (k, String::from_str(value)));
                assert(self.entries() =~= e.update(i as int, (key@, value@)));
                return;
            }
            i = i + 1;
        }
        self.data.push((String::from_str(key), String::from_str(value)));
        assert(self.entries() =~= old(self).entries().push((key@, value@)));
    }

    /// Writes ` data-key="value"` for each entry in order, values escaped.
    pub fn render_attr(&self, target: &mut String)
        ensures
            final(target)@ == old(target)@ + data_text(self.entries()),
    {
        let mut i: usize = 0;
        while i < self.data.len()
            invariant
                i <= self.data@.len(),
                target@ == old(target)@ + data_text(self.entries().subrange(0, i as int)),
            decreases self.data@.len() - i,
        {
            let ghost before = target@;
            target.append(" data-");
            target.append(self.data[i].0.as_str());
            target.append("=\"");
            let v = encode_attribute(self.data[i].1.as_str());
            target.append(v.as_str());
            target.append("\"");
            proof {
                let e = self.entries();
                assert(e.subrange(0, i as int + 1).drop_last() =~= e.subrange(0, i as int));
                assert(target@ =~= old(target)@ + data_text(e.subrange(0, i as int + 1)));
            }
            i = i + 1;
        }
        assert(self.entries().subrange(0, self.data@.len() as int) =~= self.entries());
    }
}

} // verus!
