//! The HTML tag table and the identifier words of the host language.
use vstd::prelude::*;

verus! {

/// Compares two strings character by character.
pub fn str_eq(a: &str, b: &str) -> (r: bool)
    ensures
        r == (a@ == b@),
{
    let n = a.unicode_len();
    if n != b.unicode_len() {
        return false;
    }
    let mut i: usize = 0;
    while i < n
        invariant
            n == a@.len(),
            n == b@.len(),
            i <= n,
            forall|j: int| 0 <= j < i ==> a@[j] == b@[j],
        decreases n - i,
    {
        if a.get_char(i) != b.get_char(i) {
            return false;
        }
        i = i + 1;
    }
    assert(a@ =~= b@);
    true
}

/// The HTML elements that have no content and no closing tag.
pub open spec fn is_void_tag_name(s: Seq<char>) -> bool {
    s == "area"@
        || s == "base"@
        || s == "br"@
        || s == "col"@
        || s == "embed"@
        || s == "hr"@
        || s == "img"@
        || s == "input"@
        || s == "link"@
        || s == "meta"@
        || s == "source"@
        || s == "track"@
        || s == "wbr"@
}

/// The HTML elements that have content and a closing tag.
pub open spec fn is_normal_tag_name(s: Seq<char>) -> bool {
    s == "html"@
        || s == "head"@
        || s == "title"@
        || s == "style"@
        || s == "script"@
        || s == "noscript"@
        || s == "body"@
        || s == "article"@
        || s == "section"@
        || s == "nav"@
        || s == "aside"@
        || s == "h1"@
        || s == "h2"@
        || s == "h3"@
        || s == "h4"@
        || s == "h5"@
        || s == "h6"@
        || s == "hgroup"@
        || s == "header"@
        || s == "footer"@
        || s == "address"@
        || s == "main"@
        || s == "search"@
        || s == "p"@
        || s == "pre"@
        || s == "blockquote"@
        || s == "ol"@
        || s == "ul"@
        || s == "menu"@
        || s == "li"@
        || s == "dl"@
        || s == "dt"@
        || s == "dd"@
        || s == "figure"@
        || s == "figcaption"@
        || s == "div"@
        || s == "a"@
        || s == "em"@
        || s == "strong"@
        || s == "small"@
        || s == "s"@
        || s == "cite"@
        || s == "q"@
        || s == "dfn"@
        || s == "abbr"@
        || s == "ruby"@
        || s == "rt"@
        || s == "rp"@
        || s == "data"@
        || s == "time"@
        || s == "code"@
        || s == "var"@
        || s == "samp"@
        || s == "kbd"@
        || s == "sub"@
        || s == "sup"@
        || s == "i"@
        || s == "b"@
        || s == "u"@
        || s == "mark"@
        || s == "bdi"@
        || s == "bdo"@
        || s == "span"@
        || s == "ins"@
        || s == "del"@
        || s == "picture"@
        || s == "iframe"@
        || s == "object"@
        || s == "video"@
        || s == "audio"@
        || s == "map"@
        || s == "table"@
        || s == "caption"@
        || s == "colgroup"@
        || s == "tbody"@
        || s == "thead"@
        || s == "tfoot"@
        || s == "tr"@
        || s == "td"@
        || s == "th"@
        || s == "form"@
        || s == "label"@
        || s == "button"@
        || s == "select"@
        || s == "datalist"@
        || s == "optgroup"@
        || s == "option"@
        || s == "textarea"@
        || s == "output"@
        || s == "progress"@
        || s == "meter"@
        || s == "fieldset"@
        || s == "legend"@
        || s == "details"@
        || s == "summary"@
        || s == "dialog"@
        || s == "slot"@
        || s == "template"@
        || s == "canvas"@
        || s == "svg"@
        || s == "math"@
}

/// The classification of a tag name: `Some(true)` for a void element,
/// `Some(false)` for an element with content, `None` for an unknown name.
pub open spec fn tag_kind(s: Seq<char>) -> Option<bool> {
    if is_void_tag_name(s) {
        Some(true)
    } else if is_normal_tag_name(s) {
        Some(false)
    } else {
        None
    }
}

/// Whether `s` names a void HTML element.
pub fn is_void_tag(s: &str) -> (r: bool)
    ensures
        r == is_void_tag_name(s@),
{
    str_eq(s, "area")
        || str_eq(s, "base")
        || str_eq(s, "br")
        || str_eq(s, "col")
        || str_eq(s, "embed")
        || str_eq(s, "hr")
        || str_eq(s, "img")
        || str_eq(s, "input")
        || str_eq(s, "link")
        || str_eq(s, "meta")
        || str_eq(s, "source")
        || str_eq(s, "track")
        || str_eq(s, "wbr")
}

/// Whether `s` names an HTML element with content.
pub fn is_normal_tag(s: &str) -> (r: bool)
    ensures
        r == is_normal_tag_name(s@),
{
    str_eq(s, "html")
        || str_eq(s, "head")
        || str_eq(s, "title")
        || str_eq(s, "style")
        || str_eq(s, "script")
        || str_eq(s, "noscript")
        || str_eq(s, "body")
        || str_eq(s, "article")
        || str_eq(s, "section")
        || str_eq(s, "nav")
        || str_eq(s, "aside")
        || str_eq(s, "h1")
        || str_eq(s, "h2")
        || str_eq(s, "h3")
        || str_eq(s, "h4")
        || str_eq(s, "h5")
        || str_eq(s, "h6")
        || str_eq(s, "hgroup")
        || str_eq(s, "header")
        || str_eq(s, "footer")
        || str_eq(s, "address")
        || str_eq(s, "main")
        || str_eq(s, "search")
        || str_eq(s, "p")
        || str_eq(s, "pre")
        || str_eq(s, "blockquote")
        || str_eq(s, "ol")
        || str_eq(s, "ul")
        || str_eq(s, "menu")
        || str_eq(s, "li")
        || str_eq(s, "dl")
        || str_eq(s, "dt")
        || str_eq(s, "dd")
        || str_eq(s, "figure")
        || str_eq(s, "figcaption")
        || str_eq(s, "div")
        || str_eq(s, "a")
        || str_eq(s, "em")
        || str_eq(s, "strong")
        || str_eq(s, "small")
        || str_eq(s, "s")
        || str_eq(s, "cite")
        || str_eq(s, "q")
        || str_eq(s, "dfn")
        || str_eq(s, "abbr")
        || str_eq(s, "ruby")
        || str_eq(s, "rt")
        || str_eq(s, "rp")
        || str_eq(s, "data")
        || str_eq(s, "time")
        || str_eq(s, "code")
        || str_eq(s, "var")
        || str_eq(s, "samp")
        || str_eq(s, "kbd")
        || str_eq(s, "sub")
        || str_eq(s, "sup")
        || str_eq(s, "i")
        || str_eq(s, "b")
        || str_eq(s, "u")
        || str_eq(s, "mark")
        || str_eq(s, "bdi")
        || str_eq(s, "bdo")
        || str_eq(s, "span")
        || str_eq(s, "ins")
        || str_eq(s, "del")
        || str_eq(s, "picture")
        || str_eq(s, "iframe")
        || str_eq(s, "object")
        || str_eq(s, "video")
        || str_eq(s, "audio")
        || str_eq(s, "map")
        || str_eq(s, "table")
        || str_eq(s, "caption")
        || str_eq(s, "colgroup")
        || str_eq(s, "tbody")
        || str_eq(s, "thead")
        || str_eq(s, "tfoot")
        || str_eq(s, "tr")
        || str_eq(s, "td")
        || str_eq(s, "th")
        || str_eq(s, "form")
        || str_eq(s, "label")
        || str_eq(s, "button")
        || str_eq(s, "select")
        || str_eq(s, "datalist")
        || str_eq(s, "optgroup")
        || str_eq(s, "option")
        || str_eq(s, "textarea")
        || str_eq(s, "output")
        || str_eq(s, "progress")
        || str_eq(s, "meter")
        || str_eq(s, "fieldset")
        || str_eq(s, "legend")
        || str_eq(s, "details")
        || str_eq(s, "summary")
        || str_eq(s, "dialog")
        || str_eq(s, "slot")
        || str_eq(s, "template")
        || str_eq(s, "canvas")
        || str_eq(s, "svg")
        || str_eq(s, "math")
}

/// Looks `name` up in the tag table: whether it is a known element, and if
/// so whether it is void (written without a body).
pub fn is_self_closing(name: &str) -> (r: Option<bool>)
    ensures
        r == tag_kind(name@),
{
    if is_void_tag(name) {
        Some(true)
    } else if is_normal_tag(name) {
        Some(false)
    } else {
        None
    }
}

/// The reserved words of the host language, which cannot stand as plain identifiers.
pub open spec fn is_keyword_name(s: Seq<char>) -> bool {
    s == "as"@
        || s == "async"@
        || s == "await"@
        || s == "break"@
        || s == "const"@
        || s == "continue"@
        || s == "crate"@
        || s == "dyn"@
        || s == "else"@
        || s == "enum"@
        || s == "false"@
        || s == "fn"@
        || s == "for"@
        || s == "if"@
        || s == "impl"@
        || s == "in"@
        || s == "let"@
        || s == "loop"@
        || s == "match"@
        || s == "mod"@
        || s == "move"@
        || s == "mut"@
        || s == "pub"@
        || s == "ref"@
        || s == "return"@
        || s == "self"@
        || s == "Self"@
        || s == "static"@
        || s == "struct"@
        || s == "super"@
        || s == "trait"@
        || s == "true"@
        || s == "type"@
        || s == "unsafe"@
        || s == "use"@
        || s == "where"@
        || s == "while"@
        || s == "abstract"@
        || s == "become"@
        || s == "box"@
        || s == "do"@
        || s == "final"@
        || s == "macro"@
        || s == "override"@
        || s == "priv"@
        || s == "try"@
        || s == "typeof"@
        || s == "unsized"@
        || s == "virtual"@
        || s == "yield"@
}

/// Whether `s` is a reserved word of the host language.
pub fn is_keyword(s: &str) -> (r: bool)
    ensures
        r == is_keyword_name(s@),
{
    str_eq(s, "as")
        || str_eq(s, "async")
        || str_eq(s, "await")
        || str_eq(s, "break")
        || str_eq(s, "const")
        || str_eq(s, "continue")
        || str_eq(s, "crate")
        || str_eq(s, "dyn")
        || str_eq(s, "else")
        || str_eq(s, "enum")
        || str_eq(s, "false")
        || str_eq(s, "fn")
        || str_eq(s, "for")
        || str_eq(s, "if")
        || str_eq(s, "impl")
        || str_eq(s, "in")
        || str_eq(s, "let")
        || str_eq(s, "loop")
        || str_eq(s, "match")
        || str_eq(s, "mod")
        || str_eq(s, "move")
        || str_eq(s, "mut")
        || str_eq(s, "pub")
        || str_eq(s, "ref")
        || str_eq(s, "return")
        || str_eq(s, "self")
        || str_eq(s, "Self")
        || str_eq(s, "static")
        || str_eq(s, "struct")
        || str_eq(s, "super")
        || str_eq(s, "trait")
        || str_eq(s, "true")
        || str_eq(s, "type")
        || str_eq(s, "unsafe")
        || str_eq(s, "use")
        || str_eq(s, "where")
        || str_eq(s, "while")
        || str_eq(s, "abstract")
        || str_eq(s, "become")
        || str_eq(s, "box")
        || str_eq(s, "do")
        || str_eq(s, "final")
        || str_eq(s, "macro")
        || str_eq(s, "override")
        || str_eq(s, "priv")
        || str_eq(s, "try")
        || str_eq(s, "typeof")
        || str_eq(s, "unsized")
        || str_eq(s, "virtual")
        || str_eq(s, "yield")
}

} // verus!
