use gen_html::attribute::{check_kebab, DataMap, Download};
use gen_html::attrs::{str_lt, Attrs};
use gen_html::rel::{FormRel, FormRelList, LinkRel, LinkRelList};

#[test]
fn attrs_render_in_key_order_and_replace_values() {
    let mut a = Attrs::new();
    a.insert("title", "a \"b\"");
    a.insert("class", "x");
    a.insert("hidden", "");
    a.insert("class", "y<z");
    let mut out = String::new();
    a.render(&mut out);
    assert_eq!(out, r#" class="y&lt;z" hidden title="a &quot;b&quot;""#);
}

#[test]
fn text_order_is_lexicographic() {
    assert!(str_lt("a", "b"));
    assert!(str_lt("ab", "abc"));
    assert!(!str_lt("abc", "ab"));
    assert!(!str_lt("same", "same"));
    assert!(str_lt("", "a"));
    assert!(str_lt("Z", "a"));
}

#[test]
fn data_keys_must_be_kebab_case() {
    assert!(check_kebab("animal-type"));
    assert!(!check_kebab("animal_type"));
    assert!(!check_kebab("-a"));
    assert!(!check_kebab("a--b"));
    assert!(!check_kebab("Abc"));
    assert!(!check_kebab(""));
    let mut d = DataMap::new();
    d.insert("k", "1");
    d.insert("other", "2");
    d.insert("k", "3");
    let mut out = String::new();
    d.render_attr(&mut out);
    assert_eq!(out, r#" data-k="3" data-other="2""#);
}

#[test]
fn rel_lists_skip_repeats() {
    let mut l = LinkRelList::new();
    l.push(LinkRel::StyleSheet);
    l.push(LinkRel::DnsPrefetch);
    l.push(LinkRel::StyleSheet);
    assert_eq!(l.value(), "stylesheet,dns-prefetch");
    let mut out = String::new();
    l.render_attr("rel", &mut out);
    assert_eq!(out, r#" rel="stylesheet,dns-prefetch""#);
    let f = FormRelList::new();
    let mut out = String::new();
    f.render_attr("rel", &mut out);
    assert_eq!(out, "");
    assert_eq!(FormRel::NoReferrer.as_str(), "noreferrer");
}

#[test]
fn download_with_and_without_name() {
    let mut out = String::new();
    Download::new(None).render_attr("download", &mut out);
    Download::new(Some(String::from("a&b.png"))).render_attr("download", &mut out);
    assert_eq!(out, r#" download download="a&amp;b.png""#);
}

#[test]
fn flag_attribute_written_only_when_set() {
    let mut out = String::new();
    gen_html::attribute::render_flag_attr(true, "checked", &mut out);
    gen_html::attribute::render_flag_attr(false, "disabled", &mut out);
    assert_eq!(out, " checked");
}
