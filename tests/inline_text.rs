use gen_html::attribute::{ClassList, Class, Id, Lang, Target};
use gen_html::inline_text::a;
use gen_html::rel::{AnchorRel, AnchorRelList};
use gen_html::root::page;
use gen_html::Render;

#[test]
fn test_a_element() {
    let a = a("<a> <-- this is escaped")
        .href("<>\"")
        .download()
        .target(Target::Blank);

    let expected = r#"<a href="&lt;&gt;&quot;" download target="_blank">&lt;a&gt; &lt;-- this is escaped</a>"#;

    assert_eq!(a.render_to_string(), expected)
}

#[test]
fn anchor_attributes_render_in_fixed_order() {
    let mut rel = AnchorRelList::new();
    rel.push(AnchorRel::NoOpener);
    rel.push(AnchorRel::External);
    rel.push(AnchorRel::NoOpener);
    let classes = ClassList::new(vec![Class::try_from("x").ok().unwrap(), Class::try_from("y").ok().unwrap()]);
    let html = a("t")
        .rel(rel)
        .lang(Lang::new("e\"n"))
        .class(classes)
        .id(Id::new("main"))
        .data("animal-type", "f&sh")
        .render_to_string();
    assert_eq!(
        html,
        r#"<a id="main" class="x y " data-animal-type="f&amp;sh" lang="e&quot;n" rel="noopener,external">t</a>"#
    );
}

#[test]
fn text_content_keeps_quotes() {
    assert_eq!(a("\"q\" & <b>").render_to_string(), "<a>\"q\" &amp; &lt;b&gt;</a>");
}

#[test]
fn id_and_class_refuse_whitespace() {
    assert!(Id::try_new("a b").is_err());
    assert!(Id::try_new("a\u{3000}b").is_err());
    assert_eq!(Id::try_new("ab").ok().unwrap().as_str(), "ab");
    assert!(Class::try_from("x\ty").is_err());
    assert!(ClassList::new(vec![]).is_empty());
}

#[test]
fn target_values() {
    assert_eq!(Target::Blank.as_str(), "_blank");
    assert_eq!(Target::Self_.as_str(), "_self");
    assert_eq!(Target::Parent.as_str(), "_parent");
    assert_eq!(Target::Top.as_str(), "_top");
}

#[test]
fn page_wraps_title_and_body() {
    let p = page("A & B", a("x").href("/"));
    assert_eq!(
        p.render_to_string(),
        r#"<html><head><title>A &amp; B</title></head><body><a href="/">x</a></body></html>"#
    );
}
