use std::collections::HashMap;

use gen_html::ast::{Node, Template};
use gen_html::error::{Error, Problem};
use gen_html::escape::escape_html;
use gen_html::generate::Stmt;
use gen_html::parse::SyntaxErrorKind;
use gen_html::runtime::{Escaped, Raw, Render};
use gen_html::tags::is_self_closing;
use gen_html::token::{Delimiter, Token};
use gen_html::validate::normalize;
use proc_macro2::{TokenStream, TokenTree};

fn convert(ts: TokenStream, next: &mut usize) -> Vec<Token> {
    let mut out = Vec::new();
    for tt in ts {
        let span = *next;
        *next += 1;
        match tt {
            TokenTree::Ident(i) => out.push(Token::Ident { name: i.to_string(), span }),
            TokenTree::Punct(p) => out.push(Token::Punct { ch: p.as_char(), span }),
            TokenTree::Literal(l) => {
                let text = l.to_string();
                let value = syn::parse_str::<syn::LitStr>(&text).ok().map(|s| s.value());
                out.push(Token::Literal { text, value, span });
            }
            TokenTree::Group(g) => {
                let delimiter = match g.delimiter() {
                    proc_macro2::Delimiter::Parenthesis => Delimiter::Parenthesis,
                    proc_macro2::Delimiter::Brace => Delimiter::Brace,
                    proc_macro2::Delimiter::Bracket => Delimiter::Bracket,
                    proc_macro2::Delimiter::None => Delimiter::Invisible,
                };
                let tokens = convert(g.stream(), next);
                out.push(Token::Group { delimiter, tokens, span });
            }
        }
    }
    out
}

fn tokens(src: &str) -> Vec<Token> {
    let mut next = 0;
    convert(src.parse::<TokenStream>().unwrap(), &mut next)
}

fn parse(src: &str) -> Template {
    Template::parse(tokens(src)).unwrap()
}

fn expand(src: &str) -> Vec<Stmt> {
    parse(src).expand()
}

#[derive(Clone, Debug, PartialEq)]
enum Val {
    Int(i64),
    Str(String),
    Bool(bool),
}

fn text(t: &Token) -> String {
    match t {
        Token::Ident { name, .. } => name.clone(),
        Token::Punct { ch, .. } => ch.to_string(),
        Token::Literal { text, .. } => text.clone(),
        Token::Group { .. } => String::from("(..)"),
    }
}

// A small evaluator for the host expressions these tests use: literals,
// variables and integer ranges.
fn eval(toks: &[Token], env: &HashMap<String, Val>) -> Val {
    assert_eq!(toks.len(), 1, "unsupported expression");
    match &toks[0] {
        Token::Ident { name, .. } if name == "true" => Val::Bool(true),
        Token::Ident { name, .. } if name == "false" => Val::Bool(false),
        Token::Ident { name, .. } => env[name].clone(),
        Token::Literal { value: Some(v), .. } => Val::Str(v.clone()),
        Token::Literal { text, .. } => Val::Int(text.parse().unwrap()),
        t => panic!("unsupported expression {}", text(t)),
    }
}

fn range(toks: &[Token]) -> (Option<i64>, Option<i64>) {
    let s: String = toks.iter().map(text).collect();
    let (lo, hi, incl) = if let Some((a, b)) = s.split_once("..=") {
        (a, b, true)
    } else {
        let (a, b) = s.split_once("..").unwrap();
        (a, b, false)
    };
    let lo = if lo.is_empty() { None } else { Some(lo.parse().unwrap()) };
    let hi = if hi.is_empty() { None } else { Some(hi.parse::<i64>().unwrap() + if incl { 1 } else { 0 }) };
    (lo, hi)
}

fn matches_pat(pat: &[Token], v: &Val) -> bool {
    if pat.len() == 1 {
        if let Token::Ident { name, .. } = &pat[0] {
            if name == "_" {
                return true;
            }
        }
        return eval(pat, &HashMap::new()) == *v;
    }
    let (lo, hi) = range(pat);
    match v {
        Val::Int(x) => lo.map_or(true, |l| *x >= l) && hi.map_or(true, |h| *x < h),
        _ => false,
    }
}

fn run(stmts: &[Stmt], env: &mut HashMap<String, Val>, out: &mut String) {
    for s in stmts {
        match s {
            Stmt::Write(t) => out.push_str(t),
            Stmt::Render(e) => match eval(e, env) {
                Val::Str(s) => Escaped(s).render_to(out),
                Val::Int(i) => out.push_str(&i.to_string()),
                Val::Bool(b) => out.push_str(&b.to_string()),
            },
            Stmt::Error(_) => panic!("template has errors"),
            Stmt::If { cond, then_branch, else_branch } => {
                if eval(cond, env) == Val::Bool(true) {
                    run(then_branch, env, out);
                } else if let Some(b) = else_branch {
                    run(b, env, out);
                }
            }
            Stmt::Match { expr, arms } => {
                let v = eval(expr, env);
                for arm in arms {
                    if matches_pat(&arm.pat, &v) {
                        run(&arm.body, env, out);
                        break;
                    }
                }
            }
            Stmt::For { pat, expr, body } => {
                let name = text(&pat[0]);
                let (lo, hi) = range(expr);
                for i in lo.unwrap()..hi.unwrap() {
                    env.insert(name.clone(), Val::Int(i));
                    run(body, env, out);
                }
            }
        }
    }
}

fn render(src: &str, env: &[(&str, Val)]) -> String {
    let mut env: HashMap<String, Val> = env.iter().map(|(k, v)| (k.to_string(), v.clone())).collect();
    let mut out = String::new();
    run(&expand(src), &mut env, &mut out);
    out
}

fn element_problems(src: &str) -> Vec<Problem> {
    let t = parse(src);
    match &t.nodes[0] {
        Node::Element(e) => match e.validate() {
            Ok(()) => Vec::new(),
            Err(err) => {
                let mut v = Vec::new();
                for p in err.problems() {
                    v.push(match p {
                        Problem::InvalidTag { name, span } => Problem::InvalidTag { name: name.clone(), span: *span },
                        Problem::SelfClosing { name, span } => Problem::SelfClosing { name: name.clone(), span: *span },
                        Problem::NotSelfClosing { name, span } => Problem::NotSelfClosing { name: name.clone(), span: *span },
                        Problem::AttributeSpecifiedMoreThanOnce { key, spans } => {
                            Problem::AttributeSpecifiedMoreThanOnce { key: key.clone(), spans: spans.clone() }
                        }
                    });
                }
                v
            }
        },
        _ => panic!("not an element"),
    }
}

#[test]
fn escaping_leaves_safe_text_alone() {
    assert_eq!(escape_html("plain text, 'quoted' / ok"), "plain text, 'quoted' / ok");
    assert_eq!(escape_html(""), "");
}

#[test]
fn escaping_replaces_each_special_character() {
    assert_eq!(escape_html("&<>\""), "&amp;&lt;&gt;&quot;");
    assert_eq!(escape_html("a<b>&\"c\""), "a&lt;b&gt;&amp;&quot;c&quot;");
    assert_eq!(Escaped(String::from("&<>\"")).to_string(), "&amp;&lt;&gt;&quot;");
}

#[test]
fn runtime_render_escapes_unless_raw() {
    assert_eq!(String::from("<this is escaped>").render().0, "&lt;this is escaped&gt;");
    assert_eq!(Raw(String::from("<div>")).render().0, "<div>");
}

#[test]
fn tag_table_classifies() {
    assert_eq!(is_self_closing("img"), Some(true));
    assert_eq!(is_self_closing("br"), Some(true));
    assert_eq!(is_self_closing("div"), Some(false));
    assert_eq!(is_self_closing("blink"), None);
}

#[test]
fn void_tag_with_body_must_be_self_closing() {
    let p = element_problems(r#"img src: "a.png" { }"#);
    assert_eq!(p.len(), 1);
    assert!(matches!(&p[0], Problem::SelfClosing { name, span: 0 } if name == "img"));
    assert!(element_problems(r#"img src: "a.png";"#).is_empty());
}

#[test]
fn non_void_tag_without_body_cannot_be_self_closing() {
    let p = element_problems("p;");
    assert_eq!(p.len(), 1);
    assert!(matches!(&p[0], Problem::NotSelfClosing { name, .. } if name == "p"));
    assert!(element_problems(r#"p { "x" }"#).is_empty());
}

#[test]
fn unknown_tag_gives_one_invalid_tag_problem() {
    for src in ["blink;", "blink { }", r#"blink a: "1" b;"#] {
        let p = element_problems(src);
        assert_eq!(p.len(), 1);
        assert!(matches!(&p[0], Problem::InvalidTag { name, .. } if name == "blink"));
    }
}

#[test]
fn duplicate_attribute_reports_every_occurrence() {
    let p = element_problems(r#"div foo: "1" bar foo: "2" { }"#);
    assert_eq!(p.len(), 1);
    match &p[0] {
        Problem::AttributeSpecifiedMoreThanOnce { key, spans } => {
            assert_eq!(key, "foo");
            assert_eq!(spans, &vec![1, 5]);
        }
        _ => panic!("wrong problem"),
    }
    assert!(element_problems(r#"div foo: "1" bar baz: "2" { }"#).is_empty());
}

#[test]
fn id_shorthand_and_id_attribute_collide() {
    let p = element_problems(r#"div @"a" id: "b" { }"#);
    assert_eq!(p.len(), 1);
    assert!(matches!(&p[0], Problem::AttributeSpecifiedMoreThanOnce { key, spans } if key == "id" && spans.len() == 2));
    let p = element_problems(r#"div ."a" class: "b" { }"#);
    assert!(matches!(&p[0], Problem::AttributeSpecifiedMoreThanOnce { key, .. } if key == "class"));
}

#[test]
fn problems_are_all_reported_together() {
    let p = element_problems(r#"blink a: "1" a: "2" b b;"#);
    assert_eq!(p.len(), 3);
    assert!(matches!(&p[0], Problem::InvalidTag { .. }));
    assert!(matches!(&p[1], Problem::AttributeSpecifiedMoreThanOnce { key, .. } if key == "a"));
    assert!(matches!(&p[2], Problem::AttributeSpecifiedMoreThanOnce { key, .. } if key == "b"));
}

#[test]
fn attribute_keys_are_normalized() {
    assert_eq!(normalize("data_cooldown"), "data-cooldown");
    assert_eq!(normalize("r#type"), "type");
    assert_eq!(
        render(r#"button data_cooldown: "5s" onclick: "..." { "Click me" }"#, &[]),
        r#"<button data-cooldown="5s" onclick="...">Click me</button>"#
    );
    assert_eq!(render(r#"input r#type: "checkbox" checked;"#, &[]), r#"<input type="checkbox" checked>"#);
}

#[test]
fn static_template_folds_into_one_write() {
    let stmts = expand(r#"div @"my-div" ."a b" { h1 { "Lorem & ipsum" } br; ("x<y") }"#);
    assert_eq!(stmts.len(), 1);
    match &stmts[0] {
        Stmt::Write(t) => assert_eq!(
            t,
            r#"<div id="my-div" class="a b"><h1>Lorem &amp; ipsum</h1><br>x&lt;y</div>"#
        ),
        _ => panic!("expected one write"),
    }
}

#[test]
fn dynamic_expression_splits_the_writes() {
    let stmts = expand(r#"p { "Hello " (name) } img src: (path);"#);
    assert_eq!(stmts.len(), 5);
    assert!(matches!(&stmts[0], Stmt::Write(t) if t == "<p>Hello "));
    assert!(matches!(&stmts[1], Stmt::Render(e) if e.len() == 1));
    assert!(matches!(&stmts[2], Stmt::Write(t) if t == "</p><img src=\""));
    assert!(matches!(&stmts[3], Stmt::Render(_)));
    assert!(matches!(&stmts[4], Stmt::Write(t) if t == "\">"));
}

#[test]
fn for_loop_renders_each_item() {
    assert_eq!(render("for i in 1..=3 { span { (i) } }", &[]), "<span>1</span><span>2</span><span>3</span>");
}

#[test]
fn else_if_chain_picks_last_branch() {
    assert_eq!(render(r#"if false { "a" } else if false { "b" } else { "c" }"#, &[]), "c");
    assert_eq!(render(r#"if false { "a" } else if true { "b" } else { "c" }"#, &[]), "b");
}

#[test]
fn match_arms_keep_their_order() {
    assert_eq!(render(r#"match 23 { 0..18 => "young", 18.. => "adult" }"#, &[]), "adult");
    assert_eq!(render(r#"match 5 { 0..18 => "young", 18.. => "adult" }"#, &[]), "young");
    assert_eq!(render(r#"match 5 { _ => p { "any" } 5 => "five" }"#, &[]), "<p>any</p>");
}

#[test]
fn dynamic_text_is_escaped() {
    let v = Val::Str(String::from("<script>"));
    assert_eq!(render("(s)", &[("s", v.clone())]), "&lt;script&gt;");
    assert_eq!(render(r#"a href: (s) { }"#, &[("s", v)]), r#"<a href="&lt;script&gt;"></a>"#);
}

#[test]
fn match_guard_is_kept() {
    let stmts = expand(r#"match x { n if n > 1 => "big", _ => "small" }"#);
    match &stmts[0] {
        Stmt::Match { arms, .. } => {
            assert_eq!(arms.len(), 2);
            assert_eq!(arms[0].guard.as_ref().map(|g| g.len()), Some(3));
            assert!(arms[1].guard.is_none());
        }
        _ => panic!("expected a match"),
    }
}

#[test]
fn errors_are_embedded_and_generation_goes_on() {
    let stmts = expand(r#"blink { } p { "ok" }"#);
    assert!(matches!(&stmts[0], Stmt::Error(e) if e.problems().len() == 1));
    assert!(matches!(&stmts[1], Stmt::Write(t) if t == "<blink></blink><p>ok</p>"));
}

#[test]
fn diagnostics_name_the_problem() {
    let t = parse(r#"div a b a;"#);
    let err = match &t.nodes[0] {
        Node::Element(e) => e.validate().err().unwrap(),
        _ => panic!(),
    };
    let d = err.diagnostics();
    assert_eq!(d.len(), 3);
    assert_eq!(d[0].message, "`div` cannot be used like a self closing tag");
    assert_eq!(d[1].message, "attribute `a` specified more than once");
    assert_eq!((d[1].span, d[2].span), (1, 3));
    let t = parse("blink; img {}");
    let mut all = Error::empty();
    for n in t.nodes.iter() {
        if let Node::Element(e) = n {
            if let Err(e) = e.validate() {
                all.push(e);
            }
        }
    }
    let d = all.diagnostics();
    assert_eq!(d[0].message, "`blink` is not a valid HTML tag");
    assert_eq!(d[1].message, "`img` must be used like a self closing tag");
    assert!(!all.is_empty());
    assert!(Error::empty().is_empty());
}

fn syntax_error(src: &str) -> SyntaxErrorKind {
    Template::parse(tokens(src)).err().unwrap().kind
}

#[test]
fn syntax_errors_stop_the_parse() {
    assert_eq!(syntax_error("div"), SyntaxErrorKind::ExpectedBodyOrSemicolon);
    assert_eq!(syntax_error("div a: b;"), SyntaxErrorKind::ExpectedValue);
    assert_eq!(syntax_error("if { }"), SyntaxErrorKind::ExpectedExpression);
    assert_eq!(syntax_error("if x"), SyntaxErrorKind::ExpectedBlock);
    assert_eq!(syntax_error("for x { }"), SyntaxErrorKind::ExpectedIn);
    assert_eq!(syntax_error("match x { a b }"), SyntaxErrorKind::ExpectedArrow);
    assert_eq!(syntax_error(r#"match x { a => "1" b => "2" }"#), SyntaxErrorKind::ExpectedComma);
    assert_eq!(syntax_error("; x"), SyntaxErrorKind::ExpectedIdent);
    assert_eq!(syntax_error(r#"match x { , a => "1" }"#), SyntaxErrorKind::ExpectedExpression);
    assert_eq!(syntax_error(r#"match x { a => "1" b => "2" }"#), SyntaxErrorKind::ExpectedComma);
    let e = Template::parse(tokens("div a b ( ) ;")).err().unwrap();
    assert_eq!((e.kind, e.span), (SyntaxErrorKind::ExpectedBodyOrSemicolon, Some(3)));
    assert_eq!(syntax_error("div ();"), SyntaxErrorKind::ExpectedBodyOrSemicolon);
    assert_eq!(syntax_error("div a: ();"), SyntaxErrorKind::ExpectedExpression);
    let e = Template::parse(tokens("p { } div x")).err().unwrap();
    assert_eq!(e.span, None);
    assert_eq!(e.message(), "expected curly braces or semicolon");
}

#[test]
fn arm_comma_may_be_left_out_after_braces_or_at_the_end() {
    assert!(Template::parse(tokens(r#"match x { a => p { } b => "2" }"#)).is_ok());
    assert!(Template::parse(tokens(r#"match x { a => "1", b => "2" }"#)).is_ok());
    assert!(Template::parse(tokens(r#"match x { | a | b => "1", }"#)).is_ok());
}

#[test]
fn condition_stops_at_the_first_brace() {
    let stmts = expand(r#"if a == b { "y" }"#);
    match &stmts[0] {
        Stmt::If { cond, then_branch, else_branch } => {
            assert_eq!(cond.len(), 4);
            assert_eq!(then_branch.len(), 1);
            assert!(else_branch.is_none());
        }
        _ => panic!("expected an if"),
    }
}

#[test]
fn well_formed_template_parses_and_generates() {
    let src = r#"div @"a" .(c) x_y: "1" z { if a { "t" } else if b { br; } else { (v) } match k { 1 | 2 if ok => "n", _ => p { } } for i in xs { (i) } }"#;
    let t = Template::parse(tokens(src));
    assert!(t.is_ok());
    let stmts = t.unwrap().expand();
    assert_eq!(stmts.len(), 7);
    assert!(matches!(&stmts[0], Stmt::Write(w) if w == "<div id=\"a\" class=\""));
    assert!(matches!(&stmts[1], Stmt::Render(_)));
    assert!(matches!(&stmts[2], Stmt::Write(w) if w == "\" x-y=\"1\" z>"));
    assert!(matches!(&stmts[3], Stmt::If { else_branch: Some(_), .. }));
    assert!(matches!(&stmts[4], Stmt::Match { arms, .. } if arms.len() == 2));
    assert!(matches!(&stmts[5], Stmt::For { .. }));
    assert!(matches!(&stmts[6], Stmt::Write(w) if w == "</div>"));
}

#[test]
fn numbers_render_as_decimal_text() {
    let mut out = String::new();
    42i64.render_to(&mut out);
    (-7i32).render_to(&mut out);
    7usize.render_to(&mut out);
    assert_eq!(out, "42-77");
}

#[test]
fn render_fn_writes_through_its_function() {
    let f = gen_html::runtime::render_fn(|mut s: String| {
        s.push_str("<p>");
        String::from("a&b").render_to(&mut s);
        s.push_str("</p>");
        s
    });
    let mut out = String::from("x");
    f.render_to(&mut out);
    assert_eq!(out, "x<p>a&amp;b</p>");
}
