//! The rendering contract that generated code writes through: values are
//! rendered to a text sink with HTML-significant characters escaped, unless
//! wrapped as trusted markup.
use vstd::prelude::*;
use crate::escape::{escape_html, escape_seq, is_special, lemma_escape_safe_text};

verus! {

/// The character of a decimal digit.
pub open spec fn digit_char(d: nat) -> char {
    if d == 0 {
        '0'
    } else if d == 1 {
        '1'
    } else if d == 2 {
        '2'
    } else if d == 3 {
        '3'
    } else if d == 4 {
        '4'
    } else if d == 5 {
        '5'
    } else if d == 6 {
        '6'
    } else if d == 7 {
        '7'
    } else if d == 8 {
        '8'
    } else {
        '9'
    }
}

/// The decimal digits of `n`, with no leading zero.
pub open spec fn decimal_digits(n: nat) -> Seq<char>
    decreases n,
{
    if n < 10 {
        seq![digit_char(n)]
    } else {
        decimal_digits(n / 10).push(digit_char(n % 10))
    }
}

/// The decimal text of an integer: `-` before a negative one.
pub open spec fn decimal(n: int) -> Seq<char> {
    if n < 0 {
        seq!['-'] + decimal_digits((-n) as nat)
    } else {
        decimal_digits(n as nat)
    }
}

proof fn lemma_digits_plain(n: nat)
    ensures
        forall|i: int| 0 <= i < decimal_digits(n).len() ==> !is_special(#[trigger] decimal_digits(n)[i]),
    decreases n,
{
    if n >= 10 {
        lemma_digits_plain(n / 10);
        let p = decimal_digits(n / 10);
        let c = digit_char(n % 10);
        assert forall|i: int| 0 <= i < decimal_digits(n).len() implies !is_special(
            #[trigger] decimal_digits(n)[i],
        ) by {
            if i < p.len() {
                assert(decimal_digits(n)[i] == p[i]);
            } else {
                assert(decimal_digits(n)[i] == c);
            }
        }
    }
}

/// The decimal text of a number holds none of `&`, `<`, `>`, `"`, so
/// escaping leaves it as it is.
pub proof fn lemma_decimal_needs_no_escape(n: int)
    ensures
        escape_seq(decimal(n)) == decimal(n),
{
    let m: nat = if n < 0 { (-n) as nat } else { n as nat };
    lemma_digits_plain(m);
    let d = decimal(n);
    assert forall|i: int| 0 <= i < d.len() implies !is_special(#[trigger] d[i]) by {
        if n < 0 && i > 0 {
            assert(d[i] == decimal_digits(m)[i - 1]);
        }
    }
    lemma_escape_safe_text(d);
}

/// A value that can be rendered as HTML.
pub trait Render {
    /// The text that rendering writes.
    spec fn html(&self) -> Seq<char>;

    /// Appends the rendered text to `out`.
    fn render_to(&self, out: &mut String)
        ensures
            final(out)@ == old(out)@ + self.html(),
    ;

    /// The rendered text, as trusted markup.
    fn render(&self) -> (r: Raw<String>)
        ensures
            r.0@ == self.html(),
    {
        let mut s = String::new();
        self.render_to(&mut s);
        Raw(s)
    }
}

impl Render for String {
    open spec fn html(&self) -> Seq<char> {
        escape_seq(self@)
    }

    fn render_to(&self, out: &mut String) {
        let e = escape_html(self.as_str());
        out.append(e.as_str());
    }
}

impl<'a> Render for &'a str {
    open spec fn html(&self) -> Seq<char> {
        escape_seq((*self)@)
    }

    fn render_to(&self, out: &mut String) {
        let e = escape_html(*self);
        out.append(e.as_str());
    }
}

/// Relies on `ToString` for `i32`, which writes the number through its
/// `Display`: a `-` for a negative number, then its decimal digits with no
/// leading zero.
#[verifier::external_body]
fn i32_to_string(n: i32) -> (r: String)
    ensures
        r@ == decimal(n as int),
{
    n.to_string()
}

/// A number is written as it is, without escaping: its text holds no
/// HTML-significant character (see `lemma_decimal_needs_no_escape`).
impl Render for i32 {
    open spec fn html(&self) -> Seq<char> {
        decimal(*self as int)
    }

    fn render_to(&self, out: &mut String) {
        let t = i32_to_string(*self);
        out.append(t.as_str());
    }
}

/// Relies on `ToString` for `i64`, which writes the number through its
/// `Display`: a `-` for a negative number, then its decimal digits with no
/// leading zero.
#[verifier::external_body]
fn i64_to_string(n: i64) -> (r: String)
    ensures
        r@ == decimal(n as int),
{
    n.to_string()
}

/// A number is written as it is, without escaping: its text holds no
/// HTML-significant character (see `lemma_decimal_needs_no_escape`).
impl Render for i64 {
    open spec fn html(&self) -> Seq<char> {
        decimal(*self as int)
    }

    fn render_to(&self, out: &mut String) {
        let t = i64_to_string(*self);
        out.append(t.as_str());
    }
}

/// Relies on `ToString` for `u32`, which writes the number through its
/// `Display`: a `-` for a negative number, then its decimal digits with no
/// leading zero.
#[verifier::external_body]
fn u32_to_string(n: u32) -> (r: String)
    ensures
        r@ == decimal(n as int),
{
    n.to_string()
}

/// A number is written as it is, without escaping: its text holds no
/// HTML-significant character (see `lemma_decimal_needs_no_escape`).
impl Render for u32 {
    open spec fn html(&self) -> Seq<char> {
        decimal(*self as int)
    }

    fn render_to(&self, out: &mut String) {
        let t = u32_to_string(*self);
        out.append(t.as_str());
    }
}

/// Relies on `ToString` for `u64`, which writes the number through its
/// `Display`: a `-` for a negative number, then its decimal digits with no
/// leading zero.
#[verifier::external_body]
fn u64_to_string(n: u64) -> (r: String)
    ensures
        r@ == decimal(n as int),
{
    n.to_string()
}

/// A number is written as it is, without escaping: its text holds no
/// HTML-significant character (see `lemma_decimal_needs_no_escape`).
impl Render for u64 {
    open spec fn html(&self) -> Seq<char> {
        decimal(*self as int)
    }

    fn render_to(&self, out: &mut String) {
        let t = u64_to_string(*self);
        out.append(t.as_str());
    }
}

/// Relies on `ToString` for `usize`, which writes the number through its
/// `Display`: a `-` for a negative number, then its decimal digits with no
/// leading zero.
#[verifier::external_body]
fn usize_to_string(n: usize) -> (r: String)
    ensures
        r@ == decimal(n as int),
{
    n.to_string()
}

/// A number is written as it is, without escaping: its text holds no
/// HTML-significant character (see `lemma_decimal_needs_no_escape`).
impl Render for usize {
    open spec fn html(&self) -> Seq<char> {
        decimal(*self as int)
    }

    fn render_to(&self, out: &mut String) {
        let t = usize_to_string(*self);
        out.append(t.as_str());
    }
}

/// Text that is rendered with `&`, `<`, `>` and `"` escaped.
#[derive(Clone, Copy, Debug)]
pub struct Escaped<T>(pub T);

impl Render for Escaped<String> {
    open spec fn html(&self) -> Seq<char> {
        escape_seq(self.0@)
    }

    fn render_to(&self, out: &mut String) {
        let e = escape_html(self.0.as_str());
        out.append(e.as_str());
    }
}

impl Escaped<String> {
    /// The escaped text.
    pub fn to_string(&self) -> (r: String)
        ensures
            r@ == escape_seq(self.0@),
    {
        escape_html(self.0.as_str())
    }
}

/// Markup that is rendered as it is, without escaping; for trusted content
/// only.
#[derive(Clone, Copy, Debug)]
pub struct Raw<T>(pub T);

impl Render for Raw<String> {
    open spec fn html(&self) -> Seq<char> {
        self.0@
    }

    fn render_to(&self, out: &mut String) {
        out.append(self.0.as_str());
    }
}

impl<'a> Render for Raw<&'a str> {
    open spec fn html(&self) -> Seq<char> {
        self.0@
    }

    fn render_to(&self, out: &mut String) {
        out.append(self.0);
    }
}

/// A value whose rendering is given by a function.
pub struct RenderFn<F> {
    f: F,
}

impl<F> RenderFn<F> {
    pub closed spec fn func(&self) -> F {
        self.f
    }

    /// The rendering function.
    pub fn get(&self) -> (r: &F)
        ensures
            *r == self.func(),
    {
        &self.f
    }
}

impl<F: Fn(String) -> String> RenderFn<F> {
    /// Renders by handing the text written so far to the function and
    /// keeping the text it hands back.
    pub fn render_to(&self, out: &mut String)
        requires
            forall|s: String| #[trigger] self.func().requires((s,)),
        ensures
            self.func().ensures((*old(out),), *final(out)),
    {
        let mut s = String::new();
        core::mem::swap(out, &mut s);
        *out = (self.f)(s);
    }
}

/// Creates a value whose rendering is given by `f`.
pub fn render_fn<F>(f: F) -> (r: RenderFn<F>)
    ensures
        r.func() == f,
{
    RenderFn { f }
}

} // verus!
