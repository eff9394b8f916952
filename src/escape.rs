//! HTML escaping of text.
use vstd::prelude::*;

verus! {

/// The replacement of one character: `&`, `<`, `>` and `"` become entities,
/// every other character stands for itself.
pub open spec fn escape_char(c: char) -> Seq<char> {
    if c == '&' {
        seq!['&', 'a', 'm', 'p', ';']
    } else if c == '<' {
        seq!['&', 'l', 't', ';']
    } else if c == '>' {
        seq!['&', 'g', 't', ';']
    } else if c == '"' {
        seq!['&', 'q', 'u', 'o', 't', ';']
    } else {
        seq![c]
    }
}

/// The escaped form of a whole text: each character replaced in order.
pub open spec fn escape_seq(s: Seq<char>) -> Seq<char>
    decreases s.len(),
{
    if s.len() == 0 {
        Seq::empty()
    } else {
        escape_seq(s.drop_last()) + escape_char(s.last())
    }
}

/// A character that escaping changes.
pub open spec fn is_special(c: char) -> bool {
    c == '&' || c == '<' || c == '>' || c == '"'
}

/// The escaped form of text between tags: `&`, `<` and `>` become entities,
/// `"` stays as it is.
pub open spec fn escape_text_seq(s: Seq<char>) -> Seq<char>
    decreases s.len(),
{
    if s.len() == 0 {
        Seq::empty()
    } else if s.last() == '"' {
        escape_text_seq(s.drop_last()).push('"')
    } else {
        escape_text_seq(s.drop_last()) + escape_char(s.last())
    }
}

/// Relies on `html_escape::encode_text`, which replaces `&`, `<` and `>` by
/// `&amp;`, `&lt;` and `&gt;` and keeps every other character.
#[verifier::external_body]
pub(crate) fn encode_text(s: &str) -> (r: String)
    ensures
        r@ == escape_text_seq(s@),
{
    html_escape::encode_text(s).into_owned()
}

/// Relies on `html_escape::encode_double_quoted_attribute`, which replaces
/// `&`, `<`, `>` and `"` by `&amp;`, `&lt;`, `&gt;` and `&quot;` and keeps
/// every other character.
#[verifier::external_body]
pub(crate) fn encode_attribute(s: &str) -> (r: String)
    ensures
        r@ == escape_seq(s@),
{
    html_escape::encode_double_quoted_attribute(s).into_owned()
}

/// Appends `c` to `s` (relies on `String::push`, which appends one character).
#[verifier::external_body]
pub(crate) fn push_char(s: &mut String, c: char)
    ensures
        final(s)@ == old(s)@.push(c),
{
    s.push(c)
}

/// Escapes the HTML-significant characters `&`, `<`, `>` and `"` of `s`.
pub fn escape_html(s: &str) -> (r: String)
    ensures
        r@ == escape_seq(s@),
{
    let mut buf = String::new();
    let n = s.unicode_len();
    let mut i: usize = 0;
    while i < n
        invariant
            n == s@.len(),
            i <= n,
            buf@ == escape_seq(s@.subrange(0, i as int)),
        decreases n - i,
    {
        let ch = s.get_char(i);
        proof {
            let p = s@.subrange(0, i as int + 1);
            assert(p.drop_last() =~= s@.subrange(0, i as int));
            reveal_strlit("&amp;");
            reveal_strlit("&lt;");
            reveal_strlit("&gt;");
            reveal_strlit("&quot;");
        }
        if ch == '&' {
            buf.append("&amp;");
        } else if ch == '<' {
            buf.append("&lt;");
        } else if ch == '>' {
            buf.append("&gt;");
        } else if ch == '"' {
            buf.append("&quot;");
        } else {
            push_char(&mut buf, ch);
        }
        assert(buf@ =~= escape_seq(s@.subrange(0, i as int + 1)));
        i = i + 1;
    }
    assert(s@.subrange(0, n as int) =~= s@);
    buf
}

/// Escaping works character by character: the escape of a concatenation is
/// the concatenation of the escapes.
pub proof fn lemma_escape_concat(a: Seq<char>, b: Seq<char>)
    ensures
        escape_seq(a + b) == escape_seq(a) + escape_seq(b),
    decreases b.len(),
{
    if b.len() == 0 {
        assert(a + b =~= a);
        assert(escape_seq(b) =~= Seq::<char>::empty());
        assert(escape_seq(a) + escape_seq(b) =~= escape_seq(a));
    } else {
        assert((a + b).drop_last() =~= a + b.drop_last());
        lemma_escape_concat(a, b.drop_last());
        assert(escape_seq(a) + escape_seq(b) =~= escape_seq(a) + escape_seq(b.drop_last())
            + escape_char(b.last()));
    }
}

/// Text without any of `&`, `<`, `>`, `"` is left unchanged by escaping.
pub proof fn lemma_escape_safe_text(s: Seq<char>)
    requires
        forall|i: int| 0 <= i < s.len() ==> !is_special(#[trigger] s[i]),
    ensures
        escape_seq(s) == s,
    decreases s.len(),
{
    if s.len() > 0 {
        let p = s.drop_last();
        assert forall|i: int| 0 <= i < p.len() implies !is_special(#[trigger] p[i]) by {
            assert(p[i] == s[i]);
        }
        lemma_escape_safe_text(p);
        assert(!is_special(s[s.len() - 1]));
        assert(escape_seq(s) =~= s);
    }
}

/// Each of `&`, `<`, `>`, `"` is replaced by its entity, in order.
pub proof fn lemma_escape_specials()
    ensures
        escape_seq(seq!['&', '<', '>', '"']) == seq![
            '&', 'a', 'm', 'p', ';', '&', 'l', 't', ';', '&', 'g', 't', ';', '&', 'q', 'u', 'o', 't', ';'
        ],
{
    let s = seq!['&', '<', '>', '"'];
    let s1 = s.drop_last().drop_last().drop_last();
    let s2 = s.drop_last().drop_last();
    let s3 = s.drop_last();
    assert(s1.drop_last() =~= Seq::<char>::empty());
    assert(s1 =~= seq!['&']);
    assert(s2 =~= seq!['&', '<']);
    assert(s3 =~= seq!['&', '<', '>']);
    assert(escape_seq(Seq::<char>::empty()) =~= Seq::<char>::empty());
    assert(escape_seq(s1) =~= seq!['&', 'a', 'm', 'p', ';']);
    assert(escape_seq(s2) =~= seq!['&', 'a', 'm', 'p', ';', '&', 'l', 't', ';']);
    assert(escape_seq(s3) =~= seq!['&', 'a', 'm', 'p', ';', '&', 'l', 't', ';', '&', 'g', 't', ';']);
    assert(escape_seq(s) =~= seq![
        '&', 'a', 'm', 'p', ';', '&', 'l', 't', ';', '&', 'g', 't', ';', '&', 'q', 'u', 'o', 't', ';'
    ]);
}

} // verus!
