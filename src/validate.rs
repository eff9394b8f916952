//! Checking one element against the tag table and for repeated attributes.
use vstd::prelude::*;
use crate::ast::{Attribute, Element, Expr};
use crate::error::{Error, Problem, ProblemView};
use crate::escape::push_char;
use crate::tags::{is_self_closing, str_eq, tag_kind};

verus! {

/// An identifier without its raw prefix `r#`.
pub open spec fn strip_raw(s: Seq<char>) -> Seq<char> {
    if s.len() >= 2 && s[0] == 'r' && s[1] == '#' {
        s.subrange(2, s.len() as int)
    } else {
        s
    }
}

/// The attribute name that an identifier stands for: raw prefix removed and
/// every `_` turned into `-`.
pub open spec fn normalize_key(s: Seq<char>) -> Seq<char> {
    Seq::new(strip_raw(s).len(), |i: int| if strip_raw(s)[i] == '_' { '-' } else { strip_raw(s)[i] })
}

/// The source span and the normalised key of an attribute; the shorthands
/// count as `id` and `class`.
pub open spec fn attr_key(a: Attribute) -> (usize, Seq<char>) {
    match a {
        Attribute::Id { value, .. } => (value.spec_span(), "id"@),
        Attribute::Class { value, .. } => (value.spec_span(), "class"@),
        Attribute::KeyValue { key, span, .. } => (span, normalize_key(key@)),
    }
}

pub open spec fn keys_of(s: Seq<Attribute>) -> Seq<(usize, Seq<char>)> {
    s.map_values(|a: Attribute| attr_key(a))
}

/// The spans, in order, of the keys equal to `k`.
pub open spec fn spans_with(ks: Seq<(usize, Seq<char>)>, k: Seq<char>) -> Seq<usize>
    decreases ks.len(),
{
    if ks.len() == 0 {
        Seq::empty()
    } else if ks.last().1 == k {
        spans_with(ks.drop_last(), k).push(ks.last().0)
    } else {
        spans_with(ks.drop_last(), k)
    }
}

/// Whether position `i` holds the first occurrence of its key.
pub open spec fn first_occurrence(ks: Seq<(usize, Seq<char>)>, i: int) -> bool {
    forall|j: int| 0 <= j < i ==> ks[j].1 != ks[i].1
}

/// One problem for each key that occurs more than once among the first `n`
/// keys (counted by its first occurrence), with all spans of that key.
pub open spec fn duplicate_problems(ks: Seq<(usize, Seq<char>)>, n: int) -> Seq<ProblemView>
    decreases n,
{
    if n <= 0 {
        Seq::empty()
    } else if first_occurrence(ks, n - 1) && spans_with(ks, ks[n - 1].1).len() >= 2 {
        duplicate_problems(ks, n - 1).push(
            ProblemView::AttributeSpecifiedMoreThanOnce(ks[n - 1].1, spans_with(ks, ks[n - 1].1)),
        )
    } else {
        duplicate_problems(ks, n - 1)
    }
}

/// The repeated-key problems of an element's attribute list.
pub open spec fn attribute_problems(e: Element) -> Seq<ProblemView> {
    duplicate_problems(keys_of(e.attr_list@), e.attr_list@.len() as int)
}

/// The problem, if any, of the tag name against the tag table and the
/// presence of a body.
pub open spec fn tag_problems(e: Element) -> Seq<ProblemView> {
    match tag_kind(e.name@) {
        Some(true) => if e.body is Some {
            seq![ProblemView::SelfClosing(e.name@, e.span)]
        } else {
            Seq::empty()
        },
        Some(false) => if e.body is None {
            seq![ProblemView::NotSelfClosing(e.name@, e.span)]
        } else {
            Seq::empty()
        },
        None => seq![ProblemView::InvalidTag(e.name@, e.span)],
    }
}

/// Every problem of an element.
pub open spec fn element_problems(e: Element) -> Seq<ProblemView> {
    tag_problems(e) + attribute_problems(e)
}

/// The attribute name of an identifier (see `normalize_key`).
pub fn normalize(s: &str) -> (r: String)
    ensures
        r@ == normalize_key(s@),
{
    let n = s.unicode_len();
    let mut start: usize = 0;
    if n >= 2 && s.get_char(0) == 'r' && s.get_char(1) == '#' {
        start = 2;
    }
    let ghost base = strip_raw(s@);
    assert(base =~= s@.subrange(start as int, n as int));
    let mut r = String::new();
    let mut i: usize = start;
    while i < n
        invariant
            n == s@.len(),
            start <= i <= n,
            base == s@.subrange(start as int, n as int),
            r@ =~= normalize_key(s@).subrange(0, i - start),
            normalize_key(s@).len() == n - start,
        decreases n - i,
    {
        let c = s.get_char(i);
        if c == '_' {
            push_char(&mut r, '-');
        } else {
            push_char(&mut r, c);
        }
        i = i + 1;
    }
    assert(r@ =~= normalize_key(s@));
    r
}

impl Attribute {
    /// The source span and the normalised key of the attribute.
    pub fn key(&self) -> (r: (usize, String))
        ensures
            (r.0, r.1@) == attr_key(*self),
    {
        match self {
            Attribute::Id { value, .. } => (value.span(), String::from_str("id")),
            Attribute::Class { value, .. } => (value.span(), String::from_str("class")),
            Attribute::KeyValue { key, span, .. } => (*span, normalize(key.as_str())),
        }
    }

    /// The value of the attribute, if it has one.
    pub fn value(&self) -> (r: Option<&Expr>)
        ensures
            r == match *self {
                Attribute::Id { value, .. } => Some(&value),
                Attribute::Class { value, .. } => Some(&value),
                Attribute::KeyValue { value, .. } => match value {
                    Some(v) => Some(&v),
                    None => None,
                },
            },
    {
        match self {
            Attribute::Id { value, .. } => Some(value),
            Attribute::Class { value, .. } => Some(value),
            Attribute::KeyValue { value, .. } => match value {
                Some(v) => Some(v),
                None => None,
            },
        }
    }
}

proof fn lemma_spans_with_prefix(ks: Seq<(usize, Seq<char>)>, k: Seq<char>, j: int)
    requires
        0 <= j < ks.len(),
    ensures
        spans_with(ks.subrange(0, j + 1), k) == if ks[j].1 == k {
            spans_with(ks.subrange(0, j), k).push(ks[j].0)
        } else {
            spans_with(ks.subrange(0, j), k)
        },
{
    assert(ks.subrange(0, j + 1).drop_last() =~= ks.subrange(0, j));
}

impl Element {
    /// The normalised keys of the attributes, in order, or an error with one
    /// problem for each key given more than once.
    pub fn attributes(&self) -> (r: Result<Vec<String>, Error>)
        ensures
            r is Ok <==> attribute_problems(*self).len() == 0,
            r matches Ok(v) ==> v@.len() == self.attr_list@.len() && forall|i: int|
                0 <= i < v@.len() ==> #[trigger] v@[i]@ == attr_key(self.attr_list@[i]).1,
            r matches Err(e) ==> e@ == attribute_problems(*self),
    {
        let ghost ks = keys_of(self.attr_list@);
        let n = self.attr_list.len();
        let mut keys: Vec<String> = Vec::new();
        let mut spans: Vec<usize> = Vec::new();
        let mut i: usize = 0;
        while i < n
            invariant
                n == self.attr_list@.len(),
                ks == keys_of(self.attr_list@),
                i <= n,
                keys@.len() == i,
                spans@.len() == i,
                forall|j: int| 0 <= j < i ==> #[trigger] keys@[j]@ == ks[j].1 && spans@[j] == ks[j].0,
            decreases n - i,
        {
            let (sp, k) = self.attr_list[i].key();
            keys.push(k);
            spans.push(sp);
            i = i + 1;
        }
        let mut error = Error::empty();
        let mut i: usize = 0;
        while i < n
            invariant
                n == self.attr_list@.len(),
                ks == keys_of(self.attr_list@),
                ks.len() == n,
                i <= n,
                keys@.len() == n,
                spans@.len() == n,
                forall|j: int| 0 <= j < n ==> #[trigger] keys@[j]@ == ks[j].1 && spans@[j] == ks[j].0,
                error@ == duplicate_problems(ks, i as int),
            decreases n - i,
        {
            let mut first = true;
            let mut j: usize = 0;
            while j < i
                invariant
                    i < n,
                    keys@.len() == n,
                    ks.len() == n,
                    forall|j: int| 0 <= j < n ==> #[trigger] keys@[j]@ == ks[j].1,
                    j <= i,
                    first == forall|m: int| 0 <= m < j ==> ks[m].1 != ks[i as int].1,
                decreases i - j,
            {
                if str_eq(keys[j].as_str(), keys[i].as_str()) {
                    first = false;
                }
                j = j + 1;
            }
            if first {
                let mut same: Vec<usize> = Vec::new();
                let mut j: usize = 0;
                while j < n
                    invariant
                        i < n,
                        keys@.len() == n,
                        spans@.len() == n,
                        ks.len() == n,
                        forall|j: int| 0 <= j < n ==> #[trigger] keys@[j]@ == ks[j].1 && spans@[j] == ks[j].0,
                        j <= n,
                        same@ == spans_with(ks.subrange(0, j as int), ks[i as int].1),
                    decreases n - j,
                {
                    proof {
                        lemma_spans_with_prefix(ks, ks[i as int].1, j as int);
                    }
                    if str_eq(keys[j].as_str(), keys[i].as_str()) {
                        same.push(spans[j]);
                    }
                    j = j + 1;
                }
                assert(ks.subrange(0, n as int) =~= ks);
                if same.len() >= 2 {
                    let key = keys[i].clone();
                    error.push(Error::single(Problem::AttributeSpecifiedMoreThanOnce { key, spans: same }));
                }
            }
            i = i + 1;
        }
        if error.is_empty() {
            Ok(keys)
        } else {
            Err(error)
        }
    }

    /// Checks the element: its tag against the tag table and the presence of
    /// a body, and its attributes for repeated keys. Every problem found is
    /// reported, tag problems first.
    pub fn validate(&self) -> (r: Result<(), Error>)
        ensures
            r is Ok <==> element_problems(*self).len() == 0,
            r matches Err(e) ==> e@ == element_problems(*self),
    {
        let mut error = Error::empty();
        match is_self_closing(self.name.as_str()) {
            Some(true) => {
                if self.body.is_some() {
                    error.push(Error::single(Problem::SelfClosing { name: self.name.clone(), span: self.span }));
                }
            },
            Some(false) => {
                if self.body.is_none() {
                    error.push(Error::single(Problem::NotSelfClosing { name: self.name.clone(), span: self.span }));
                }
            },
            None => {
                error.push(Error::single(Problem::InvalidTag { name: self.name.clone(), span: self.span }));
            },
        }
        assert(error@ =~= tag_problems(*self));
        match self.attributes() {
            Ok(_) => {},
            Err(e) => error.push(e),
        }
        assert(error@ =~= element_problems(*self));
        if error.is_empty() {
            Ok(())
        } else {
            Err(error)
        }
    }
}

/// A void element with a body is reported as such, and without a body it has
/// no tag problem; an element with content and no body is reported as such,
/// and with a body it has no tag problem.
pub proof fn lemma_void_enforcement(e: Element)
    ensures
        tag_kind(e.name@) == Some(true) && e.body is Some ==> tag_problems(e) == seq![
            ProblemView::SelfClosing(e.name@, e.span),
        ],
        tag_kind(e.name@) == Some(true) && e.body is None ==> tag_problems(e).len() == 0,
        tag_kind(e.name@) == Some(false) && e.body is None ==> tag_problems(e) == seq![
            ProblemView::NotSelfClosing(e.name@, e.span),
        ],
        tag_kind(e.name@) == Some(false) && e.body is Some ==> tag_problems(e).len() == 0,
{
}

proof fn lemma_duplicates_are_attribute_problems(ks: Seq<(usize, Seq<char>)>, n: int)
    ensures
        forall|i: int|
            0 <= i < duplicate_problems(ks, n).len() ==> #[trigger] duplicate_problems(
                ks,
                n,
            )[i] is AttributeSpecifiedMoreThanOnce,
    decreases n,
{
    if n > 0 {
        lemma_duplicates_are_attribute_problems(ks, n - 1);
    }
}

/// An element whose tag is not in the tag table has exactly one invalid-tag
/// problem, whatever its attributes and body, and it comes first.
pub proof fn lemma_unknown_tag(e: Element)
    requires
        tag_kind(e.name@) is None,
    ensures
        element_problems(e).len() >= 1,
        element_problems(e)[0] == ProblemView::InvalidTag(e.name@, e.span),
        forall|i: int|
            1 <= i < element_problems(e).len() ==> !(#[trigger] element_problems(e)[i] is InvalidTag),
{
    let ks = keys_of(e.attr_list@);
    lemma_duplicates_are_attribute_problems(ks, e.attr_list@.len() as int);
    assert forall|i: int| 1 <= i < element_problems(e).len() implies !(
    #[trigger] element_problems(e)[i] is InvalidTag) by {
        assert(element_problems(e)[i] == attribute_problems(e)[i - 1]);
    }
}

proof fn lemma_no_duplicates_prefix(ks: Seq<(usize, Seq<char>)>, n: int)
    requires
        0 <= n <= ks.len(),
        forall|i: int, j: int| 0 <= i < j < ks.len() ==> ks[i].1 != ks[j].1,
    ensures
        duplicate_problems(ks, n).len() == 0,
    decreases n,
{
    if n > 0 {
        lemma_no_duplicates_prefix(ks, n - 1);
        lemma_spans_with_unique(ks, ks[n - 1].1, n - 1);
    }
}

/// A key that occurs at one position only has one span.
proof fn lemma_spans_with_unique(ks: Seq<(usize, Seq<char>)>, k: Seq<char>, p: int)
    requires
        0 <= p < ks.len(),
        ks[p].1 == k,
        forall|i: int| 0 <= i < ks.len() && i != p ==> ks[i].1 != k,
    ensures
        spans_with(ks, k) == seq![ks[p].0],
    decreases ks.len(),
{
    if p == ks.len() - 1 {
        lemma_spans_with_absent(ks.drop_last(), k);
        assert(spans_with(ks, k) =~= seq![ks[p].0]);
    } else {
        lemma_spans_with_unique(ks.drop_last(), k, p);
    }
}

proof fn lemma_spans_with_absent(ks: Seq<(usize, Seq<char>)>, k: Seq<char>)
    requires
        forall|i: int| 0 <= i < ks.len() ==> ks[i].1 != k,
    ensures
        spans_with(ks, k).len() == 0,
    decreases ks.len(),
{
    if ks.len() > 0 {
        lemma_spans_with_absent(ks.drop_last(), k);
    }
}

/// An element whose attribute keys are all distinct has no attribute
/// problem.
pub proof fn lemma_distinct_keys_no_problem(e: Element)
    requires
        forall|i: int, j: int|
            0 <= i < j < e.attr_list@.len() ==> attr_key(e.attr_list@[i]).1 != attr_key(
                e.attr_list@[j],
            ).1,
    ensures
        attribute_problems(e).len() == 0,
{
    let ks = keys_of(e.attr_list@);
    assert forall|i: int, j: int| 0 <= i < j < ks.len() implies ks[i].1 != ks[j].1 by {
        assert(ks[i] == attr_key(e.attr_list@[i]));
        assert(ks[j] == attr_key(e.attr_list@[j]));
    }
    lemma_no_duplicates_prefix(ks, ks.len() as int);
}

/// The problems among `ps` that report key `k` as repeated.
pub open spec fn reports_for(ps: Seq<ProblemView>, k: Seq<char>) -> Seq<ProblemView>
    decreases ps.len(),
{
    if ps.len() == 0 {
        Seq::empty()
    } else if ps.last() matches ProblemView::AttributeSpecifiedMoreThanOnce(k2, _) && k2 == k {
        reports_for(ps.drop_last(), k).push(ps.last())
    } else {
        reports_for(ps.drop_last(), k)
    }
}

proof fn lemma_spans_with_witness(ks: Seq<(usize, Seq<char>)>, k: Seq<char>)
    requires
        spans_with(ks, k).len() > 0,
    ensures
        exists|i: int| 0 <= i < ks.len() && ks[i].1 == k,
    decreases ks.len(),
{
    if ks.last().1 != k {
        lemma_spans_with_witness(ks.drop_last(), k);
        let i = choose|i: int| 0 <= i < ks.len() - 1 && ks.drop_last()[i].1 == k;
        assert(ks[i].1 == k);
    } else {
        assert(ks[ks.len() - 1].1 == k);
    }
}

proof fn lemma_reports_prefix(ks: Seq<(usize, Seq<char>)>, n: int, k: Seq<char>)
    requires
        0 <= n <= ks.len(),
    ensures
        reports_for(duplicate_problems(ks, n), k) == if (exists|i: int| 0 <= i < n && ks[i].1 == k)
            && spans_with(ks, k).len() >= 2 {
            seq![ProblemView::AttributeSpecifiedMoreThanOnce(k, spans_with(ks, k))]
        } else {
            Seq::empty()
        },
    decreases n,
{
    if n > 0 {
        lemma_reports_prefix(ks, n - 1, k);
        let prev = duplicate_problems(ks, n - 1);
        let kn = ks[n - 1].1;
        if first_occurrence(ks, n - 1) && spans_with(ks, kn).len() >= 2 {
            let p = ProblemView::AttributeSpecifiedMoreThanOnce(kn, spans_with(ks, kn));
            assert(prev.push(p).drop_last() =~= prev);
            if kn == k {
                assert(!(exists|i: int| 0 <= i < n - 1 && ks[i].1 == k));
                assert(reports_for(prev, k) =~= Seq::<ProblemView>::empty());
                assert(reports_for(prev.push(p), k) =~= seq![p]);
            } else {
                assert((exists|i: int| 0 <= i < n && ks[i].1 == k) == (exists|i: int|
                    0 <= i < n - 1 && ks[i].1 == k)) by {
                    if exists|i: int| 0 <= i < n && ks[i].1 == k {
                        let i = choose|i: int| 0 <= i < n && ks[i].1 == k;
                        assert(i != n - 1);
                    }
                }
            }
        } else {
            if kn == k {
                if !first_occurrence(ks, n - 1) {
                    let j = choose|j: int| 0 <= j < n - 1 && #[trigger] ks[j].1 == ks[n - 1].1;
                    assert(ks[j].1 == k);
                    assert(exists|i: int| 0 <= i < n - 1 && ks[i].1 == k);
                }
            } else {
                assert((exists|i: int| 0 <= i < n && ks[i].1 == k) == (exists|i: int|
                    0 <= i < n - 1 && ks[i].1 == k)) by {
                    if exists|i: int| 0 <= i < n && ks[i].1 == k {
                        let i = choose|i: int| 0 <= i < n && ks[i].1 == k;
                        assert(i != n - 1);
                    }
                }
            }
        }
    }
}

/// A key given more than once is reported by exactly one problem, which
/// carries every span of that key in order; a key given at most once is not
/// reported.
pub proof fn lemma_duplicate_reported_once(e: Element, k: Seq<char>)
    ensures
        reports_for(attribute_problems(e), k) == if spans_with(keys_of(e.attr_list@), k).len() >= 2 {
            seq![
                ProblemView::AttributeSpecifiedMoreThanOnce(k, spans_with(keys_of(e.attr_list@), k)),
            ]
        } else {
            Seq::empty()
        },
{
    let ks = keys_of(e.attr_list@);
    lemma_reports_prefix(ks, ks.len() as int, k);
    if spans_with(ks, k).len() >= 2 {
        lemma_spans_with_witness(ks, k);
    }
}

/// The `@` shorthand and an attribute written `id`, like the `.` shorthand
/// and one written `class`, have the same key, so one element holding both
/// repeats it.
pub proof fn lemma_shorthands_share_keys(a: Attribute, b: Attribute)
    requires
        b is KeyValue,
    ensures
        a is Id && b->KeyValue_key@ == "id"@ ==> attr_key(a).1 == attr_key(b).1,
        a is Class && b->KeyValue_key@ == "class"@ ==> attr_key(a).1 == attr_key(b).1,
{
    reveal_strlit("id");
    reveal_strlit("class");
    assert(normalize_key("id"@) =~= "id"@);
    assert(normalize_key("class"@) =~= "class"@);
}

/// Normalising removes every underscore, and otherwise keeps an identifier
/// without the raw prefix as it is, character for character.
pub proof fn lemma_normalize_key(s: Seq<char>)
    ensures
        forall|i: int| 0 <= i < normalize_key(s).len() ==> #[trigger] normalize_key(s)[i] != '_',
        !(s.len() >= 2 && s[0] == 'r' && s[1] == '#') ==> normalize_key(s).len() == s.len()
            && forall|i: int|
            0 <= i < s.len() && s[i] != '_' ==> #[trigger] normalize_key(s)[i] == s[i],
        !(s.len() >= 2 && s[0] == 'r' && s[1] == '#') ==> forall|i: int|
            0 <= i < s.len() && s[i] == '_' ==> #[trigger] normalize_key(s)[i] == '-',
{
}

} // verus!
