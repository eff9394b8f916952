//! A set of attributes, each key once, written in the order of their keys.
use vstd::prelude::*;
use crate::escape::{encode_attribute, escape_seq};
use crate::tags::str_eq;

verus! {

/// Lexicographic order on texts, character by character; a proper prefix
/// comes first. This is the order of `str`.
pub open spec fn text_lt(a: Seq<char>, b: Seq<char>) -> bool
    decreases a.len(),
{
    if a.len() == 0 {
        b.len() > 0
    } else if b.len() == 0 {
        false
    } else if a[0] != b[0] {
        a[0] < b[0]
    } else {
        text_lt(a.drop_first(), b.drop_first())
    }
}

pub proof fn lemma_text_lt_transitive(a: Seq<char>, b: Seq<char>, c: Seq<char>)
    requires
        text_lt(a, b),
        text_lt(b, c),
    ensures
        text_lt(a, c),
    decreases a.len(),
{
    if a.len() > 0 && b.len() > 0 && c.len() > 0 && a[0] == b[0] && b[0] == c[0] {
        lemma_text_lt_transitive(a.drop_first(), b.drop_first(), c.drop_first());
    }
}

pub proof fn lemma_text_lt_irreflexive(a: Seq<char>)
    ensures
        !text_lt(a, a),
    decreases a.len(),
{
    if a.len() > 0 {
        lemma_text_lt_irreflexive(a.drop_first());
    }
}

pub proof fn lemma_text_lt_total(a: Seq<char>, b: Seq<char>)
    requires
        a != b,
    ensures
        text_lt(a, b) || text_lt(b, a),
    decreases a.len(),
{
    if a.len() > 0 && b.len() > 0 && a[0] == b[0] {
        if a.drop_first() == b.drop_first() {
            assert(a =~= seq![a[0]] + a.drop_first());
            assert(b =~= seq![b[0]] + b.drop_first());
        }
        lemma_text_lt_total(a.drop_first(), b.drop_first());
    } else if a.len() == 0 && b.len() == 0 {
        assert(a =~= b);
    }
}

/// Compares two texts in the order `text_lt`.
pub fn str_lt(a: &str, b: &str) -> (r: bool)
    ensures
        r == text_lt(a@, b@),
{
    let na = a.unicode_len();
    let nb = b.unicode_len();
    let mut i: usize = 0;
    assert(a@.subrange(0, na as int) =~= a@);
    assert(b@.subrange(0, nb as int) =~= b@);
    while i < na && i < nb
        invariant
            na == a@.len(),
            nb == b@.len(),
            i <= na,
            i <= nb,
            text_lt(a@, b@) == text_lt(a@.subrange(i as int, na as int), b@.subrange(i as int, nb as int)),
        decreases na - i,
    {
        let ca = a.get_char(i);
        let cb = b.get_char(i);
        let ghost sa = a@.subrange(i as int, na as int);
        let ghost sb = b@.subrange(i as int, nb as int);
        assert(sa[0] == ca && sb[0] == cb);
        if ca != cb {
            return ca < cb;
        }
        assert(sa.drop_first() =~= a@.subrange(i + 1, na as int));
        assert(sb.drop_first() =~= b@.subrange(i + 1, nb as int));
        i = i + 1;
    }
    na < nb
}

/// ` key` for an empty value, ` key="value"` with the value escaped
/// otherwise, for each entry in order.
pub open spec fn attrs_text(s: Seq<(Seq<char>, Seq<char>)>) -> Seq<char>
    decreases s.len(),
{
    if s.len() == 0 {
        Seq::empty()
    } else {
        attrs_text(s.drop_last()) + " "@ + s.last().0 + if s.last().1.len() == 0 {
            Seq::empty()
        } else {
            "=\""@ + escape_seq(s.last().1) + "\""@
        }
    }
}

/// Attributes by key, each key once.
#[derive(Debug)]
pub struct Attrs {
    attrs: Vec<(String, String)>,
}

impl Attrs {
    pub closed spec fn entries(&self) -> Seq<(Seq<char>, Seq<char>)> {
        self.attrs@.map_values(|e: (String, String)| (e.0@, e.1@))
    }

    /// The keys are in strictly increasing order.
    pub open spec fn wf(&self) -> bool {
        forall|i: int, j: int|
            0 <= i < j < self.entries().len() ==> text_lt(
                #[trigger] self.entries()[i].0,
                #[trigger] self.entries()[j].0,
            )
    }

    pub fn new() -> (r: Attrs)
        ensures
            r.wf(),
            r.entries().len() == 0,
    {
        let r = Attrs { attrs: Vec::new() };
        assert(r.entries() =~= Seq::<(Seq<char>, Seq<char>)>::empty());
        r
    }

    /// Sets the value of `attr`: the entry of that key holds `value`
    /// afterwards, and every other entry stays.
    pub fn insert(&mut self, attr: &str, value: &str)
        requires
            old(self).wf(),
        ensures
            final(self).wf(),
            exists|i: int| 0 <= i < final(self).entries().len() && #[trigger] final(self).entries()[i]
                == (attr@, value@),
            forall|i: int|
                0 <= i < final(self).entries().len() && final(self).entries()[i].0 != attr@
                    ==> old(self).entries().contains(#[trigger] final(self).entries()[i]),
            forall|j: int|
                0 <= j < old(self).entries().len() && old(self).entries()[j].0 != attr@
                    ==> final(self).entries().contains(#[trigger] old(self).entries()[j]),
    {
        let ghost e0 = self.entries();
        let n = self.attrs.len();
        let mut p: usize = 0;
        while p < n && str_lt(self.attrs[p].0.as_str(), attr)
            invariant
                n == self.attrs@.len(),
                self.entries() == e0,
                self.wf(),
                p <= n,
                forall|i: int| 0 <= i < p ==> text_lt(#[trigger] e0[i].0, attr@),
            decreases n - p,
        {
            p = p + 1;
        }
        if p < n && str_eq(self.attrs[p].0.as_str(), attr) {
            let k = self.attrs[p].0.clone();
            self.attrs.set(p, (k, String::from_str(value)));
            let ghost e1 = self.entries();
            assert(e1 =~= e0.update(p as int, (attr@, value@)));
            assert(e1[p as int] == (attr@, value@));
            assert forall|k: int| 0 <= k < e1.len() implies #[trigger] e1[k].0 == e0[k].0 by {}
            assert forall|i: int, j: int| 0 <= i < j < e1.len() implies text_lt(
                #[trigger] e1[i].0,
                #[trigger] e1[j].0,
            ) by {
                assert(e1[i].0 == e0[i].0);
                assert(e1[j].0 == e0[j].0);
            }
            assert forall|i: int| 0 <= i < e1.len() && e1[i].0 != attr@ implies e0.contains(
                #[trigger] e1[i],
            ) by {
                assert(e0[i] == e1[i]);
            }
            assert forall|j: int| 0 <= j < e0.len() && e0[j].0 != attr@ implies e1.contains(
                #[trigger] e0[j],
            ) by {
                assert(j != p);
                assert(e1[j] == e0[j]);
            }
        } else {
            proof {
                if p < n {
                    lemma_text_lt_total(e0[p as int].0, attr@);
                    assert(text_lt(attr@, e0[p as int].0));
                    assert forall|j: int| p < j < n implies text_lt(attr@, #[trigger] e0[j].0) by {
                        lemma_text_lt_transitive(attr@, e0[p as int].0, e0[j].0);
                    }
                }
            }
            self.attrs.insert(p, (String::from_str(attr), String::from_str(value)));
            let ghost e1 = self.entries();
            assert(e1 =~= e0.insert(p as int, (attr@, value@)));
            assert(e1[p as int] == (attr@, value@));
            assert forall|i: int, j: int| 0 <= i < j < e1.len() implies text_lt(
                #[trigger] e1[i].0,
                #[trigger] e1[j].0,
            ) by {
                if j < p {
                } else if j == p {
                } else if i < p {
                    assert(e1[j] == e0[j - 1]);
                    if i < p {
                        lemma_text_lt_transitive(e0[i].0, attr@, e0[j - 1].0);
                    }
                } else if i == p {
                    assert(e1[j] == e0[j - 1]);
                } else {
                    assert(e1[i] == e0[i - 1]);
                    assert(e1[j] == e0[j - 1]);
                }
            }
            assert forall|i: int| 0 <= i < e1.len() && e1[i].0 != attr@ implies e0.contains(
                #[trigger] e1[i],
            ) by {
                if i < p {
                    assert(e1[i] == e0[i]);
                } else {
                    assert(i != p);
                    assert(e1[i] == e0[i - 1]);
                }
            }
            assert forall|j: int| 0 <= j < e0.len() && e0[j].0 != attr@ implies e1.contains(
                #[trigger] e0[j],
            ) by {
                if j < p {
                    assert(e1[j] == e0[j]);
                } else {
                    assert(e1[j + 1] == e0[j]);
                }
            }
        }
    }

    /// Writes the attributes in the order of their keys.
    pub fn render(&self, target: &mut String)
        ensures
            final(target)@ == old(target)@ + attrs_text(self.entries()),
    {
        let mut i: usize = 0;
        while i < self.attrs.len()
            invariant
                i <= self.attrs@.len(),
                target@ == old(target)@ + attrs_text(self.entries().subrange(0, i as int)),
            decreases self.attrs@.len() - i,
        {
            target.append(" ");
            target.append(self.attrs[i].0.as_str());
            if self.attrs[i].1.unicode_len() != 0 {
                target.append("=\"");
                let v = encode_attribute(self.attrs[i].1.as_str());
                target.append(v.as_str());
                target.append("\"");
            }
            proof {
                let e = self.entries();
                assert(e.subrange(0, i as int + 1).drop_last() =~= e.subrange(0, i as int));
                assert(target@ =~= old(target)@ + attrs_text(e.subrange(0, i as int + 1)));
            }
            i = i + 1;
        }
        assert(self.entries().subrange(0, self.attrs@.len() as int) =~= self.entries());
    }
}

} // verus!
