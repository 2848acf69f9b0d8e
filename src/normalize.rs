//! The normalization of tags and references, done once before storage.
use vstd::prelude::*;
use crate::text::{texts, texts_sorted, text_lt, lemma_text_cmp, lemma_text_lt_trans, compare_text, trim_of, lower_of,
    trim_text, lowercase_text};

verus! {

/// The stored form of a tag: trimmed, then lower-cased.
pub open spec fn tag_form(t: Seq<char>) -> Seq<char> {
    lower_of(trim_of(t))
}

/// `out` is the tag list made of `input`: the non-empty stored forms of its
/// tags, each once, sorted.
pub open spec fn tags_normalized(out: Seq<Seq<char>>, input: Seq<Seq<char>>) -> bool {
    &&& texts_sorted(out)
    &&& forall|t: Seq<char>| out.contains(t) <==> exists|i: int| 0 <= i < input.len() && t == tag_form(input[i])
        && t.len() > 0
}

/// The reference list made of `input`: each reference trimmed, empty ones
/// dropped, and each kept once, at its first place.
pub open spec fn references_normalized(input: Seq<Seq<char>>) -> Seq<Seq<char>>
    decreases input.len(),
{
    if input.len() == 0 {
        Seq::empty()
    } else {
        let before = references_normalized(input.drop_last());
        let r = trim_of(input.last());
        if r.len() == 0 || before.contains(r) {
            before
        } else {
            before.push(r)
        }
    }
}

/// Whether `v` holds a string with the text of `s`.
fn contains_text(v: &Vec<String>, s: &String) -> (r: bool)
    ensures
        r == texts(v@).contains(s@),
{
    let mut i: usize = 0;
    while i < v.len()
        invariant
            i <= v.len(),
            forall|a: int| 0 <= a < i ==> v@[a]@ != s@,
        decreases v.len() - i,
    {
        if v[i] == *s {
            assert(texts(v@)[i as int] == s@);
            return true;
        }
        i = i + 1;
    }
    proof {
        if texts(v@).contains(s@) {
            let a = choose|a: int| 0 <= a < texts(v@).len() && texts(v@)[a] == s@;
            assert(v@[a]@ == s@);
        }
    }
    false
}

/// Puts `t` at its place in a sorted list, unless it is there already.
fn insert_text(out: &mut Vec<String>, t: String)
    requires
        texts_sorted(texts(old(out)@)),
    ensures
        texts_sorted(texts(final(out)@)),
        forall|x: Seq<char>| texts(final(out)@).contains(x) <==> (texts(old(out)@).contains(x) || x == t@),
{
    let ghost o = texts(out@);
    let mut p: usize = 0;
    while p < out.len()
        invariant
            p <= out.len(),
            texts(out@) == o,
            forall|a: int| 0 <= a < p ==> text_lt(o[a], t@),
        ensures
            p <= out.len(),
            texts(out@) == o,
            forall|a: int| 0 <= a < p ==> text_lt(o[a], t@),
            p < o.len() ==> !text_lt(o[p as int], t@),
        decreases out.len() - p,
    {
        assert(o[p as int] == out@[p as int]@);
        if compare_text(out[p].as_str(), t.as_str()) >= 0 {
            break;
        }
        p = p + 1;
    }
    if p < out.len() && out[p] == t {
        assert(o[p as int] == t@);
        return;
    }
    proof {
        if p < o.len() {
            lemma_text_cmp(o[p as int], t@);
            assert(o[p as int] == out@[p as int]@);
            assert(text_lt(t@, o[p as int]));
            assert forall|b: int| p <= b < o.len() implies text_lt(t@, o[b]) by {
                if b > p {
                    lemma_text_lt_trans(t@, o[p as int], o[b]);
                }
            }
        }
    }
    let ghost tv = t@;
    out.insert(p, t);
    proof {
        let f = texts(out@);
        assert(f =~= o.insert(p as int, tv));
        assert forall|a: int, b: int| 0 <= a < b < f.len() implies text_lt(f[a], f[b]) by {
            if b < p {
            } else if b == p {
            } else if a < p {
                assert(f[b] == o[b - 1]);
            } else if a == p {
                assert(f[b] == o[b - 1]);
            } else {
                assert(f[b] == o[b - 1]);
                assert(f[a] == o[a - 1]);
            }
        }
        assert forall|x: Seq<char>| f.contains(x) <==> (o.contains(x) || x == tv) by {
            if f.contains(x) {
                let a = choose|a: int| 0 <= a < f.len() && f[a] == x;
                if a < p {
                    assert(o[a] == x);
                } else if a > p {
                    assert(o[a - 1] == x);
                }
            }
            if o.contains(x) {
                let a = choose|a: int| 0 <= a < o.len() && o[a] == x;
                if a < p {
                    assert(f[a] == x);
                } else {
                    assert(f[a + 1] == x);
                }
            }
            if x == tv {
                assert(f[p as int] == x);
            }
        }
    }
}

/// Normalizes tags: trims and lower-cases each, drops the empty ones, and
/// keeps each once, sorted.
pub fn normalize_tags(tags: &Vec<String>) -> (r: Vec<String>)
    ensures
        tags_normalized(texts(r@), texts(tags@)),
{
    let mut r: Vec<String> = Vec::new();
    let mut i: usize = 0;
    while i < tags.len()
        invariant
            i <= tags.len(),
            texts_sorted(texts(r@)),
            forall|t: Seq<char>| texts(r@).contains(t) <==> exists|j: int| 0 <= j < i && t == tag_form(tags@[j]@)
                && t.len() > 0,
        decreases tags.len() - i,
    {
        let trimmed = trim_text(tags[i].as_str());
        let t = lowercase_text(trimmed.as_str());
        let ghost before = texts(r@);
        if t.unicode_len() > 0 {
            insert_text(&mut r, t);
        }
        proof {
            assert forall|x: Seq<char>| texts(r@).contains(x) <==> exists|j: int| 0 <= j < i + 1
                && x == tag_form(tags@[j]@) && x.len() > 0 by {
                if exists|j: int| 0 <= j < i + 1 && x == tag_form(tags@[j]@) && x.len() > 0 {
                    let j = choose|j: int| 0 <= j < i + 1 && x == tag_form(tags@[j]@) && x.len() > 0;
                    if j < i {
                        assert(before.contains(x));
                    }
                }
            }
        }
        i = i + 1;
    }
    proof {
        assert forall|t: Seq<char>| texts(r@).contains(t) <==> exists|j: int| 0 <= j < texts(tags@).len()
            && t == tag_form(texts(tags@)[j]) && t.len() > 0 by {
            if texts(r@).contains(t) {
                let j = choose|j: int| 0 <= j < i && t == tag_form(tags@[j]@) && t.len() > 0;
                assert(texts(tags@)[j] == tags@[j]@);
            }
            if exists|j: int| 0 <= j < texts(tags@).len() && t == tag_form(texts(tags@)[j]) && t.len() > 0 {
                let j = choose|j: int| 0 <= j < texts(tags@).len() && t == tag_form(texts(tags@)[j]) && t.len() > 0;
                assert(texts(tags@)[j] == tags@[j]@);
            }
        }
    }
    r
}

/// Normalizes references: trims each, drops the empty ones, and keeps each
/// once, at its first place.
pub fn normalize_references(references: &Vec<String>) -> (r: Vec<String>)
    ensures
        texts(r@) == references_normalized(texts(references@)),
{
    let mut r: Vec<String> = Vec::new();
    let mut i: usize = 0;
    while i < references.len()
        invariant
            i <= references.len(),
            texts(r@) == references_normalized(texts(references@).subrange(0, i as int)),
        decreases references.len() - i,
    {
        let t = trim_text(references[i].as_str());
        let ghost before = texts(r@);
        let ghost s = texts(references@).subrange(0, i + 1);
        proof {
            assert(s.drop_last() =~= texts(references@).subrange(0, i as int));
            assert(s.last() == references@[i as int]@);
        }
        if t.unicode_len() > 0 && !contains_text(&r, &t) {
            let ghost tv = t@;
            r.push(t);
            assert(texts(r@) =~= before.push(tv));
        }
        i = i + 1;
    }
    assert(texts(references@).subrange(0, references.len() as int) =~= texts(references@));
    r
}

} // verus!
