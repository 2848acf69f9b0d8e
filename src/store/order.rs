//! The orders of listings and of the tag list, and the query filters.
use vstd::prelude::*;
use crate::note::{Note, NoteQuery, TagCount};
use crate::search::Matcher;
use super::index::contains_id;
use crate::text::{text_lt, lemma_text_cmp, lemma_text_lt_trans, compare_text};

verus! {

/// Listing order: `a` comes before `b` when it was modified later, or at
/// the same time and has the larger ID.
pub open spec fn sorts_before(a_mod: Seq<char>, a_id: i64, b_mod: Seq<char>, b_id: i64) -> bool {
    text_lt(b_mod, a_mod) || (a_mod == b_mod && a_id > b_id)
}

/// Note `a` comes before note `b` in a listing.
pub open spec fn note_before(a: Note, b: Note) -> bool {
    sorts_before(a.updated_at@, a.id, b.updated_at@, b.id)
}

/// The notes are in listing order, each before the next.
pub open spec fn notes_sorted(s: Seq<Note>) -> bool {
    forall|a: int, b: int| 0 <= a < b < s.len() ==> note_before(s[a], s[b])
}

/// A modification time lies within the optional inclusive bounds.
pub open spec fn in_range(m: Seq<char>, from: Option<String>, to: Option<String>) -> bool {
    &&& (from matches Some(f) ==> !text_lt(m, f@))
    &&& (to matches Some(t) ==> !text_lt(t@, m))
}

/// The pattern of an optional matcher.
pub open spec fn pattern_of(m: Option<&Matcher>) -> Option<Seq<char>> {
    match m {
        Some(x) => Some(x@),
        None => None,
    }
}

/// Some note of the sequence has this ID.
pub open spec fn has_id(s: Seq<Note>, id: i64) -> bool {
    exists|a: int| 0 <= a < s.len() && s[a].id == id
}

/// The listing order is transitive and total on distinct IDs.
pub proof fn lemma_sorts_before(a_mod: Seq<char>, a_id: i64, b_mod: Seq<char>, b_id: i64, c_mod: Seq<char>, c_id: i64)
    ensures
        sorts_before(a_mod, a_id, b_mod, b_id) && sorts_before(b_mod, b_id, c_mod, c_id)
            ==> sorts_before(a_mod, a_id, c_mod, c_id),
        a_id != b_id ==> sorts_before(a_mod, a_id, b_mod, b_id) || sorts_before(b_mod, b_id, a_mod, a_id),
        !(sorts_before(a_mod, a_id, b_mod, b_id) && sorts_before(b_mod, b_id, a_mod, a_id)),
{
    lemma_text_cmp(a_mod, b_mod);
    lemma_text_cmp(b_mod, c_mod);
    lemma_text_cmp(a_mod, c_mod);
    if text_lt(b_mod, a_mod) && text_lt(c_mod, b_mod) {
        lemma_text_lt_trans(c_mod, b_mod, a_mod);
    }
}

/// The limit that a query sets; zero stands for none.
pub open spec fn limit_of(q: NoteQuery) -> int {
    match q.limit {
        Some(n) => if n > 0 { n as int } else { 0 },
        None => 0,
    }
}

/// The first `limit` notes of a listing, or all of them where `limit` is
/// zero.
pub open spec fn limited(full: Seq<Note>, limit: int) -> Seq<Note> {
    if 0 < limit < full.len() {
        full.subrange(0, limit)
    } else {
        full
    }
}

/// Tag count `a` comes before `b` in the tag list: more notes, or as many
/// and a smaller name.
pub open spec fn ranks_before(a: TagCount, b: TagCount) -> bool {
    a.count > b.count || (a.count == b.count && text_lt(a.name@, b.name@))
}

/// The tag counts are in tag-list order, each before the next.
pub open spec fn counts_sorted(s: Seq<TagCount>) -> bool {
    forall|a: int, b: int| 0 <= a < b < s.len() ==> ranks_before(s[a], s[b])
}

/// Whether note `a` comes before note `b` in a listing.
pub(crate) fn is_before(a: &Note, b: &Note) -> (r: bool)
    ensures
        r == note_before(*a, *b),
{
    let c = compare_text(b.updated_at.as_str(), a.updated_at.as_str());
    proof {
        lemma_text_cmp(b.updated_at@, a.updated_at@);
    }
    if c < 0 {
        true
    } else if c == 0 {
        a.id > b.id
    } else {
        false
    }
}

/// Inserts `n` at its place in a listing.
pub(crate) fn insert_sorted(out: &mut Vec<Note>, n: Note)
    requires
        notes_sorted(old(out)@),
        !has_id(old(out)@, n.id),
    ensures
        notes_sorted(final(out)@),
        final(out)@.len() == old(out)@.len() + 1,
        forall|x: Note| final(out)@.contains(x) <==> (old(out)@.contains(x) || x == n),
{
    let ghost o = out@;
    let mut p: usize = 0;
    while p < out.len()
        invariant
            p <= out.len(),
            out@ == o,
            forall|a: int| 0 <= a < p ==> note_before(o[a], n),
        ensures
            p <= out.len(),
            out@ == o,
            forall|a: int| 0 <= a < p ==> note_before(o[a], n),
            p < o.len() ==> !note_before(o[p as int], n),
        decreases out.len() - p,
    {
        if !is_before(&out[p], &n) {
            break;
        }
        p = p + 1;
    }
    proof {
        if p < o.len() {
            assert(o[p as int].id != n.id);
            lemma_sorts_before(o[p as int].updated_at@, o[p as int].id, n.updated_at@, n.id, n.updated_at@, n.id);
            assert(note_before(n, o[p as int]));
            assert forall|b: int| p <= b < o.len() implies note_before(n, o[b]) by {
                if b > p {
                    assert(note_before(o[p as int], o[b]));
                    lemma_sorts_before(n.updated_at@, n.id, o[p as int].updated_at@, o[p as int].id,
                        o[b].updated_at@, o[b].id);
                }
            }
        }
    }
    out.insert(p, n);
    proof {
        let f = out@;
        assert(f =~= o.insert(p as int, n));
        assert forall|a: int, b: int| 0 <= a < b < f.len() implies note_before(f[a], f[b]) by {
            if b < p {
            } else if b == p {
            } else if a < p {
                assert(f[b] == o[b - 1]);
            } else if a == p {
                assert(f[b] == o[b - 1]);
            } else {
                assert(f[b] == o[b - 1]);
                assert(f[a] == o[a - 1]);
            }
        }
        assert forall|x: Note| f.contains(x) <==> (o.contains(x) || x == n) by {
            if f.contains(x) {
                let a = choose|a: int| 0 <= a < f.len() && f[a] == x;
                if a < p {
                    assert(o[a] == x);
                } else if a > p {
                    assert(o[a - 1] == x);
                }
            }
            if o.contains(x) {
                let a = choose|a: int| 0 <= a < o.len() && o[a] == x;
                if a < p {
                    assert(f[a] == x);
                } else {
                    assert(f[a + 1] == x);
                }
            }
            if x == n {
                assert(f[p as int] == x);
            }
        }
    }
}

/// Whether a modification time lies within the optional bounds.
pub(crate) fn within_range(m: &String, from: &Option<String>, to: &Option<String>) -> (r: bool)
    ensures
        r == in_range(m@, *from, *to),
{
    let low = match from {
        Some(f) => compare_text(m.as_str(), f.as_str()) >= 0,
        None => true,
    };
    let high = match to {
        Some(t) => compare_text(t.as_str(), m.as_str()) >= 0,
        None => true,
    };
    low && high
}

/// Whether some list of `lists` holds `id`.
pub(crate) fn in_any(lists: &Vec<Vec<i64>>, id: i64) -> (r: bool)
    ensures
        r == exists|j: int| 0 <= j < lists@.len() && lists@[j]@.contains(id),
{
    let mut j: usize = 0;
    while j < lists.len()
        invariant
            j <= lists.len(),
            forall|a: int| 0 <= a < j ==> !lists@[a]@.contains(id),
        decreases lists.len() - j,
    {
        if contains_id(&lists[j], id) {
            return true;
        }
        j = j + 1;
    }
    false
}


/// Whether tag count `a` comes before `b` in the tag list.
pub(crate) fn is_ranked_before(a: &TagCount, b: &TagCount) -> (r: bool)
    ensures
        r == ranks_before(*a, *b),
{
    if a.count > b.count {
        true
    } else if a.count == b.count {
        compare_text(a.name.as_str(), b.name.as_str()) < 0
    } else {
        false
    }
}

pub(crate) proof fn lemma_ranks_before(a: TagCount, b: TagCount, c: TagCount)
    ensures
        ranks_before(a, b) && ranks_before(b, c) ==> ranks_before(a, c),
        a.name@ != b.name@ ==> ranks_before(a, b) || ranks_before(b, a),
{
    lemma_text_cmp(a.name@, b.name@);
    if ranks_before(a, b) && ranks_before(b, c) && a.count == b.count && b.count == c.count {
        lemma_text_lt_trans(a.name@, b.name@, c.name@);
    }
}

/// Inserts `item` at its place in a tag list.
pub(crate) fn insert_ranked(out: &mut Vec<TagCount>, item: TagCount)
    requires
        counts_sorted(old(out)@),
        forall|a: int| 0 <= a < old(out)@.len() ==> old(out)@[a].name@ != item.name@,
    ensures
        counts_sorted(final(out)@),
        final(out)@.len() == old(out)@.len() + 1,
        forall|x: TagCount| final(out)@.contains(x) <==> (old(out)@.contains(x) || x == item),
{
    let ghost o = out@;
    let mut p: usize = 0;
    while p < out.len()
        invariant
            p <= out.len(),
            out@ == o,
            forall|a: int| 0 <= a < p ==> ranks_before(o[a], item),
        ensures
            p <= out.len(),
            out@ == o,
            forall|a: int| 0 <= a < p ==> ranks_before(o[a], item),
            p < o.len() ==> !ranks_before(o[p as int], item),
        decreases out.len() - p,
    {
        if !is_ranked_before(&out[p], &item) {
            break;
        }
        p = p + 1;
    }
    proof {
        if p < o.len() {
            lemma_ranks_before(o[p as int], item, item);
            assert(ranks_before(item, o[p as int]));
            assert forall|b: int| p <= b < o.len() implies ranks_before(item, o[b]) by {
                if b > p {
                    assert(ranks_before(o[p as int], o[b]));
                    lemma_ranks_before(item, o[p as int], o[b]);
                }
            }
        }
    }
    out.insert(p, item);
    proof {
        let f = out@;
        assert(f =~= o.insert(p as int, item));
        assert forall|a: int, b: int| 0 <= a < b < f.len() implies ranks_before(f[a], f[b]) by {
            if b < p {
            } else if b == p {
            } else if a < p {
                assert(f[b] == o[b - 1]);
            } else if a == p {
                assert(f[b] == o[b - 1]);
            } else {
                assert(f[b] == o[b - 1]);
                assert(f[a] == o[a - 1]);
            }
        }
        assert forall|x: TagCount| f.contains(x) <==> (o.contains(x) || x == item) by {
            if f.contains(x) {
                let a = choose|a: int| 0 <= a < f.len() && f[a] == x;
                if a < p {
                    assert(o[a] == x);
                } else if a > p {
                    assert(o[a - 1] == x);
                }
            }
            if o.contains(x) {
                let a = choose|a: int| 0 <= a < o.len() && o[a] == x;
                if a < p {
                    assert(f[a] == x);
                } else {
                    assert(f[a + 1] == x);
                }
            }
            if x == item {
                assert(f[p as int] == x);
            }
        }
    }
}

} // verus!
