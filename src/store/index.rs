//! The tag index: directories by name, each with its link entries.
use vstd::prelude::*;
use crate::text::{text_lt, lemma_text_cmp};

verus! {

/// Some directory of `dirs` is named `t` and holds a link to note `id`.
pub open spec fn dir_link(dirs: Seq<(Seq<char>, Seq<i64>)>, t: Seq<char>, id: i64) -> bool {
    exists|j: int| 0 <= j < dirs.len() && dirs[j].0 == t && #[trigger] dirs[j].1.contains(id)
}

/// The directory names of `dirs` increase strictly.
pub open spec fn names_sorted(dirs: Seq<(Seq<char>, Seq<i64>)>) -> bool {
    forall|i: int, j: int| 0 <= i < j < dirs.len() ==> text_lt(dirs[i].0, dirs[j].0)
}

/// In sorted directories, a name stands once: the links of tag `d[p].0` are
/// those of directory `p`.
pub(crate) proof fn lemma_dir_unique(d: Seq<(Seq<char>, Seq<i64>)>, p: int)
    requires
        names_sorted(d),
        0 <= p < d.len(),
    ensures
        forall|k: i64| dir_link(d, d[p].0, k) <==> d[p].1.contains(k),
        forall|j: int| 0 <= j < d.len() && j != p ==> d[j].0 != d[p].0,
{
    lemma_text_cmp(d[p].0, d[p].0);
    assert forall|j: int| 0 <= j < d.len() && j != p implies d[j].0 != d[p].0 by {
        if j < p {
            assert(text_lt(d[j].0, d[p].0));
        } else {
            assert(text_lt(d[p].0, d[j].0));
        }
    }
    assert forall|k: i64| dir_link(d, d[p].0, k) implies d[p].1.contains(k) by {
        let j = choose|j: int| 0 <= j < d.len() && d[j].0 == d[p].0 && #[trigger] d[j].1.contains(k);
    }
}

/// Replacing the links of directory `p` changes the links of its tag only.
pub(crate) proof fn lemma_dir_link_update(d: Seq<(Seq<char>, Seq<i64>)>, p: int, links: Seq<i64>)
    requires
        names_sorted(d),
        0 <= p < d.len(),
    ensures
        names_sorted(d.update(p, (d[p].0, links))),
        forall|t: Seq<char>, k: i64| dir_link(d.update(p, (d[p].0, links)), t, k)
            == if t == d[p].0 { links.contains(k) } else { dir_link(d, t, k) },
{
    let e = d.update(p, (d[p].0, links));
    lemma_dir_unique(d, p);
    assert forall|t: Seq<char>, k: i64| dir_link(e, t, k)
        == if t == d[p].0 { links.contains(k) } else { dir_link(d, t, k) } by {
        if dir_link(e, t, k) {
            let j = choose|j: int| 0 <= j < e.len() && e[j].0 == t && #[trigger] e[j].1.contains(k);
            if j != p {
                assert(d[j].1.contains(k));
            }
        }
        if t == d[p].0 && links.contains(k) {
            assert(e[p].1.contains(k));
        }
        if t != d[p].0 && dir_link(d, t, k) {
            let j = choose|j: int| 0 <= j < d.len() && d[j].0 == t && #[trigger] d[j].1.contains(k);
            assert(e[j].1.contains(k));
        }
    }
}

/// Inserting a new directory at its place by name adds the links of that tag.
pub(crate) proof fn lemma_dir_link_insert(d: Seq<(Seq<char>, Seq<i64>)>, p: int, name: Seq<char>, links: Seq<i64>)
    requires
        names_sorted(d),
        0 <= p <= d.len(),
        forall|i: int| 0 <= i < p ==> text_lt(d[i].0, name),
        forall|i: int| p <= i < d.len() ==> text_lt(name, d[i].0),
    ensures
        names_sorted(d.insert(p, (name, links))),
        forall|t: Seq<char>, k: i64| dir_link(d.insert(p, (name, links)), t, k)
            == if t == name { links.contains(k) } else { dir_link(d, t, k) },
{
    let e = d.insert(p, (name, links));
    assert forall|i: int, j: int| 0 <= i < j < e.len() implies text_lt(e[i].0, e[j].0) by {
        if j < p {
        } else if j == p {
        } else if i < p {
            assert(e[j] == d[j - 1]);
        } else if i == p {
            assert(e[j] == d[j - 1]);
        } else {
            assert(e[j] == d[j - 1]);
            assert(e[i] == d[i - 1]);
        }
    }
    lemma_text_cmp(name, name);
    assert forall|t: Seq<char>, k: i64| dir_link(e, t, k)
        == if t == name { links.contains(k) } else { dir_link(d, t, k) } by {
        if dir_link(e, t, k) {
            let j = choose|j: int| 0 <= j < e.len() && e[j].0 == t && #[trigger] e[j].1.contains(k);
            if j < p {
                assert(d[j].1.contains(k));
                assert(text_lt(d[j].0, name));
            } else if j > p {
                assert(d[j - 1].1.contains(k));
                assert(text_lt(name, d[j - 1].0));
            }
        }
        if t == name && links.contains(k) {
            assert(e[p].1.contains(k));
        }
        if t != name && dir_link(d, t, k) {
            let j = choose|j: int| 0 <= j < d.len() && d[j].0 == t && #[trigger] d[j].1.contains(k);
            if j < p {
                assert(e[j].1.contains(k));
            } else {
                assert(e[j + 1].1.contains(k));
            }
        }
    }
}

/// Appending a directory adds its links.
pub(crate) proof fn lemma_dir_link_push(d: Seq<(Seq<char>, Seq<i64>)>, x: (Seq<char>, Seq<i64>))
    ensures
        forall|t: Seq<char>, k: i64| dir_link(d.push(x), t, k)
            == (dir_link(d, t, k) || (x.0 == t && x.1.contains(k))),
{
    let e = d.push(x);
    assert forall|t: Seq<char>, k: i64| dir_link(e, t, k)
        == (dir_link(d, t, k) || (x.0 == t && x.1.contains(k))) by {
        if dir_link(e, t, k) {
            let j = choose|j: int| 0 <= j < e.len() && e[j].0 == t && #[trigger] e[j].1.contains(k);
            if j < d.len() {
                assert(d[j].1.contains(k));
            }
        }
        if dir_link(d, t, k) {
            let j = choose|j: int| 0 <= j < d.len() && d[j].0 == t && #[trigger] d[j].1.contains(k);
            assert(e[j].1.contains(k));
        }
        if x.0 == t && x.1.contains(k) {
            assert(e[d.len() as int].1.contains(k));
        }
    }
}

/// The links of a prefix one longer are those of the shorter one and of the
/// directory that comes in.
pub(crate) proof fn lemma_dir_link_prefix(d: Seq<(Seq<char>, Seq<i64>)>, i: int)
    requires
        0 <= i < d.len(),
    ensures
        forall|t: Seq<char>, k: i64| dir_link(d.subrange(0, i + 1), t, k)
            == (dir_link(d.subrange(0, i), t, k) || (d[i].0 == t && d[i].1.contains(k))),
{
    assert(d.subrange(0, i + 1) =~= d.subrange(0, i).push(d[i]));
    lemma_dir_link_push(d.subrange(0, i), d[i]);
}

/// A copy of a list of IDs.
pub(crate) fn copy_ids(v: &Vec<i64>) -> (r: Vec<i64>)
    ensures
        r@ == v@,
{
    let mut r: Vec<i64> = Vec::new();
    let mut i: usize = 0;
    while i < v.len()
        invariant
            i <= v.len(),
            r@ == v@.subrange(0, i as int),
        decreases v.len() - i,
    {
        r.push(v[i]);
        i = i + 1;
        assert(r@ =~= v@.subrange(0, i as int));
    }
    assert(v@.subrange(0, v.len() as int) =~= v@);
    r
}


/// Whether `v` holds `id`.
pub(crate) fn contains_id(v: &Vec<i64>, id: i64) -> (r: bool)
    ensures
        r == v@.contains(id),
{
    let mut i: usize = 0;
    while i < v.len()
        invariant
            i <= v.len(),
            forall|k: int| 0 <= k < i ==> v@[k] != id,
        decreases v.len() - i,
    {
        if v[i] == id {
            return true;
        }
        i = i + 1;
    }
    false
}

/// The IDs of `v` other than `id`, in their order.
pub(crate) fn without_id(v: &Vec<i64>, id: i64) -> (r: Vec<i64>)
    requires
        v@.no_duplicates(),
    ensures
        r@.no_duplicates(),
        forall|x: i64| r@.contains(x) <==> (v@.contains(x) && x != id),
        forall|k: int| 0 <= k < r@.len() ==> v@.contains(#[trigger] r@[k]),
{
    let mut r: Vec<i64> = Vec::new();
    let mut i: usize = 0;
    while i < v.len()
        invariant
            i <= v.len(),
            v@.no_duplicates(),
            r@.no_duplicates(),
            forall|x: i64| r@.contains(x) <==> (v@.subrange(0, i as int).contains(x) && x != id),
        decreases v.len() - i,
    {
        let ghost before = r@;
        if v[i] != id {
            assert(!before.contains(v@[i as int])) by {
                if before.contains(v@[i as int]) {
                    let k = choose|k: int| 0 <= k < i && v@.subrange(0, i as int)[k] == v@[i as int];
                    assert(v@[k] == v@[i as int]);
                }
            }
            r.push(v[i]);
        }
        i = i + 1;
        assert forall|x: i64| r@.contains(x) <==> (v@.subrange(0, i as int).contains(x) && x != id) by {
            if v@.subrange(0, i as int).contains(x) && x != id {
                let k = choose|k: int| 0 <= k < i && v@.subrange(0, i as int)[k] == x;
                if k < i - 1 {
                    assert(v@.subrange(0, i - 1)[k] == x);
                    assert(before.contains(x));
                    let m = choose|m: int| 0 <= m < before.len() && before[m] == x;
                    assert(r@[m] == x);
                } else {
                    assert(r@[r@.len() - 1] == x);
                }
            }
            if r@.contains(x) {
                let m = choose|m: int| 0 <= m < r@.len() && r@[m] == x;
                if m < before.len() {
                    assert(before[m] == x);
                    assert(before.contains(x));
                    assert(v@.subrange(0, i - 1).contains(x));
                    let k = choose|k: int| 0 <= k < i - 1 && #[trigger] v@.subrange(0, i - 1)[k] == x;
                    assert(v@.subrange(0, i as int)[k] == x);
                } else {
                    assert(v@.subrange(0, i as int)[i - 1] == x);
                }
            }
        }
    }
    assert(v@.subrange(0, v.len() as int) =~= v@);
    assert forall|k: int| 0 <= k < r@.len() implies v@.contains(#[trigger] r@[k]) by {
        assert(r@.contains(r@[k]));
    }
    r
}

} // verus!
