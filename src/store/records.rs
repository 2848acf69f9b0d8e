//! The record store: records by increasing ID, and what follows from the
//! IDs being unique.
use vstd::prelude::*;
use super::{NoteFile, RecordView};
use crate::text::copy_texts;

verus! {

/// The records, in the order of their IDs, have strictly increasing IDs.
pub open spec fn ids_increasing(s: Seq<(i64, RecordView)>) -> bool {
    forall|i: int, j: int| 0 <= i < j < s.len() ==> s[i].0 < s[j].0
}

/// Some record has this ID.
pub open spec fn seq_live(s: Seq<(i64, RecordView)>, id: i64) -> bool {
    exists|i: int| 0 <= i < s.len() && s[i].0 == id
}

/// The position of the record with this ID.
pub open spec fn seq_index(s: Seq<(i64, RecordView)>, id: i64) -> int {
    choose|i: int| 0 <= i < s.len() && s[i].0 == id
}

/// The record with this ID.
pub open spec fn seq_record(s: Seq<(i64, RecordView)>, id: i64) -> RecordView {
    s[seq_index(s, id)].1
}

pub(crate) proof fn lemma_index(s: Seq<(i64, RecordView)>, i: int)
    requires
        ids_increasing(s),
        0 <= i < s.len(),
    ensures
        seq_live(s, s[i].0),
        seq_index(s, s[i].0) == i,
        seq_record(s, s[i].0) == s[i].1,
{
    let id = s[i].0;
    assert(seq_live(s, id));
    let j = seq_index(s, id);
    assert(s[j].0 == id);
    if j < i {
        assert(s[j].0 < s[i].0);
    } else if j > i {
        assert(s[i].0 < s[j].0);
    }
}

/// Replacing the record at `p` by one with the same ID changes that note's
/// record only.
pub(crate) proof fn lemma_records_update(s: Seq<(i64, RecordView)>, p: int, r: RecordView)
    requires
        ids_increasing(s),
        0 <= p < s.len(),
    ensures
        ids_increasing(s.update(p, (s[p].0, r))),
        forall|k: i64| seq_live(s.update(p, (s[p].0, r)), k) == seq_live(s, k),
        forall|k: i64| seq_live(s, k) ==> seq_record(s.update(p, (s[p].0, r)), k)
            == if k == s[p].0 { r } else { seq_record(s, k) },
{
    let t = s.update(p, (s[p].0, r));
    assert forall|k: i64| seq_live(t, k) == seq_live(s, k) by {
        if seq_live(s, k) {
            let i = choose|i: int| 0 <= i < s.len() && s[i].0 == k;
            assert(t[i].0 == k);
        }
        if seq_live(t, k) {
            let i = choose|i: int| 0 <= i < t.len() && t[i].0 == k;
            assert(s[i].0 == k);
        }
    }
    assert forall|k: i64| seq_live(s, k) implies seq_record(t, k)
        == if k == s[p].0 { r } else { seq_record(s, k) } by {
        let i = choose|i: int| 0 <= i < s.len() && s[i].0 == k;
        lemma_index(s, i);
        lemma_index(t, i);
    }
}

/// Inserting a record at its place by ID adds that note and keeps the others.
pub(crate) proof fn lemma_records_insert(s: Seq<(i64, RecordView)>, p: int, id: i64, r: RecordView)
    requires
        ids_increasing(s),
        0 <= p <= s.len(),
        forall|i: int| 0 <= i < p ==> s[i].0 < id,
        forall|i: int| p <= i < s.len() ==> id < s[i].0,
    ensures
        ids_increasing(s.insert(p, (id, r))),
        forall|k: i64| seq_live(s.insert(p, (id, r)), k) == (seq_live(s, k) || k == id),
        seq_record(s.insert(p, (id, r)), id) == r,
        forall|k: i64| seq_live(s, k) ==> seq_record(s.insert(p, (id, r)), k) == seq_record(s, k),
{
    let t = s.insert(p, (id, r));
    assert forall|i: int, j: int| 0 <= i < j < t.len() implies t[i].0 < t[j].0 by {
        if j < p {
        } else if j == p {
        } else if i < p {
            assert(t[j] == s[j - 1]);
        } else if i == p {
            assert(t[j] == s[j - 1]);
        } else {
            assert(t[j] == s[j - 1]);
            assert(t[i] == s[i - 1]);
        }
    }
    assert forall|k: i64| seq_live(t, k) == (seq_live(s, k) || k == id) by {
        if seq_live(s, k) {
            let i = choose|i: int| 0 <= i < s.len() && s[i].0 == k;
            if i < p {
                assert(t[i].0 == k);
            } else {
                assert(t[i + 1].0 == k);
            }
        }
        if k == id {
            assert(t[p].0 == k);
        }
        if seq_live(t, k) {
            let i = choose|i: int| 0 <= i < t.len() && t[i].0 == k;
            if i < p {
                assert(s[i].0 == k);
            } else if i > p {
                assert(s[i - 1].0 == k);
            }
        }
    }
    lemma_index(t, p);
    assert forall|k: i64| seq_live(s, k) implies seq_record(t, k) == seq_record(s, k) by {
        let i = choose|i: int| 0 <= i < s.len() && s[i].0 == k;
        lemma_index(s, i);
        if i < p {
            lemma_index(t, i);
        } else {
            assert(t[i + 1] == s[i]);
            lemma_index(t, i + 1);
        }
    }
}

/// Removing the record at `p` removes that note and keeps the others.
pub(crate) proof fn lemma_records_remove(s: Seq<(i64, RecordView)>, p: int)
    requires
        ids_increasing(s),
        0 <= p < s.len(),
    ensures
        ids_increasing(s.remove(p)),
        forall|k: i64| seq_live(s.remove(p), k) == (seq_live(s, k) && k != s[p].0),
        forall|k: i64| seq_live(s, k) && k != s[p].0 ==> seq_record(s.remove(p), k) == seq_record(s, k),
{
    let t = s.remove(p);
    assert forall|i: int, j: int| 0 <= i < j < t.len() implies t[i].0 < t[j].0 by {
        if j < p {
        } else if i < p {
            assert(t[j] == s[j + 1]);
        } else {
            assert(t[j] == s[j + 1]);
            assert(t[i] == s[i + 1]);
        }
    }
    assert forall|k: i64| seq_live(t, k) == (seq_live(s, k) && k != s[p].0) by {
        if seq_live(s, k) && k != s[p].0 {
            let i = choose|i: int| 0 <= i < s.len() && s[i].0 == k;
            if i < p {
                assert(t[i].0 == k);
            } else {
                assert(i != p);
                assert(t[i - 1].0 == k);
            }
        }
        if seq_live(t, k) {
            let i = choose|i: int| 0 <= i < t.len() && t[i].0 == k;
            if i < p {
                assert(s[i].0 == k);
                assert(s[i].0 < s[p].0);
            } else {
                assert(s[i + 1].0 == k);
                assert(s[p].0 < s[i + 1].0);
            }
        }
    }
    assert forall|k: i64| seq_live(s, k) && k != s[p].0 implies seq_record(t, k) == seq_record(s, k) by {
        let i = choose|i: int| 0 <= i < s.len() && s[i].0 == k;
        lemma_index(s, i);
        if i < p {
            lemma_index(t, i);
        } else {
            assert(t[i - 1] == s[i]);
            lemma_index(t, i - 1);
        }
    }
}


/// Distinct IDs between 1 and `n` are at most `n` in number.
pub(crate) proof fn lemma_distinct_ids_bound(s: Seq<i64>, n: int)
    requires
        0 <= n,
        s.no_duplicates(),
        forall|k: int| 0 <= k < s.len() ==> 1 <= #[trigger] s[k] <= n,
    ensures
        s.len() <= n,
{
    let t = s.map_values(|x: i64| x as int);
    assert(t.no_duplicates()) by {
        assert forall|a: int, b: int| 0 <= a < t.len() && 0 <= b < t.len() && a != b implies t[a] != t[b] by {
            assert(s[a] != s[b]);
        }
    }
    t.unique_seq_to_set();
    vstd::set_lib::lemma_int_range(1, n + 1);
    assert(t.to_set().subset_of(vstd::set_lib::set_int_range(1, n + 1))) by {
        assert forall|x: int| t.to_set().contains(x) implies vstd::set_lib::set_int_range(1, n + 1).contains(x) by {
            let k = choose|k: int| 0 <= k < t.len() && t[k] == x;
            assert(1 <= s[k] <= n);
        }
    }
    vstd::set_lib::lemma_len_subset(t.to_set(), vstd::set_lib::set_int_range(1, n + 1));
}


/// A copy of a record.
pub(crate) fn copy_file(f: &NoteFile) -> (r: NoteFile)
    ensures
        r@ == f@,
{
    NoteFile {
        title: f.title.clone(),
        body: f.body.clone(),
        references: copy_texts(&f.references),
        modified: f.modified.clone(),
    }
}


} // verus!
