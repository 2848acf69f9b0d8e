//! Properties that hold across operations of the store, stated over the
//! views that the operations' contracts use.
use vstd::prelude::*;
use crate::normalize::{references_normalized, tags_normalized};
use crate::note::{CreateNote, Note, NoteQuery, UpdateNote};
use crate::service::note_prepared;
use crate::store::{has_id, note_before, limit_of, limited, StoreView};
use crate::text::{lemma_text_cmp, texts, texts_sorted, trim_of};

verus! {

/// Creating a note hands out an ID above every ID of the store, and raises
/// the counter to it.
pub proof fn law_create_fresh(
    s: StoreView,
    t: StoreView,
    id: i64,
    title: Seq<char>,
    body: Seq<char>,
    tags: Seq<Seq<char>>,
    references: Seq<Seq<char>>,
    now: Seq<char>,
)
    requires
        s.wf(),
        s.created(t, id, title, body, tags, references, now),
    ensures
        !s.live(id),
        forall|k: i64| s.live(k) ==> k < id,
        t.counter == id,
        s.counter < t.counter,
{
    assert forall|k: i64| s.live(k) implies k < id by {
        let i = choose|i: int| 0 <= i < s.records.len() && s.records[i].0 == k;
        assert(s.records[i].0 <= s.counter);
    }
}

/// Updates and deletes leave the counter as it was.
pub proof fn law_counter_kept(s: StoreView, t: StoreView, id: i64, u: UpdateNote, now: Seq<char>)
    ensures
        s.updated(t, id, u, now) ==> t.counter == s.counter,
        s.deleted(t, id) ==> t.counter == s.counter,
{
}

/// IDs strictly increase: a note created after another, with only steps
/// that do not lower the counter between them, gets a larger ID, even where
/// the first was deleted in the meantime.
pub proof fn law_ids_increase(
    s1: StoreView,
    t1: StoreView,
    id1: i64,
    s2: StoreView,
    t2: StoreView,
    id2: i64,
    title1: Seq<char>,
    body1: Seq<char>,
    tags1: Seq<Seq<char>>,
    references1: Seq<Seq<char>>,
    now1: Seq<char>,
    title2: Seq<char>,
    body2: Seq<char>,
    tags2: Seq<Seq<char>>,
    references2: Seq<Seq<char>>,
    now2: Seq<char>,
)
    requires
        s1.created(t1, id1, title1, body1, tags1, references1, now1),
        s2.created(t2, id2, title2, body2, tags2, references2, now2),
        t1.counter <= s2.counter,
    ensures
        id1 < id2,
{
}

/// Creates that the store lock puts one after the other get distinct IDs,
/// and both notes exist afterwards.
pub proof fn law_serialized_creates(
    s0: StoreView,
    s1: StoreView,
    s2: StoreView,
    id1: i64,
    id2: i64,
    title1: Seq<char>,
    body1: Seq<char>,
    tags1: Seq<Seq<char>>,
    references1: Seq<Seq<char>>,
    now1: Seq<char>,
    title2: Seq<char>,
    body2: Seq<char>,
    tags2: Seq<Seq<char>>,
    references2: Seq<Seq<char>>,
    now2: Seq<char>,
)
    requires
        s0.created(s1, id1, title1, body1, tags1, references1, now1),
        s1.created(s2, id2, title2, body2, tags2, references2, now2),
    ensures
        id1 != id2,
        s2.live(id1),
        s2.live(id2),
        s2.record(id1) == s1.record(id1),
{
}

/// Reading a note back after creating it gives the title, body and
/// references it was created with, and exactly its tags, sorted.
pub proof fn law_round_trip(
    s: StoreView,
    t: StoreView,
    id: i64,
    title: Seq<char>,
    body: Seq<char>,
    tags: Seq<Seq<char>>,
    references: Seq<Seq<char>>,
    now: Seq<char>,
    n: Note,
)
    requires
        s.created(t, id, title, body, tags, references, now),
        t.loaded(n),
        n.id == id,
    ensures
        n.title@ == title,
        n.body@ == body,
        texts(n.references@) == references,
        n.updated_at@ == now,
        texts_sorted(texts(n.tags@)),
        forall|x: Seq<char>| texts(n.tags@).contains(x) <==> tags.contains(x),
{
    assert forall|x: Seq<char>| texts(n.tags@).contains(x) <==> tags.contains(x) by {
        assert(t.has_link(x, id) == tags.contains(x));
    }
}

/// After note `k` is deleted it no longer exists, and a tag whose only note
/// it was is no longer in use.
pub proof fn law_delete_then_get(s: StoreView, t: StoreView, k: i64, tag: Seq<char>)
    requires
        s.deleted(t, k),
        forall|j: i64| s.has_link(tag, j) ==> j == k,
    ensures
        !t.live(k),
        !t.tag_in_use(tag),
{
    assert forall|j: i64| !t.has_link(tag, j) by {
        assert(t.has_link(tag, j) == (s.has_link(tag, j) && j != k));
    }
}

/// Tag filtering keeps a note that carries any one of the tags, and lists
/// each note once however many of the tags it carries.
pub proof fn law_tag_filter_any(s: StoreView, r: Seq<Note>, tags: Vec<String>, j: int, id: i64)
    requires
        s.wf(),
        s.lists_selected(r, Some(tags), None, None, None),
        0 <= j < tags@.len(),
        s.live(id),
        s.has_link(tags@[j]@, id),
    ensures
        has_id(r, id),
        forall|a: int, b: int| 0 <= a < b < r.len() ==> r[a].id != r[b].id,
{
    assert(s.selected(id, Some(tags), None, None, None));
    assert forall|a: int, b: int| 0 <= a < b < r.len() implies r[a].id != r[b].id by {
        assert(s.loaded(r[a]));
        assert(s.loaded(r[b]));
        lemma_text_cmp(r[a].updated_at@, r[a].updated_at@);
        assert(note_before(r[a], r[b]));
    }
}

/// Updating a note twice with the same tags leaves the same links as the
/// first time.
pub proof fn law_retag_idempotent(
    s0: StoreView,
    s1: StoreView,
    s2: StoreView,
    id: i64,
    u1: UpdateNote,
    u2: UpdateNote,
    now1: Seq<char>,
    now2: Seq<char>,
)
    requires
        s0.updated(s1, id, u1, now1),
        s1.updated(s2, id, u2, now2),
        u1.tags is Some,
        u2.tags is Some,
        texts(u1.tags->Some_0@) == texts(u2.tags->Some_0@),
    ensures
        forall|t: Seq<char>, k: i64| s2.has_link(t, k) == s1.has_link(t, k),
{
    assert forall|t: Seq<char>, k: i64| s2.has_link(t, k) == s1.has_link(t, k) by {
        if k != id {
            assert(s2.has_link(t, k) == s1.has_link(t, k));
        }
    }
}

/// A limited listing holds the limit's number of notes where more are
/// selected, and all of them otherwise: as many as the count reports.
pub proof fn law_limit_and_count(s: StoreView, q: NoteQuery, full: Seq<Note>, n: int)
    requires
        s.wf(),
        s.lists_selected(full, q.tags, q.from, q.to, None),
        n == s.selected_ids(q.tags, q.from, q.to, None).len(),
    ensures
        limited(full, limit_of(q)).len() == if 0 < limit_of(q) < n { limit_of(q) } else { n },
{
    s.lemma_listing_len(full, q.tags, q.from, q.to, None);
}

/// One operation on a store: a create, an update, a delete, or one that
/// changed nothing (a read, an absent note, a failure).
pub open spec fn store_step(s: StoreView, t: StoreView) -> bool {
    ||| exists|id: i64, title: Seq<char>, body: Seq<char>, tags: Seq<Seq<char>>, references: Seq<Seq<char>>, now: Seq<char>|
        #[trigger] s.created(t, id, title, body, tags, references, now)
    ||| exists|id: i64, u: UpdateNote, now: Seq<char>| #[trigger] s.updated(t, id, u, now)
    ||| exists|id: i64| #[trigger] s.deleted(t, id)
    ||| t == s
}

/// Every state of `h` comes from the one before by one operation.
pub open spec fn history(h: Seq<StoreView>) -> bool {
    forall|m: int| 0 <= m < h.len() - 1 ==> #[trigger] store_step(h[m], h[m + 1])
}

proof fn lemma_step_counter(s: StoreView, t: StoreView)
    requires
        store_step(s, t),
    ensures
        s.counter <= t.counter,
{
}

proof fn lemma_history_counter(h: Seq<StoreView>, a: int, b: int)
    requires
        history(h),
        0 <= a <= b < h.len(),
    ensures
        h[a].counter <= h[b].counter,
    decreases b - a,
{
    if a < b {
        lemma_history_counter(h, a, b - 1);
        let p = b - 1;
        assert(store_step(h[p], h[p + 1]));
        lemma_step_counter(h[p], h[p + 1]);
    }
}

/// Across any history, a note created later gets a larger ID than one
/// created earlier, whatever was updated or deleted in between.
pub proof fn law_ids_increase_in_history(
    h: Seq<StoreView>,
    i: int,
    j: int,
    id1: i64,
    id2: i64,
    title1: Seq<char>,
    body1: Seq<char>,
    tags1: Seq<Seq<char>>,
    references1: Seq<Seq<char>>,
    now1: Seq<char>,
    title2: Seq<char>,
    body2: Seq<char>,
    tags2: Seq<Seq<char>>,
    references2: Seq<Seq<char>>,
    now2: Seq<char>,
)
    requires
        history(h),
        0 <= i < j,
        j + 1 < h.len(),
        h[i].created(h[i + 1], id1, title1, body1, tags1, references1, now1),
        h[j].created(h[j + 1], id2, title2, body2, tags2, references2, now2),
    ensures
        id1 < id2,
{
    lemma_history_counter(h, i + 1, j);
}

/// Once note `k` is deleted, no later state of a history holds it again:
/// IDs are never handed out twice.
pub proof fn law_deleted_stays_absent(h: Seq<StoreView>, i: int, k: i64, m: int)
    requires
        history(h),
        0 <= i < m < h.len(),
        h[i].wf(),
        h[i].live(k),
        h[i].deleted(h[i + 1], k),
    ensures
        !h[m].live(k),
    decreases m - i,
{
    assert(k <= h[i].counter) by {
        let p = choose|p: int| 0 <= p < h[i].records.len() && h[i].records[p].0 == k;
        assert(h[i].records[p].0 <= h[i].counter);
    }
    if m > i + 1 {
        law_deleted_stays_absent(h, i, k, m - 1);
        lemma_history_counter(h, i, m - 1);
        let p = m - 1;
        let s = h[p];
        let t = h[p + 1];
        assert(store_step(s, t));
        if exists|id: i64, title: Seq<char>, body: Seq<char>, tags: Seq<Seq<char>>, references: Seq<Seq<char>>,
            now: Seq<char>| #[trigger] s.created(t, id, title, body, tags, references, now) {
            let (id, title, body, tags, references, now) = choose|id: i64, title: Seq<char>, body: Seq<char>,
                tags: Seq<Seq<char>>, references: Seq<Seq<char>>, now: Seq<char>|
                #[trigger] s.created(t, id, title, body, tags, references, now);
            assert(t.live(k) == s.live(k));
        } else if exists|id: i64, u: UpdateNote, now: Seq<char>| #[trigger] s.updated(t, id, u, now) {
            let (id, u, now) = choose|id: i64, u: UpdateNote, now: Seq<char>| #[trigger] s.updated(t, id, u, now);
            assert(t.live(k) == s.live(k));
        } else if exists|id: i64| #[trigger] s.deleted(t, id) {
            let id = choose|id: i64| #[trigger] s.deleted(t, id);
            assert(t.live(k) == (s.live(k) && k != id));
        }
    }
}

/// Creating a note through the service and reading it back gives the
/// trimmed title, the body, the normalized references and exactly the
/// normalized tags, sorted.
pub proof fn law_service_round_trip(
    s: StoreView,
    t: StoreView,
    id: i64,
    c: CreateNote,
    now: Seq<char>,
    title: Seq<char>,
    body: Seq<char>,
    tags: Seq<Seq<char>>,
    references: Seq<Seq<char>>,
    n: Note,
)
    requires
        note_prepared(c, title, body, tags, references),
        s.created(t, id, c.title@, c.body@, texts(c.tags@), texts(c.references@), now),
        t.loaded(n),
        n.id == id,
    ensures
        n.title@ == trim_of(title),
        n.body@ == body,
        texts(n.references@) == references_normalized(references),
        tags_normalized(texts(n.tags@), tags),
{
    law_round_trip(s, t, id, c.title@, c.body@, texts(c.tags@), texts(c.references@), now, n);
    assert forall|x: Seq<char>| texts(n.tags@).contains(x) <==> texts(c.tags@).contains(x) by {
        assert(t.has_link(x, id) == texts(c.tags@).contains(x));
    }
}

} // verus!
