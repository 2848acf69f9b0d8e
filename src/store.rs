//! The file-based store, as a model: the record store, the tag index and the
//! ID counter of one store root.
//!
//! A store root holds `notes/<id>.json` (one record per live note),
//! `tags/<tag>/<id>.json` (one link entry per tag of a note) and `counter`
//! (the last ID handed out). [`FilesDatabase`] holds the same three parts in
//! memory; its view is [`StoreView`]. The code that moves files mirrors each
//! operation on disk.
use vstd::prelude::*;
use crate::error::Error;
use crate::clock::{current_timestamp, is_timestamp};
use crate::note::{CreateNote, Note, NoteQuery, TagCount, UpdateNote};
use crate::search::{Matcher, regex_finds, regex_compiles, search_pattern, compile_search, text_matches};
use crate::text::{texts, texts_sorted, text_lt, lemma_text_cmp, lemma_text_lt_trans, compare_text};

mod index;
mod order;
mod records;

pub use index::{dir_link, names_sorted};
pub use order::{
    counts_sorted, has_id, in_range, lemma_sorts_before, limit_of, limited, note_before, notes_sorted, pattern_of,
    ranks_before, sorts_before,
};
pub use records::{ids_increasing, seq_index, seq_live, seq_record};
use index::{
    contains_id, copy_ids, lemma_dir_link_insert, lemma_dir_link_prefix, lemma_dir_link_push, lemma_dir_link_update,
    lemma_dir_unique, without_id,
};
use order::{in_any, insert_ranked, insert_sorted, within_range};
use records::{
    copy_file, lemma_distinct_ids_bound, lemma_index, lemma_records_insert, lemma_records_remove, lemma_records_update,
};

verus! {

/// A note as held in the record store: everything but its ID and its tags.
#[derive(Debug, Clone)]
pub struct NoteFile {
    pub title: String,
    pub body: String,
    pub references: Vec<String>,
    /// Last modification, as `YYYY-MM-DD HH:MM:SS`.
    pub modified: String,
}

/// What a record holds, as texts.
pub ghost struct RecordView {
    pub title: Seq<char>,
    pub body: Seq<char>,
    pub references: Seq<Seq<char>>,
    pub modified: Seq<char>,
}

impl View for NoteFile {
    type V = RecordView;

    open spec fn view(&self) -> RecordView {
        RecordView {
            title: self.title@,
            body: self.body@,
            references: texts(self.references@),
            modified: self.modified@,
        }
    }
}

/// The state of a store: what its three parts hold.
pub ghost struct StoreView {
    /// The records, by increasing ID.
    pub records: Seq<(i64, RecordView)>,
    /// The tag directories by increasing name, each with the IDs of its link
    /// entries.
    pub dirs: Seq<(Seq<char>, Seq<i64>)>,
    /// The last ID handed out.
    pub counter: int,
}

impl StoreView {
    /// A note with this ID exists.
    pub open spec fn live(self, id: i64) -> bool {
        seq_live(self.records, id)
    }

    /// The record of the note with this ID.
    pub open spec fn record(self, id: i64) -> RecordView {
        seq_record(self.records, id)
    }

    /// The tag index says that note `id` carries tag `t`.
    pub open spec fn has_link(self, t: Seq<char>, id: i64) -> bool {
        dir_link(self.dirs, t, id)
    }

    /// `n` is note `n.id` as the store holds it: its record, and its tags as
    /// the tag index gives them, sorted.
    pub open spec fn loaded(self, n: Note) -> bool {
        &&& self.live(n.id)
        &&& n.title@ == self.record(n.id).title
        &&& n.body@ == self.record(n.id).body
        &&& texts(n.references@) == self.record(n.id).references
        &&& n.updated_at@ == self.record(n.id).modified
        &&& texts_sorted(texts(n.tags@))
        &&& forall|t: Seq<char>| texts(n.tags@).contains(t) <==> self.has_link(t, n.id)
    }

    /// Note `id` passes the tag filter: no tags given, or it carries one of
    /// them.
    pub open spec fn tag_filter(self, id: i64, tags: Option<Vec<String>>) -> bool {
        match tags {
            None => true,
            Some(v) => v@.len() == 0 || exists|j: int| 0 <= j < v@.len() && self.has_link(v@[j]@, id),
        }
    }

    /// Note `id` is live and passes the tag filter, the date bounds and, if
    /// a pattern is given, has a match of it in its title or its body.
    pub open spec fn selected(
        self,
        id: i64,
        tags: Option<Vec<String>>,
        from: Option<String>,
        to: Option<String>,
        pattern: Option<Seq<char>>,
    ) -> bool {
        &&& self.live(id)
        &&& self.tag_filter(id, tags)
        &&& in_range(self.record(id).modified, from, to)
        &&& (pattern matches Some(p) ==> regex_finds(p, self.record(id).title) || regex_finds(p, self.record(id).body))
    }

    /// `r` lists exactly the selected notes, as the store holds them, in
    /// listing order.
    pub open spec fn lists_selected(
        self,
        r: Seq<Note>,
        tags: Option<Vec<String>>,
        from: Option<String>,
        to: Option<String>,
        pattern: Option<Seq<char>>,
    ) -> bool {
        &&& notes_sorted(r)
        &&& forall|a: int| 0 <= a < r.len() ==> self.loaded(#[trigger] r[a]) && self.selected(r[a].id, tags, from, to, pattern)
        &&& forall|id: i64| self.selected(id, tags, from, to, pattern) ==> has_id(r, id)
    }

    /// The IDs of the selected notes.
    pub open spec fn selected_ids(
        self,
        tags: Option<Vec<String>>,
        from: Option<String>,
        to: Option<String>,
        pattern: Option<Seq<char>>,
    ) -> Set<i64> {
        Set::new(|id: i64| self.selected(id, tags, from, to, pattern))
    }

    /// A listing of the selected notes holds each of them once: its length is
    /// their number.
    pub proof fn lemma_listing_len(
        self,
        r: Seq<Note>,
        tags: Option<Vec<String>>,
        from: Option<String>,
        to: Option<String>,
        pattern: Option<Seq<char>>,
    )
        requires
            self.wf(),
            self.lists_selected(r, tags, from, to, pattern),
        ensures
            self.selected_ids(tags, from, to, pattern).finite(),
            r.len() == self.selected_ids(tags, from, to, pattern).len(),
            r.len() <= self.counter,
    {
        let ids = r.map_values(|n: Note| n.id);
        assert(ids.no_duplicates()) by {
            assert forall|a: int, b: int| 0 <= a < ids.len() && 0 <= b < ids.len() && a != b implies ids[a] != ids[b] by {
                assert(self.loaded(r[a]));
                assert(self.loaded(r[b]));
                lemma_text_cmp(r[a].updated_at@, r[a].updated_at@);
                if a < b {
                    assert(note_before(r[a], r[b]));
                } else {
                    assert(note_before(r[b], r[a]));
                }
            }
        }
        ids.unique_seq_to_set();
        assert(ids.to_set() =~= self.selected_ids(tags, from, to, pattern)) by {
            assert forall|id: i64| ids.to_set().contains(id) <==> self.selected(id, tags, from, to, pattern) by {
                if ids.to_set().contains(id) {
                    assert(ids.contains(id));
                    let a = choose|a: int| 0 <= a < ids.len() && ids[a] == id;
                    assert(self.loaded(r[a]));
                }
                if self.selected(id, tags, from, to, pattern) {
                    assert(has_id(r, id));
                    let a = choose|a: int| 0 <= a < r.len() && r[a].id == id;
                    assert(ids[a] == id);
                    assert(ids.contains(id));
                }
            }
        }
        assert forall|k: int| 0 <= k < ids.len() implies 1 <= #[trigger] ids[k] <= self.counter by {
            assert(self.loaded(r[k]));
            let i = choose|i: int| 0 <= i < self.records.len() && self.records[i].0 == ids[k];
            assert(1 <= self.records[i].0 <= self.counter);
        }
        lemma_distinct_ids_bound(ids, self.counter);
    }

    /// `next` is this state after note `id` was created with these fields at
    /// time `now`: the ID is one above the counter, which now holds it, the
    /// note has that record and exactly these tags, and nothing else changed.
    pub open spec fn created(
        self,
        next: StoreView,
        id: i64,
        title: Seq<char>,
        body: Seq<char>,
        tags: Seq<Seq<char>>,
        references: Seq<Seq<char>>,
        now: Seq<char>,
    ) -> bool {
        &&& id == self.counter + 1
        &&& next.counter == id
        &&& next.live(id)
        &&& next.record(id) == (RecordView { title, body, references, modified: now })
        &&& forall|k: i64| k != id ==> next.live(k) == self.live(k)
        &&& forall|k: i64| k != id && self.live(k) ==> next.record(k) == self.record(k)
        &&& forall|t: Seq<char>, k: i64| next.has_link(t, k) == if k == id { tags.contains(t) } else { self.has_link(t, k) }
    }

    /// `next` is this state after live note `id` was updated with `u` at time
    /// `now`: each field given replaces the note's own, tags given replace its
    /// tags wholesale, the time is refreshed, and nothing else changed.
    pub open spec fn updated(self, next: StoreView, id: i64, u: UpdateNote, now: Seq<char>) -> bool {
        &&& next.counter == self.counter
        &&& forall|k: i64| next.live(k) == self.live(k)
        &&& forall|k: i64| k != id && self.live(k) ==> next.record(k) == self.record(k)
        &&& next.record(id) == (RecordView {
            title: match u.title { Some(t) => t@, None => self.record(id).title },
            body: match u.body { Some(b) => b@, None => self.record(id).body },
            references: match u.references { Some(v) => texts(v@), None => self.record(id).references },
            modified: now,
        })
        &&& forall|t: Seq<char>, k: i64| next.has_link(t, k) == match u.tags {
            Some(v) => if k == id { texts(v@).contains(t) } else { self.has_link(t, k) },
            None => self.has_link(t, k),
        }
    }

    /// `next` is this state after note `id` was deleted: it and its links are
    /// gone, and nothing else changed.
    pub open spec fn deleted(self, next: StoreView, id: i64) -> bool {
        &&& next.counter == self.counter
        &&& forall|k: i64| next.live(k) == (self.live(k) && k != id)
        &&& forall|k: i64| k != id && self.live(k) ==> next.record(k) == self.record(k)
        &&& forall|t: Seq<char>, k: i64| next.has_link(t, k) == (self.has_link(t, k) && k != id)
    }

    /// The IDs of the notes that carry tag `t`.
    pub open spec fn tagged(self, t: Seq<char>) -> Set<i64> {
        Set::new(|k: i64| self.has_link(t, k))
    }

    /// Tag `t` has at least one note, so it shows in the tag list.
    pub open spec fn tag_in_use(self, t: Seq<char>) -> bool {
        exists|k: i64| self.has_link(t, k)
    }

    /// `r` lists every tag in use once, with the number of its notes, by
    /// descending count, then ascending name.
    pub open spec fn lists_tags(self, r: Seq<TagCount>) -> bool {
        &&& counts_sorted(r)
        &&& forall|a: int| 0 <= a < r.len() ==> r[a].count == self.tagged(#[trigger] r[a].name@).len()
            && self.tag_in_use(r[a].name@)
        &&& forall|t: Seq<char>| self.tag_in_use(t) ==> exists|a: int| 0 <= a < r.len() && #[trigger] r[a].name@ == t
    }

    /// The notes of the tag of directory `j` are its links.
    pub proof fn lemma_tagged_dir(self, j: int)
        requires
            self.wf(),
            0 <= j < self.dirs.len(),
        ensures
            self.tagged(self.dirs[j].0).finite(),
            self.tagged(self.dirs[j].0).len() == self.dirs[j].1.len(),
            self.dirs[j].1.len() <= self.counter,
            self.tag_in_use(self.dirs[j].0),
    {
        let l = self.dirs[j].1;
        lemma_dir_unique(self.dirs, j);
        assert(self.tagged(self.dirs[j].0) =~= l.to_set());
        l.unique_seq_to_set();
        assert forall|k: int| 0 <= k < l.len() implies 1 <= #[trigger] l[k] <= self.counter by {
            assert(seq_live(self.records, l[k]));
            let i = choose|i: int| 0 <= i < self.records.len() && self.records[i].0 == l[k];
            assert(1 <= self.records[i].0 <= self.counter);
        }
        lemma_distinct_ids_bound(l, self.counter);
        assert(l.contains(l[0]));
        assert(self.has_link(self.dirs[j].0, l[0]));
    }

    /// The tag directories are sorted by name, none is empty, none holds a
    /// link twice, and every link names a live note.
    pub open spec fn dirs_wf(self) -> bool {
        &&& names_sorted(self.dirs)
        &&& forall|j: int| 0 <= j < self.dirs.len() ==> self.dirs[j].1.len() > 0
        &&& forall|j: int| 0 <= j < self.dirs.len() ==> self.dirs[j].1.no_duplicates()
        &&& forall|j: int, k: int| 0 <= j < self.dirs.len() && 0 <= k < self.dirs[j].1.len()
            ==> seq_live(self.records, self.dirs[j].1[k])
    }

    /// The invariant of a store: IDs are positive, unique and never above
    /// the counter; the tag index is a projection over the live notes.
    pub open spec fn wf(self) -> bool {
        &&& 0 <= self.counter <= i64::MAX
        &&& ids_increasing(self.records)
        &&& forall|i: int| 0 <= i < self.records.len() ==> 1 <= #[trigger] self.records[i].0 <= self.counter
        &&& self.dirs_wf()
    }
}

/// The record of note `id`, as `notes/<id>.json` holds it.
struct Record {
    id: i64,
    file: NoteFile,
}

/// The directory `tags/<name>/`, with the IDs of its link entries.
struct TagDir {
    name: String,
    links: Vec<i64>,
}

spec fn records_view(v: Seq<Record>) -> Seq<(i64, RecordView)> {
    v.map_values(|r: Record| (r.id, r.file@))
}

spec fn dirs_view(v: Seq<TagDir>) -> Seq<(Seq<char>, Seq<i64>)> {
    v.map_values(|d: TagDir| (d.name@, d.links@))
}

/// A note store: its records, its tag index and its ID counter.
pub struct FilesDatabase {
    records: Vec<Record>,
    dirs: Vec<TagDir>,
    counter: i64,
}

impl View for FilesDatabase {
    type V = StoreView;

    closed spec fn view(&self) -> StoreView {
        StoreView {
            records: records_view(self.records@),
            dirs: dirs_view(self.dirs@),
            counter: self.counter as int,
        }
    }
}

impl FilesDatabase {
    /// An empty store: no notes, no tags, and a counter at zero.
    pub fn new() -> (r: FilesDatabase)
        ensures
            r@.wf(),
            r@.records.len() == 0,
            r@.dirs.len() == 0,
            r@.counter == 0,
    {
        let r = FilesDatabase { records: Vec::new(), dirs: Vec::new(), counter: 0 };
        assert(r@.records =~= Seq::empty());
        assert(r@.dirs =~= Seq::empty());
        r
    }

    /// The position of the first record whose ID is not below `id`.
    fn record_position(&self, id: i64) -> (r: usize)
        requires
            self@.wf(),
        ensures
            r <= self@.records.len(),
            forall|i: int| 0 <= i < r ==> self@.records[i].0 < id,
            forall|i: int| r <= i < self@.records.len() ==> id <= self@.records[i].0,
    {
        let mut p: usize = 0;
        while p < self.records.len() && self.records[p].id < id
            invariant
                p <= self.records.len(),
                self@.wf(),
                forall|i: int| 0 <= i < p ==> self@.records[i].0 < id,
            decreases self.records.len() - p,
        {
            p = p + 1;
        }
        proof {
            if p < self.records.len() {
                assert(self@.records[p as int].0 == self.records@[p as int].id);
                assert forall|i: int| p <= i < self@.records.len() implies id <= self@.records[i].0 by {
                    if i > p {
                        assert(self@.records[p as int].0 < self@.records[i].0);
                    }
                }
            }
        }
        p
    }

    /// The position of the record of note `id`, if it is live.
    fn find_record(&self, id: i64) -> (r: Option<usize>)
        requires
            self@.wf(),
        ensures
            match r {
                Some(i) => i < self@.records.len() && self@.records[i as int].0 == id
                    && seq_index(self@.records, id) == i,
                None => !self@.live(id),
            },
    {
        let p = self.record_position(id);
        if p < self.records.len() && self.records[p].id == id {
            proof {
                lemma_index(self@.records, p as int);
            }
            Some(p)
        } else {
            assert(!self@.live(id)) by {
                if self@.live(id) {
                    let i = choose|i: int| 0 <= i < self@.records.len() && self@.records[i].0 == id;
                    if i > p {
                        assert(self@.records[p as int].0 < self@.records[i].0);
                    }
                }
            }
            None
        }
    }

    /// The position of the tag directory named `tag`, and whether it exists;
    /// where it does not, the position where it would stand.
    fn dir_position(&self, tag: &str) -> (r: (usize, bool))
        requires
            self@.dirs_wf(),
        ensures
            r.0 <= self@.dirs.len(),
            r.1 ==> r.0 < self@.dirs.len() && self@.dirs[r.0 as int].0 == tag@,
            !r.1 ==> forall|i: int| 0 <= i < r.0 ==> text_lt(self@.dirs[i].0, tag@),
            !r.1 ==> forall|i: int| r.0 <= i < self@.dirs.len() ==> text_lt(tag@, self@.dirs[i].0),
            !r.1 ==> forall|k: i64| !self@.has_link(tag@, k),
    {
        let mut p: usize = 0;
        while p < self.dirs.len()
            invariant
                p <= self.dirs.len(),
                self@.dirs_wf(),
                forall|i: int| 0 <= i < p ==> text_lt(self@.dirs[i].0, tag@),
            decreases self.dirs.len() - p,
        {
            assert(self@.dirs[p as int].0 == self.dirs@[p as int].name@);
            let c = compare_text(self.dirs[p].name.as_str(), tag);
            proof {
                lemma_text_cmp(self@.dirs[p as int].0, tag@);
            }
            if c == 0 {
                return (p, true);
            }
            if c > 0 {
                proof {
                    assert forall|i: int| p <= i < self@.dirs.len() implies text_lt(tag@, self@.dirs[i].0) by {
                        if i > p {
                            lemma_text_lt_trans(tag@, self@.dirs[p as int].0, self@.dirs[i].0);
                        }
                    }
                    self.lemma_absent(tag@, p as int);
                }
                return (p, false);
            }
            p = p + 1;
        }
        proof {
            self.lemma_absent(tag@, p as int);
        }
        (p, false)
    }

    proof fn lemma_absent(&self, t: Seq<char>, p: int)
        requires
            0 <= p <= self@.dirs.len(),
            forall|i: int| 0 <= i < p ==> text_lt(self@.dirs[i].0, t),
            forall|i: int| p <= i < self@.dirs.len() ==> text_lt(t, self@.dirs[i].0),
        ensures
            forall|k: i64| !self@.has_link(t, k),
    {
        lemma_text_cmp(t, t);
        assert forall|k: i64| !self@.has_link(t, k) by {
            if self@.has_link(t, k) {
                let j = choose|j: int| 0 <= j < self@.dirs.len() && self@.dirs[j].0 == t
                    && #[trigger] self@.dirs[j].1.contains(k);
                if j < p {
                    assert(text_lt(self@.dirs[j].0, t));
                } else {
                    assert(text_lt(t, self@.dirs[j].0));
                }
            }
        }
    }

    /// The IDs of the notes that carry `tag`; none where the tag has no
    /// directory.
    pub fn ids_with_tag(&self, tag: &str) -> (r: Vec<i64>)
        requires
            self@.wf(),
        ensures
            r@.no_duplicates(),
            forall|k: i64| r@.contains(k) <==> self@.has_link(tag@, k),
    {
        let (p, found) = self.dir_position(tag);
        if found {
            proof {
                lemma_dir_unique(self@.dirs, p as int);
            }
            assert(self@.dirs[p as int].1 == self.dirs@[p as int].links@);
            copy_ids(&self.dirs[p].links)
        } else {
            let r: Vec<i64> = Vec::new();
            assert(forall|k: i64| !r@.contains(k));
            r
        }
    }

    /// Adds a link from tag directory `tag` to note `id`, creating the
    /// directory if need be.
    fn add_link(&mut self, tag: &String, id: i64)
        requires
            old(self)@.wf(),
            old(self)@.live(id),
        ensures
            final(self)@.wf(),
            final(self)@.records == old(self)@.records,
            final(self)@.counter == old(self)@.counter,
            forall|t: Seq<char>, k: i64| final(self)@.has_link(t, k)
                == (old(self)@.has_link(t, k) || (t == tag@ && k == id)),
    {
        let ghost d = self@.dirs;
        let (p, found) = self.dir_position(tag.as_str());
        if found {
            let mut dir = self.dirs.remove(p);
            assert(dir.links@ == d[p as int].1);
            if !contains_id(&dir.links, id) {
                dir.links.push(id);
                assert(dir.links@.no_duplicates()) by {
                    let l = dir.links@;
                    assert forall|a: int, b: int| 0 <= a < b < l.len() implies l[a] != l[b] by {
                        if b == l.len() - 1 {
                            assert(d[p as int].1.contains(l[a]) ==> l[a] != id);
                            assert(d[p as int].1[a] == l[a]);
                        } else {
                            assert(d[p as int].1[a] == l[a]);
                            assert(d[p as int].1[b] == l[b]);
                        }
                    }
                }
            }
            let ghost links = dir.links@;
            assert(forall|x: i64| links.contains(x) <==> (d[p as int].1.contains(x) || x == id)) by {
                assert forall|x: i64| links.contains(x) <==> (d[p as int].1.contains(x) || x == id) by {
                    if links.contains(x) {
                        let a = choose|a: int| 0 <= a < links.len() && links[a] == x;
                        if a < d[p as int].1.len() {
                            assert(d[p as int].1[a] == x);
                        }
                    }
                    if d[p as int].1.contains(x) {
                        let a = choose|a: int| 0 <= a < d[p as int].1.len() && d[p as int].1[a] == x;
                        assert(links[a] == x);
                    }
                    if x == id && !d[p as int].1.contains(x) {
                        assert(links[links.len() - 1] == x);
                    }
                }
            }
            self.dirs.insert(p, dir);
            proof {
                assert(self@.dirs =~= d.update(p as int, (d[p as int].0, links)));
                lemma_dir_link_update(d, p as int, links);
                lemma_dir_unique(d, p as int);
            }
        } else {
            let mut links: Vec<i64> = Vec::new();
            links.push(id);
            self.dirs.insert(p, TagDir { name: tag.clone(), links });
            proof {
                assert(self@.dirs =~= d.insert(p as int, (tag@, seq![id])));
                lemma_dir_link_insert(d, p as int, tag@, seq![id]);
                assert(seq![id][0] == id);
                assert(seq![id].contains(id));
                assert(forall|x: i64| seq![id].contains(x) ==> x == id);
            }
        }
        proof {
            assert forall|j: int| 0 <= j < self@.dirs.len() implies self@.dirs[j].1.len() > 0
                && self@.dirs[j].1.no_duplicates() by {
                if !found && j > p {
                    assert(self@.dirs[j] == d[j - 1]);
                } else if !found && j < p {
                    assert(self@.dirs[j] == d[j]);
                } else if found && j != p {
                    assert(self@.dirs[j] == d[j]);
                }
            }
            assert forall|j: int, k: int| 0 <= j < self@.dirs.len() && 0 <= k < self@.dirs[j].1.len()
                implies seq_live(self@.records, self@.dirs[j].1[k]) by {
                let x = self@.dirs[j].1[k];
                assert(self@.dirs[j].1.contains(x));
                assert(self@.has_link(self@.dirs[j].0, x));
                if x != id {
                    assert(dir_link(d, self@.dirs[j].0, x));
                    let i = choose|i: int| 0 <= i < d.len() && d[i].0 == self@.dirs[j].0
                        && #[trigger] d[i].1.contains(x);
                    let m = choose|m: int| 0 <= m < d[i].1.len() && d[i].1[m] == x;
                }
            }
        }
    }

    /// Removes every link to note `id`, and prunes the tag directories left
    /// empty.
    #[verifier::spinoff_prover]
    #[verifier::rlimit(50)]
    fn remove_links(&mut self, id: i64)
        requires
            old(self)@.wf(),
        ensures
            final(self)@.wf(),
            final(self)@.records == old(self)@.records,
            final(self)@.counter == old(self)@.counter,
            forall|t: Seq<char>, k: i64| final(self)@.has_link(t, k) == (old(self)@.has_link(t, k) && k != id),
            forall|t: Seq<char>| !final(self)@.has_link(t, id),
    {
        let ghost d = self@.dirs;
        let ghost recs = self@.records;
        let mut out: Vec<TagDir> = Vec::new();
        let mut i: usize = 0;
        while i < self.dirs.len()
            invariant
                i <= self.dirs.len(),
                self@.wf(),
                self@.dirs == d,
                self@.records == recs,
                names_sorted(dirs_view(out@)),
                forall|a: int, j: int| 0 <= a < out@.len() && i <= j < d.len()
                    ==> text_lt(out@[a].name@, d[j].0),
                forall|a: int| 0 <= a < out@.len() ==> out@[a].links@.len() > 0 && out@[a].links@.no_duplicates(),
                forall|a: int, k: int| 0 <= a < out@.len() && 0 <= k < out@[a].links@.len()
                    ==> seq_live(recs, out@[a].links@[k]),
                forall|t: Seq<char>, k: i64| dir_link(dirs_view(out@), t, k)
                    == (dir_link(d.subrange(0, i as int), t, k) && k != id),
            decreases self.dirs.len() - i,
        {
            let ghost od = dirs_view(out@);
            let ghost old_out = out@;
            assert(d[i as int] == (self.dirs@[i as int].name@, self.dirs@[i as int].links@));
            let links = without_id(&self.dirs[i].links, id);
            proof {
                lemma_dir_link_prefix(d, i as int);
            }
            if links.len() > 0 {
                let ghost lv = links@;
                out.push(TagDir { name: self.dirs[i].name.clone(), links });
                proof {
                    let nd = dirs_view(out@);
                    assert(nd =~= od.push((d[i as int].0, lv)));
                    lemma_dir_link_push(od, (d[i as int].0, lv));
                    assert forall|t: Seq<char>, k: i64| dir_link(nd, t, k)
                        == (dir_link(d.subrange(0, i + 1), t, k) && k != id) by {
                        assert(lv.contains(k) <==> (d[i as int].1.contains(k) && k != id));
                        assert(dir_link(od, t, k) == (dir_link(d.subrange(0, i as int), t, k) && k != id));
                        assert(dir_link(nd, t, k) == (dir_link(od, t, k) || (d[i as int].0 == t && lv.contains(k))));
                        assert(dir_link(d.subrange(0, i + 1), t, k) == (dir_link(d.subrange(0, i as int), t, k)
                            || (d[i as int].0 == t && d[i as int].1.contains(k))));
                    }
                    assert forall|a: int, b: int| 0 <= a < b < nd.len() implies text_lt(nd[a].0, nd[b].0) by {
                        if b == nd.len() - 1 {
                            assert(nd[a] == od[a]);
                            assert(od[a].0 == old_out[a].name@);
                            assert(text_lt(old_out[a].name@, d[i as int].0));
                        } else {
                            assert(nd[a] == od[a]);
                            assert(nd[b] == od[b]);
                        }
                    }
                    assert forall|a: int, j: int| 0 <= a < out@.len() && i + 1 <= j < d.len()
                        implies text_lt(out@[a].name@, d[j].0) by {
                        if a < out@.len() - 1 {
                            assert(text_lt(od[a].0, d[j].0));
                        }
                    }
                    assert forall|a: int, k: int| 0 <= a < out@.len() && 0 <= k < out@[a].links@.len()
                        implies seq_live(recs, out@[a].links@[k]) by {
                        if a == out@.len() - 1 {
                            assert(lv.contains(lv[k]));
                            let m = choose|m: int| 0 <= m < d[i as int].1.len() && d[i as int].1[m] == lv[k];
                        }
                    }
                }
            } else {
                proof {
                    assert forall|t: Seq<char>, k: i64| dir_link(od, t, k)
                        == (dir_link(d.subrange(0, i + 1), t, k) && k != id) by {
                        assert(!links@.contains(k));
                        assert(links@.contains(k) <==> (d[i as int].1.contains(k) && k != id));
                    }
                }
            }
            i = i + 1;
        }
        proof {
            assert(d.subrange(0, d.len() as int) =~= d);
        }
        self.dirs = out;
        proof {
            assert forall|t: Seq<char>| !self@.has_link(t, id) by {
                assert(self@.has_link(t, id) == (dir_link(d, t, id) && id != id));
            }
        }
    }

    /// Replaces the tags of note `id` by `tags`: its links are removed, one
    /// link per tag is made, and directories left empty are pruned.
    pub fn set_tags(&mut self, id: i64, tags: &Vec<String>)
        requires
            old(self)@.wf(),
            old(self)@.live(id),
        ensures
            final(self)@.wf(),
            final(self)@.records == old(self)@.records,
            final(self)@.counter == old(self)@.counter,
            forall|t: Seq<char>, k: i64| final(self)@.has_link(t, k)
                == if k == id { texts(tags@).contains(t) } else { old(self)@.has_link(t, k) },
    {
        let ghost v0 = self@;
        self.remove_links(id);
        let mut i: usize = 0;
        while i < tags.len()
            invariant
                i <= tags.len(),
                self@.wf(),
                self@.records == v0.records,
                self@.counter == v0.counter,
                self@.live(id),
                forall|t: Seq<char>, k: i64| self@.has_link(t, k)
                    == if k == id { texts(tags@.subrange(0, i as int)).contains(t) } else { v0.has_link(t, k) },
            decreases tags.len() - i,
        {
            let ghost before = self@;
            self.add_link(&tags[i], id);
            proof {
                let pre = texts(tags@.subrange(0, i as int));
                let post = texts(tags@.subrange(0, i + 1));
                assert(post =~= pre.push(tags@[i as int]@));
                assert forall|t: Seq<char>, k: i64| self@.has_link(t, k)
                    == if k == id { post.contains(t) } else { v0.has_link(t, k) } by {
                    assert(self@.has_link(t, k) == (before.has_link(t, k) || (t == tags@[i as int]@ && k == id)));
                    if k == id {
                        if post.contains(t) && t != tags@[i as int]@ {
                            let a = choose|a: int| 0 <= a < post.len() && post[a] == t;
                            assert(pre[a] == t);
                        }
                        if pre.contains(t) {
                            let a = choose|a: int| 0 <= a < pre.len() && pre[a] == t;
                            assert(post[a] == t);
                        }
                        if t == tags@[i as int]@ {
                            assert(post[i as int] == t);
                        }
                    }
                }
            }
            i = i + 1;
        }
        proof {
            assert(tags@.subrange(0, tags.len() as int) =~= tags@);
        }
    }

    /// The tags of note `id`: the names of the tag directories that link to
    /// it, sorted.
    pub fn tags_of(&self, id: i64) -> (r: Vec<String>)
        requires
            self@.wf(),
        ensures
            texts_sorted(texts(r@)),
            forall|t: Seq<char>| texts(r@).contains(t) <==> self@.has_link(t, id),
    {
        let ghost d = self@.dirs;
        let mut r: Vec<String> = Vec::new();
        let mut i: usize = 0;
        while i < self.dirs.len()
            invariant
                i <= self.dirs.len(),
                self@.wf(),
                self@.dirs == d,
                texts_sorted(texts(r@)),
                forall|a: int, j: int| 0 <= a < r@.len() && i <= j < d.len() ==> text_lt(r@[a]@, d[j].0),
                forall|t: Seq<char>| texts(r@).contains(t) <==> dir_link(d.subrange(0, i as int), t, id),
            decreases self.dirs.len() - i,
        {
            assert(d[i as int] == (self.dirs@[i as int].name@, self.dirs@[i as int].links@));
            proof {
                lemma_dir_link_prefix(d, i as int);
            }
            let ghost before = texts(r@);
            if contains_id(&self.dirs[i].links, id) {
                r.push(self.dirs[i].name.clone());
                proof {
                    let after = texts(r@);
                    assert(after =~= before.push(d[i as int].0));
                    assert forall|a: int, b: int| 0 <= a < b < after.len() implies text_lt(after[a], after[b]) by {
                        if b == after.len() - 1 {
                            assert(text_lt(r@[a]@, d[i as int].0));
                        } else {
                            assert(after[a] == before[a] && after[b] == before[b]);
                        }
                    }
                    assert forall|a: int, j: int| 0 <= a < r@.len() && i + 1 <= j < d.len()
                        implies text_lt(r@[a]@, d[j].0) by {
                        if a == r@.len() - 1 {
                            assert(text_lt(d[i as int].0, d[j].0));
                        } else {
                            assert(before[a] == r@[a]@);
                        }
                    }
                    assert forall|t: Seq<char>| after.contains(t) <==> dir_link(d.subrange(0, i + 1), t, id) by {
                        if after.contains(t) && t != d[i as int].0 {
                            let a = choose|a: int| 0 <= a < after.len() && after[a] == t;
                            assert(before[a] == t);
                        }
                        if before.contains(t) {
                            let a = choose|a: int| 0 <= a < before.len() && before[a] == t;
                            assert(after[a] == t);
                        }
                        if t == d[i as int].0 {
                            assert(after[after.len() - 1] == t);
                        }
                    }
                }
            } else {
                proof {
                    assert forall|a: int, j: int| 0 <= a < r@.len() && i + 1 <= j < d.len()
                        implies text_lt(r@[a]@, d[j].0) by {
                    }
                }
            }
            i = i + 1;
        }
        proof {
            assert(d.subrange(0, d.len() as int) =~= d);
        }
        r
    }

    /// Note `id` as the store holds it, or `None` where it does not exist.
    pub fn get_note(&self, id: i64) -> (r: Option<Note>)
        requires
            self@.wf(),
        ensures
            r is Some <==> self@.live(id),
            r matches Some(n) ==> n.id == id && self@.loaded(n),
    {
        match self.find_record(id) {
            None => None,
            Some(p) => {
                let file = copy_file(&self.records[p].file);
                let tags = self.tags_of(id);
                proof {
                    lemma_index(self@.records, p as int);
                    assert(self@.records[p as int] == (self.records@[p as int].id, self.records@[p as int].file@));
                }
                Some(Note {
                    id,
                    title: file.title,
                    body: file.body,
                    tags,
                    references: file.references,
                    updated_at: file.modified,
                })
            },
        }
    }

    /// Deletes note `id`: its record and every link to it, pruning the tag
    /// directories left empty. Answers whether the note existed.
    pub fn delete_note(&mut self, id: i64) -> (r: bool)
        requires
            old(self)@.wf(),
        ensures
            final(self)@.wf(),
            r == old(self)@.live(id),
            old(self)@.deleted(final(self)@, id),
    {
        match self.find_record(id) {
            None => {
                assert forall|t: Seq<char>, k: i64| self@.has_link(t, k) implies k != id by {
                    let j = choose|j: int| 0 <= j < self@.dirs.len() && self@.dirs[j].0 == t
                        && #[trigger] self@.dirs[j].1.contains(k);
                    let m = choose|m: int| 0 <= m < self@.dirs[j].1.len() && self@.dirs[j].1[m] == k;
                }
                false
            },
            Some(p) => {
                self.remove_links(id);
                let ghost s = self@.records;
                let ghost d = self@.dirs;
                let ghost mid = self@;
                self.records.remove(p);
                proof {
                    assert(self@.records =~= s.remove(p as int));
                    lemma_records_remove(s, p as int);
                    assert(self@.dirs == d);
                    assert forall|i: int| 0 <= i < self@.records.len() implies 1 <= #[trigger] self@.records[i].0
                        <= self@.counter by {
                        if i < p {
                            assert(self@.records[i] == s[i]);
                        } else {
                            assert(self@.records[i] == s[i + 1]);
                        }
                    }
                    assert forall|j: int, k: int| 0 <= j < self@.dirs.len() && 0 <= k < self@.dirs[j].1.len()
                        implies seq_live(self@.records, self@.dirs[j].1[k]) by {
                        let x = d[j].1[k];
                        assert(d[j].1.contains(x));
                        assert(dir_link(d, d[j].0, x));
                        assert(!mid.has_link(d[j].0, id));
                        assert(x != id);
                    }
                    assert(self@.dirs_wf());
                }
                true
            },
        }
    }

    /// For each tag of the filter, the IDs that the tag index gives for it.
    fn tag_lookups(&self, tags: &Vec<String>) -> (r: Vec<Vec<i64>>)
        requires
            self@.wf(),
        ensures
            r@.len() == tags@.len(),
            forall|j: int, k: i64| 0 <= j < r@.len() ==> (r@[j]@.contains(k) <==> self@.has_link(tags@[j]@, k)),
    {
        let mut r: Vec<Vec<i64>> = Vec::new();
        let mut i: usize = 0;
        while i < tags.len()
            invariant
                i <= tags.len(),
                self@.wf(),
                r@.len() == i,
                forall|j: int, k: i64| 0 <= j < i ==> (r@[j]@.contains(k) <==> self@.has_link(tags@[j]@, k)),
            decreases tags.len() - i,
        {
            let ids = self.ids_with_tag(tags[i].as_str());
            r.push(ids);
            i = i + 1;
        }
        r
    }

    /// The notes that pass the tag filter (any of the tags), the date bounds
    /// and the matcher, in listing order: most recently modified first, then
    /// the larger ID first.
    fn select(
        &self,
        tags: &Option<Vec<String>>,
        from: &Option<String>,
        to: &Option<String>,
        matcher: Option<&Matcher>,
    ) -> (r: Vec<Note>)
        requires
            self@.wf(),
        ensures
            self@.lists_selected(r@, *tags, *from, *to, pattern_of(matcher)),
    {
        let ghost pat = pattern_of(matcher);
        let ghost recs = self@.records;
        let (filtering, lookups) = match tags {
            Some(v) => (v.len() > 0, self.tag_lookups(v)),
            None => (false, Vec::new()),
        };
        let mut out: Vec<Note> = Vec::new();
        let mut i: usize = 0;
        while i < self.records.len()
            invariant
                i <= self.records.len(),
                self@.wf(),
                recs == self@.records,
                pat == pattern_of(matcher),
                tags matches Some(v) ==> filtering == (v@.len() > 0) && lookups@.len() == v@.len()
                    && forall|j: int, k: i64| 0 <= j < v@.len() ==> (lookups@[j]@.contains(k) <==> self@.has_link(v@[j]@, k)),
                tags is None ==> !filtering,
                notes_sorted(out@),
                forall|a: int| 0 <= a < out@.len() ==> self@.loaded(#[trigger] out@[a])
                    && self@.selected(out@[a].id, *tags, *from, *to, pat),
                forall|a: int, j: int| 0 <= a < out@.len() && i <= j < recs.len() ==> out@[a].id < recs[j].0,
                forall|j: int| 0 <= j < i && self@.selected(recs[j].0, *tags, *from, *to, pat) ==> has_id(out@, recs[j].0),
            decreases self.records.len() - i,
        {
            let id = self.records[i].id;
            proof {
                assert(recs[i as int] == (self.records@[i as int].id, self.records@[i as int].file@));
                lemma_index(recs, i as int);
            }
            let keep_tag = !filtering || in_any(&lookups, id);
            let keep_date = keep_tag && within_range(&self.records[i].file.modified, from, to);
            let keep = keep_date && match matcher {
                Some(m) => text_matches(m, self.records[i].file.title.as_str(), self.records[i].file.body.as_str()),
                None => true,
            };
            proof {
                if keep_date {
                    assert(self@.tag_filter(id, *tags)) by {
                        if filtering {
                            let v = tags->Some_0;
                            let j = choose|j: int| 0 <= j < lookups@.len() && lookups@[j]@.contains(id);
                            assert(self@.has_link(v@[j]@, id));
                        }
                    }
                }
                if self@.selected(id, *tags, *from, *to, pat) {
                    if filtering {
                        let v = tags->Some_0;
                        let j = choose|j: int| 0 <= j < v@.len() && self@.has_link(v@[j]@, id);
                        assert(lookups@[j]@.contains(id));
                    }
                }
            }
            let ghost o = out@;
            if keep {
                let n = self.get_note(id);
                match n {
                    Some(n) => {
                        proof {
                            assert(!has_id(o, n.id)) by {
                                if has_id(o, n.id) {
                                    let a = choose|a: int| 0 <= a < o.len() && o[a].id == n.id;
                                    assert(o[a].id < recs[i as int].0);
                                }
                            }
                        }
                        let ghost nn = n;
                        insert_sorted(&mut out, n);
                        proof {
                            assert forall|a: int| 0 <= a < out@.len() implies self@.loaded(#[trigger] out@[a])
                                && self@.selected(out@[a].id, *tags, *from, *to, pat) by {
                                assert(out@.contains(out@[a]));
                                if out@[a] != nn {
                                    let b = choose|b: int| 0 <= b < o.len() && o[b] == out@[a];
                                }
                            }
                            assert forall|a: int, j: int| 0 <= a < out@.len() && i + 1 <= j < recs.len()
                                implies out@[a].id < recs[j].0 by {
                                assert(out@.contains(out@[a]));
                                if out@[a] != nn {
                                    let b = choose|b: int| 0 <= b < o.len() && o[b] == out@[a];
                                    assert(o[b].id < recs[j].0);
                                } else {
                                    assert(recs[i as int].0 < recs[j].0);
                                }
                            }
                            assert forall|j: int| 0 <= j < i + 1 && self@.selected(recs[j].0, *tags, *from, *to, pat)
                                implies has_id(out@, recs[j].0) by {
                                if j < i {
                                    let a = choose|a: int| 0 <= a < o.len() && o[a].id == recs[j].0;
                                    assert(o.contains(o[a]));
                                    assert(out@.contains(o[a]));
                                    let b = choose|b: int| 0 <= b < out@.len() && out@[b] == o[a];
                                } else {
                                    assert(out@.contains(nn));
                                    let b = choose|b: int| 0 <= b < out@.len() && out@[b] == nn;
                                }
                            }
                        }
                    },
                    None => {},
                }
            }
            i = i + 1;
        }
        proof {
            assert forall|id: i64| self@.selected(id, *tags, *from, *to, pat) implies has_id(out@, id) by {
                let j = choose|j: int| 0 <= j < recs.len() && recs[j].0 == id;
            }
        }
        out
    }

    /// The notes that a query selects: those carrying any of its tags (all
    /// notes where it names none) and modified within its bounds, most
    /// recently modified first, then the larger ID first, cut to its limit.
    pub fn list_notes(&self, query: NoteQuery) -> (r: Vec<Note>)
        requires
            self@.wf(),
        ensures
            exists|full: Seq<Note>| #[trigger] self@.lists_selected(full, query.tags, query.from, query.to, None)
                && r@ == limited(full, limit_of(query)),
    {
        let mut r = self.select(&query.tags, &query.from, &query.to, None);
        let ghost full = r@;
        let limit: i64 = match query.limit {
            Some(n) => n,
            None => 0,
        };
        if limit > 0 && (limit as u64) < (r.len() as u64) {
            r.truncate(limit as usize);
            assert(r@ =~= full.subrange(0, limit as int));
        }
        proof {
            assert(self@.lists_selected(full, query.tags, query.from, query.to, None));
        }
        r
    }

    /// The number of notes that a query selects, its limit aside.
    pub fn count_notes(&self, query: NoteQuery) -> (r: i64)
        requires
            self@.wf(),
        ensures
            r == self@.selected_ids(query.tags, query.from, query.to, None).len(),
    {
        let r = self.select(&query.tags, &query.from, &query.to, None);
        proof {
            self@.lemma_listing_len(r@, query.tags, query.from, query.to, None);
        }
        r.len() as i64
    }

    /// The notes with a match of `pattern` in their title or body, among
    /// those carrying any of `tags` (all notes where it names none), in
    /// listing order. A pattern that does not compile is a validation error.
    pub fn grep(&self, pattern: &str, tags: &Option<Vec<String>>, case_sensitive: bool) -> (r: Result<Vec<Note>, Error>)
        requires
            self@.wf(),
        ensures
            r is Err <==> !regex_compiles(search_pattern(pattern@, case_sensitive)),
            r matches Err(e) ==> e is Validation,
            r matches Ok(v) ==> self@.lists_selected(v@, *tags, None, None,
                Some(search_pattern(pattern@, case_sensitive))),
    {
        let m = match compile_search(pattern, case_sensitive) {
            Ok(m) => m,
            Err(e) => return Err(e),
        };
        let none_from: Option<String> = None;
        let none_to: Option<String> = None;
        let r = self.select(tags, &none_from, &none_to, Some(&m));
        Ok(r)
    }

    /// Creates a note at time `now`: hands out the next ID, writes the record,
    /// then links the tags. Fails only when no ID is left.
    pub fn add_note_at(&mut self, note: CreateNote, now: String) -> (r: Result<i64, Error>)
        requires
            old(self)@.wf(),
        ensures
            final(self)@.wf(),
            match r {
                Ok(id) => old(self)@.created(final(self)@, id, note.title@, note.body@, texts(note.tags@),
                    texts(note.references@), now@),
                Err(e) => e is Database && old(self)@.counter == i64::MAX && final(self)@ == old(self)@,
            },
    {
        let ghost v0 = self@;
        let id = match self.next_id() {
            Ok(id) => id,
            Err(e) => return Err(e),
        };
        let ghost v1 = self@;
        proof {
            assert(!v0.live(id)) by {
                if v0.live(id) {
                    let i = choose|i: int| 0 <= i < v0.records.len() && v0.records[i].0 == id;
                    assert(v0.records[i].0 <= v0.counter);
                }
            }
            assert forall|t: Seq<char>| !v0.has_link(t, id) by {
                if v0.has_link(t, id) {
                    let j = choose|j: int| 0 <= j < v0.dirs.len() && v0.dirs[j].0 == t && #[trigger] v0.dirs[j].1.contains(id);
                    let m = choose|m: int| 0 <= m < v0.dirs[j].1.len() && v0.dirs[j].1[m] == id;
                }
            }
        }
        let file = NoteFile { title: note.title, body: note.body, references: note.references, modified: now };
        self.write_record(id, file);
        let ghost v2 = self@;
        self.set_tags(id, &note.tags);
        proof {
            assert forall|t: Seq<char>, k: i64| self@.has_link(t, k)
                == if k == id { texts(note.tags@).contains(t) } else { v0.has_link(t, k) } by {
                assert(v2.has_link(t, k) == v1.has_link(t, k));
            }
            assert(v1.records == v0.records);
            assert(id == v0.counter + 1);
            assert(self@.counter == id);
            assert(self@.live(id));
            assert(self@.record(id) == (RecordView { title: note.title@, body: note.body@,
                references: texts(note.references@), modified: now@ }));
            assert forall|k: i64| k != id implies self@.live(k) == v0.live(k) by {
                assert(v2.live(k) == v1.live(k));
                assert(v1.live(k) == v0.live(k));
            }
            assert forall|k: i64| k != id && v0.live(k) implies self@.record(k) == v0.record(k) by {
                assert(v1.live(k));
                assert(v2.record(k) == v1.record(k));
            }
        }
        Ok(id)
    }

    /// Creates a note, stamped with the current time.
    pub fn add_note(&mut self, note: CreateNote) -> (r: Result<i64, Error>)
        requires
            old(self)@.wf(),
        ensures
            final(self)@.wf(),
            match r {
                Ok(id) => exists|now: Seq<char>| is_timestamp(now) && #[trigger] old(self)@.created(final(self)@, id, note.title@, note.body@,
                    texts(note.tags@), texts(note.references@), now),
                Err(e) => e is Database && old(self)@.counter == i64::MAX && final(self)@ == old(self)@,
            },
    {
        let now = current_timestamp();
        self.add_note_at(note, now)
    }

    /// Updates note `id` at time `now` with the fields given, refreshing its
    /// modification time. Answers whether the note existed; an absent note is
    /// left absent and nothing changes.
    pub fn update_note_at(&mut self, id: i64, update: UpdateNote, now: String) -> (r: bool)
        requires
            old(self)@.wf(),
        ensures
            final(self)@.wf(),
            r == old(self)@.live(id),
            r ==> old(self)@.updated(final(self)@, id, update, now@),
            !r ==> final(self)@ == old(self)@,
    {
        let ghost v0 = self@;
        let p = match self.find_record(id) {
            Some(p) => p,
            None => return false,
        };
        proof {
            lemma_index(v0.records, p as int);
            assert(v0.records[p as int] == (self.records@[p as int].id, self.records@[p as int].file@));
        }
        let mut file = copy_file(&self.records[p].file);
        match update.title {
            Some(t) => { file.title = t; },
            None => {},
        }
        match update.body {
            Some(b) => { file.body = b; },
            None => {},
        }
        match update.references {
            Some(v) => { file.references = v; },
            None => {},
        }
        file.modified = now;
        self.write_record(id, file);
        match update.tags {
            Some(tags) => {
                self.set_tags(id, &tags);
            },
            None => {},
        }
        true
    }

    /// Updates note `id` with the fields given, stamped with the current time.
    pub fn update_note(&mut self, id: i64, update: UpdateNote) -> (r: bool)
        requires
            old(self)@.wf(),
        ensures
            final(self)@.wf(),
            r == old(self)@.live(id),
            r ==> exists|now: Seq<char>| is_timestamp(now) && #[trigger] old(self)@.updated(final(self)@, id, update, now),
            !r ==> final(self)@ == old(self)@,
    {
        let now = current_timestamp();
        self.update_note_at(id, update, now)
    }

    /// Every tag in use with the number of its notes, by descending count,
    /// then ascending name.
    pub fn list_tags(&self) -> (r: Vec<TagCount>)
        requires
            self@.wf(),
        ensures
            self@.lists_tags(r@),
    {
        let ghost d = self@.dirs;
        let mut out: Vec<TagCount> = Vec::new();
        let mut j: usize = 0;
        while j < self.dirs.len()
            invariant
                j <= self.dirs.len(),
                self@.wf(),
                self@.dirs == d,
                counts_sorted(out@),
                forall|a: int| #![trigger out@[a]] 0 <= a < out@.len() ==> exists|i: int| 0 <= i < j
                    && #[trigger] d[i].0 == out@[a].name@ && out@[a].count == d[i].1.len(),
                forall|i: int| #![trigger d[i]] 0 <= i < j ==> exists|a: int| 0 <= a < out@.len()
                    && #[trigger] out@[a].name@ == d[i].0,
            decreases self.dirs.len() - j,
        {
            assert(d[j as int] == (self.dirs@[j as int].name@, self.dirs@[j as int].links@));
            proof {
                self@.lemma_tagged_dir(j as int);
            }
            let item = TagCount { name: self.dirs[j].name.clone(), count: self.dirs[j].links.len() as i64 };
            let ghost o = out@;
            proof {
                assert forall|a: int| 0 <= a < o.len() implies o[a].name@ != item.name@ by {
                    let i = choose|i: int| 0 <= i < j && #[trigger] d[i].0 == o[a].name@ && o[a].count == d[i].1.len();
                    assert(text_lt(d[i].0, d[j as int].0));
                    lemma_text_cmp(d[j as int].0, d[j as int].0);
                }
            }
            let ghost it = item;
            insert_ranked(&mut out, item);
            proof {
                assert forall|a: int| #![trigger out@[a]] 0 <= a < out@.len() implies exists|i: int| 0 <= i < j + 1
                    && #[trigger] d[i].0 == out@[a].name@ && out@[a].count == d[i].1.len() by {
                    assert(out@.contains(out@[a]));
                    if out@[a] != it {
                        let b = choose|b: int| 0 <= b < o.len() && o[b] == out@[a];
                        let i = choose|i: int| 0 <= i < j && #[trigger] d[i].0 == o[b].name@ && o[b].count == d[i].1.len();
                    } else {
                        assert(d[j as int].0 == out@[a].name@);
                    }
                }
                assert forall|i: int| #![trigger d[i]] 0 <= i < j + 1 implies exists|a: int| 0 <= a < out@.len()
                    && #[trigger] out@[a].name@ == d[i].0 by {
                    if i < j {
                        let b = choose|b: int| 0 <= b < o.len() && #[trigger] o[b].name@ == d[i].0;
                        assert(o.contains(o[b]));
                        assert(out@.contains(o[b]));
                        let a = choose|a: int| 0 <= a < out@.len() && out@[a] == o[b];
                    } else {
                        assert(out@.contains(it));
                        let a = choose|a: int| 0 <= a < out@.len() && out@[a] == it;
                    }
                }
            }
            j = j + 1;
        }
        proof {
            assert forall|a: int| 0 <= a < out@.len() implies out@[a].count == self@.tagged(#[trigger] out@[a].name@).len()
                && self@.tag_in_use(out@[a].name@) by {
                let i = choose|i: int| 0 <= i < j && #[trigger] d[i].0 == out@[a].name@ && out@[a].count == d[i].1.len();
                self@.lemma_tagged_dir(i);
            }
            assert forall|t: Seq<char>| #![trigger self@.tag_in_use(t)] self@.tag_in_use(t) implies exists|a: int| 0 <= a < out@.len()
                && #[trigger] out@[a].name@ == t by {
                let k = choose|k: i64| self@.has_link(t, k);
                let i = choose|i: int| 0 <= i < d.len() && d[i].0 == t && #[trigger] d[i].1.contains(k);
                assert(exists|a: int| 0 <= a < out@.len() && #[trigger] out@[a].name@ == d[i].0);
            }
        }
        out
    }

    /// Whether note `id` exists.
    pub fn contains_note(&self, id: i64) -> (r: bool)
        requires
            self@.wf(),
        ensures
            r == self@.live(id),
    {
        self.find_record(id).is_some()
    }

    /// The record of note `id`, or `None` where it does not exist.
    pub fn read_record(&self, id: i64) -> (r: Option<NoteFile>)
        requires
            self@.wf(),
        ensures
            r is Some <==> self@.live(id),
            r matches Some(f) ==> f@ == self@.record(id),
    {
        match self.find_record(id) {
            Some(p) => {
                proof {
                    lemma_index(self@.records, p as int);
                    assert(self@.records[p as int] == (self.records@[p as int].id, self.records@[p as int].file@));
                }
                Some(copy_file(&self.records[p].file))
            },
            None => None,
        }
    }

    /// The IDs of all notes, in increasing order.
    pub fn note_ids(&self) -> (r: Vec<i64>)
        requires
            self@.wf(),
        ensures
            r@.len() == self@.records.len(),
            forall|i: int| 0 <= i < r@.len() ==> r@[i] == self@.records[i].0,
    {
        let mut r: Vec<i64> = Vec::new();
        let mut i: usize = 0;
        while i < self.records.len()
            invariant
                i <= self.records.len(),
                r@.len() == i,
                forall|a: int| 0 <= a < i ==> r@[a] == self@.records[a].0,
            decreases self.records.len() - i,
        {
            assert(self@.records[i as int].0 == self.records@[i as int].id);
            r.push(self.records[i].id);
            i = i + 1;
        }
        r
    }

    /// Raises the counter to a value that was found stored, if it is above.
    /// The counter never goes below the largest ID written, so a stored value
    /// that is missing or corrupt falls back to that.
    pub fn restore_counter(&mut self, stored: Option<i64>)
        requires
            old(self)@.wf(),
        ensures
            final(self)@.wf(),
            final(self)@.records == old(self)@.records,
            final(self)@.dirs == old(self)@.dirs,
            final(self)@.counter == match stored {
                Some(c) => if c > old(self)@.counter { c as int } else { old(self)@.counter },
                None => old(self)@.counter,
            },
    {
        match stored {
            Some(c) => {
                if c > self.counter {
                    self.counter = c;
                }
            },
            None => {},
        }
        proof {
            assert forall|i: int| 0 <= i < self@.records.len() implies 1 <= #[trigger] self@.records[i].0
                <= self@.counter by {
                assert(self@.records[i] == old(self)@.records[i]);
            }
        }
    }

    /// The last ID handed out.
    pub fn counter(&self) -> (r: i64)
        ensures
            r == self@.counter,
    {
        self.counter
    }

    /// Hands out the next ID: one more than the counter, which keeps it.
    /// Fails when the counter can grow no further.
    pub fn next_id(&mut self) -> (r: Result<i64, Error>)
        requires
            old(self)@.wf(),
        ensures
            final(self)@.wf(),
            match r {
                Ok(id) => id == old(self)@.counter + 1
                    && final(self)@ == (StoreView { counter: id as int, ..old(self)@ }),
                Err(e) => e is Database && old(self)@.counter == i64::MAX && final(self)@ == old(self)@,
            },
    {
        if self.counter == i64::MAX {
            return Err(Error::Database(String::from_str("note ID counter is exhausted")));
        }
        self.counter = self.counter + 1;
        Ok(self.counter)
    }

    /// Writes the record of note `id`, in place of the one it had if any.
    /// The counter is raised to `id` if it was below, so that the ID is
    /// never handed out again.
    pub fn write_record(&mut self, id: i64, file: NoteFile)
        requires
            old(self)@.wf(),
            id >= 1,
        ensures
            final(self)@.wf(),
            final(self)@.dirs == old(self)@.dirs,
            final(self)@.counter == if id > old(self)@.counter { id as int } else { old(self)@.counter },
            final(self)@.live(id),
            final(self)@.record(id) == file@,
            forall|k: i64| k != id ==> final(self)@.live(k) == old(self)@.live(k),
            forall|k: i64| k != id && old(self)@.live(k) ==> final(self)@.record(k) == old(self)@.record(k),
    {
        let ghost s = self@.records;
        let ghost old_view = self@;
        let ghost fv = file@;
        let p = self.record_position(id);
        if id > self.counter {
            self.counter = id;
        }
        if p < self.records.len() && self.records[p].id == id {
            self.records.set(p, Record { id, file });
            proof {
                assert(self@.records =~= s.update(p as int, (s[p as int].0, fv)));
                lemma_records_update(s, p as int, fv);
                lemma_index(self@.records, p as int);
                assert(ids_increasing(self@.records));
                assert(seq_live(self@.records, id));
                assert(forall|k: i64| seq_live(s, k) ==> seq_live(self@.records, k));
            }
        } else {
            self.records.insert(p, Record { id, file });
            proof {
                assert(self@.records =~= s.insert(p as int, (id, fv)));
                lemma_records_insert(s, p as int, id, fv);
                assert(ids_increasing(self@.records));
                assert(self@.records[p as int].0 == id);
                assert(seq_live(self@.records, id));
                assert(forall|k: i64| seq_live(s, k) ==> seq_live(self@.records, k));
            }
        }
        proof {
            assert forall|i: int| 0 <= i < self@.records.len() implies 1 <= #[trigger] self@.records[i].0
                <= self@.counter by {
                if self@.records[i].0 != id {
                    lemma_index(self@.records, i);
                    let k = self@.records[i].0;
                    assert(seq_live(s, k));
                    let j = choose|j: int| 0 <= j < s.len() && s[j].0 == k;
                    assert(1 <= old_view.records[j].0 <= old_view.counter);
                }
            }
            assert forall|j: int, k: int| 0 <= j < self@.dirs.len() && 0 <= k < self@.dirs[j].1.len()
                implies seq_live(self@.records, self@.dirs[j].1[k]) by {
                assert(seq_live(s, old_view.dirs[j].1[k]));
            }
            assert(self@.dirs == old_view.dirs);
        }
    }
}

} // verus!
