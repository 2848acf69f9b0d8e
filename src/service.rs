//! The operations that callers use, over any backend: input is validated and
//! normalized here, once, before it reaches storage.
use vstd::prelude::*;
use crate::clock::is_timestamp;
use crate::error::Error;
use crate::normalize::{normalize_references, normalize_tags, references_normalized, tags_normalized};
use crate::note::{preview_of, CreateNote, Note, NoteQuery, NoteSummary, TagCount, UpdateNote};
use crate::search::{regex_compiles, search_pattern};
use crate::store::{limit_of, limited, FilesDatabase, StoreView};
use crate::text::{texts, trim_of, trim_text};

verus! {

/// The number of characters of a body that a listing shows.
pub const PREVIEW_LEN: usize = 140;

/// The number of notes that a listing shows when the query sets no limit.
pub const DEFAULT_LIMIT: i64 = 100;

/// A storage backend for notes, with the behaviour of the file-based store:
/// its state is a [`StoreView`], and each operation changes it as the
/// store's own operation does. A backend fails only with a storage error,
/// except that a search pattern that does not compile is a validation
/// error.
pub trait Database {
    /// The state of the backend.
    spec fn store(&self) -> StoreView;

    /// Adds a new note and returns its ID; on failure nothing changes.
    fn add_note(&mut self, note: CreateNote) -> (r: Result<i64, Error>)
        requires
            old(self).store().wf(),
        ensures
            final(self).store().wf(),
            match r {
                Ok(id) => exists|now: Seq<char>| is_timestamp(now) && #[trigger] old(self).store().created(final(self).store(), id, note.title@,
                    note.body@, texts(note.tags@), texts(note.references@), now),
                Err(e) => e is Database && final(self).store() == old(self).store(),
            };

    /// The note with this ID, if any, as the store holds it.
    fn get_note(&self, id: i64) -> (r: Result<Option<Note>, Error>)
        requires
            self.store().wf(),
        ensures
            match r {
                Ok(o) => (o is Some <==> self.store().live(id)) && (o matches Some(n) ==> n.id == id
                    && self.store().loaded(n)),
                Err(e) => e is Database,
            };

    /// The notes that the query selects, in listing order, cut to its limit.
    fn list_notes(&self, query: NoteQuery) -> (r: Result<Vec<Note>, Error>)
        requires
            self.store().wf(),
        ensures
            match r {
                Ok(v) => exists|full: Seq<Note>| #[trigger] self.store().lists_selected(full, query.tags, query.from,
                    query.to, None) && v@ == limited(full, limit_of(query)),
                Err(e) => e is Database,
            };

    /// The number of notes that the query selects, its limit aside.
    fn count_notes(&self, query: NoteQuery) -> (r: Result<i64, Error>)
        requires
            self.store().wf(),
        ensures
            match r {
                Ok(n) => n == self.store().selected_ids(query.tags, query.from, query.to, None).len(),
                Err(e) => e is Database,
            };

    /// Updates an existing note; `false`, with nothing changed, where there
    /// is none.
    fn update_note(&mut self, id: i64, update: UpdateNote) -> (r: Result<bool, Error>)
        requires
            old(self).store().wf(),
        ensures
            final(self).store().wf(),
            match r {
                Ok(b) => b == old(self).store().live(id)
                    && (b ==> exists|now: Seq<char>| is_timestamp(now) && #[trigger] old(self).store().updated(final(self).store(), id, update, now))
                    && (!b ==> final(self).store() == old(self).store()),
                Err(e) => e is Database,
            };

    /// Deletes a note and its links; `false` where there is none.
    fn delete_note(&mut self, id: i64) -> (r: Result<bool, Error>)
        requires
            old(self).store().wf(),
        ensures
            final(self).store().wf(),
            match r {
                Ok(b) => b == old(self).store().live(id) && old(self).store().deleted(final(self).store(), id),
                Err(e) => e is Database,
            };

    /// Every tag in use with the number of its notes, by descending count,
    /// then ascending name.
    fn list_tags(&self) -> (r: Result<Vec<TagCount>, Error>)
        requires
            self.store().wf(),
        ensures
            match r {
                Ok(v) => self.store().lists_tags(v@),
                Err(e) => e is Database,
            };

    /// The notes whose title or body matches the pattern, in listing order.
    fn grep(&self, pattern: &str, tags: Option<Vec<String>>, case_sensitive: bool) -> (r: Result<Vec<Note>, Error>)
        requires
            self.store().wf(),
        ensures
            (r matches Err(e) && e is Validation) <==> !regex_compiles(search_pattern(pattern@, case_sensitive)),
            r matches Err(e) ==> e is Validation || e is Database,
            r matches Ok(v) ==> self.store().lists_selected(v@, tags, None, None,
                Some(search_pattern(pattern@, case_sensitive))),
        ;
}

impl Database for FilesDatabase {
    open spec fn store(&self) -> StoreView {
        self@
    }

    fn add_note(&mut self, note: CreateNote) -> (r: Result<i64, Error>) {
        let ghost c = note;
        let r = FilesDatabase::add_note(self, note);
        proof {
            if r is Ok {
                let id = r->Ok_0;
                let now = choose|now: Seq<char>| is_timestamp(now) && #[trigger] old(self)@.created(self@, id, c.title@, c.body@, texts(c.tags@),
                    texts(c.references@), now);
                assert(old(self).store().created(self.store(), id, c.title@, c.body@, texts(c.tags@),
                    texts(c.references@), now));
            }
        }
        r
    }

    fn get_note(&self, id: i64) -> (r: Result<Option<Note>, Error>) {
        Ok(FilesDatabase::get_note(self, id))
    }

    fn list_notes(&self, query: NoteQuery) -> (r: Result<Vec<Note>, Error>) {
        Ok(FilesDatabase::list_notes(self, query))
    }

    fn count_notes(&self, query: NoteQuery) -> (r: Result<i64, Error>) {
        Ok(FilesDatabase::count_notes(self, query))
    }

    fn update_note(&mut self, id: i64, update: UpdateNote) -> (r: Result<bool, Error>) {
        Ok(FilesDatabase::update_note(self, id, update))
    }

    fn delete_note(&mut self, id: i64) -> (r: Result<bool, Error>) {
        Ok(FilesDatabase::delete_note(self, id))
    }

    fn list_tags(&self) -> (r: Result<Vec<TagCount>, Error>) {
        Ok(FilesDatabase::list_tags(self))
    }

    fn grep(&self, pattern: &str, tags: Option<Vec<String>>, case_sensitive: bool) -> (r: Result<Vec<Note>, Error>) {
        FilesDatabase::grep(self, pattern, &tags, case_sensitive)
    }
}

/// `c` is the note made of a create request: the title trimmed, the body as
/// given, the tags and references normalized.
pub open spec fn note_prepared(c: CreateNote, title: Seq<char>, body: Seq<char>, tags: Seq<Seq<char>>,
    references: Seq<Seq<char>>) -> bool {
    &&& c.title@ == trim_of(title)
    &&& c.body@ == body
    &&& tags_normalized(texts(c.tags@), tags)
    &&& texts(c.references@) == references_normalized(references)
}

/// `u` is the update made of an update request: a title given is trimmed,
/// tags and references given are normalized, the body is as given.
pub open spec fn update_prepared(u: UpdateNote, update: UpdateNote) -> bool {
    &&& (match update.title {
        Some(t) => u.title matches Some(x) && x@ == trim_of(t@),
        None => u.title is None,
    })
    &&& (match update.body {
        Some(b) => u.body matches Some(x) && x@ == b@,
        None => u.body is None,
    })
    &&& (match update.tags {
        Some(v) => u.tags matches Some(x) && tags_normalized(texts(x@), texts(v@)),
        None => u.tags is None,
    })
    &&& (match update.references {
        Some(v) => u.references matches Some(x) && texts(x@) == references_normalized(texts(v@)),
        None => u.references is None,
    })
}

/// The update request gives a title that is empty once trimmed.
pub open spec fn empty_title_given(update: UpdateNote) -> bool {
    update.title matches Some(t) && trim_of(t@).len() == 0
}

/// `s` holds the summaries of `notes`, in their order.
pub open spec fn summaries_of(s: Seq<NoteSummary>, notes: Seq<Note>) -> bool {
    &&& s.len() == notes.len()
    &&& forall|i: int| 0 <= i < s.len() ==> {
        &&& (#[trigger] s[i]).id == notes[i].id
        &&& s[i].title@ == notes[i].title@
        &&& s[i].body_preview@ == preview_of(notes[i].body@, PREVIEW_LEN as nat)
        &&& s[i].tags@ == notes[i].tags@
        &&& s[i].updated_at@ == notes[i].updated_at@
    }
}

/// The note that a create request stores: the title trimmed, which must not
/// be empty; the tags and references normalized; the body as given.
pub fn prepare_note(title: String, body: String, tags: Vec<String>, references: Vec<String>) -> (r: Result<CreateNote, Error>)
    ensures
        r is Err <==> trim_of(title@).len() == 0,
        r matches Err(e) ==> e is Validation,
        r matches Ok(c) ==> note_prepared(c, title@, body@, texts(tags@), texts(references@)),
{
    let title = trim_text(title.as_str());
    if title.unicode_len() == 0 {
        return Err(Error::Validation(String::from_str("title cannot be empty")));
    }
    let tags = normalize_tags(&tags);
    let references = normalize_references(&references);
    Ok(CreateNote { title, body, tags, references })
}

/// The update that an update request applies: a title given is trimmed and
/// must not be empty; tags and references given are normalized; the body is
/// as given.
pub fn prepare_update(update: UpdateNote) -> (r: Result<UpdateNote, Error>)
    ensures
        r is Err <==> empty_title_given(update),
        r matches Err(e) ==> e is Validation,
        r matches Ok(u) ==> update_prepared(u, update),
{
    let title = match update.title {
        Some(t) => {
            let t = trim_text(t.as_str());
            if t.unicode_len() == 0 {
                return Err(Error::Validation(String::from_str("title cannot be empty")));
            }
            Some(t)
        },
        None => None,
    };
    let tags = match update.tags {
        Some(v) => Some(normalize_tags(&v)),
        None => None,
    };
    let references = match update.references {
        Some(v) => Some(normalize_references(&v)),
        None => None,
    };
    Ok(UpdateNote { title, body: update.body, tags, references })
}

/// The limit that a listing applies to a query; zero stands for none.
pub open spec fn listing_limit(q: NoteQuery) -> int {
    match q.limit {
        Some(n) => if n > 0 { n as int } else { 0 },
        None => DEFAULT_LIMIT as int,
    }
}

/// The query that a listing runs: no limit becomes the default limit, and a
/// limit of zero becomes none.
pub fn listing_query(query: NoteQuery) -> (r: NoteQuery)
    ensures
        r.tags == query.tags,
        r.from == query.from,
        r.to == query.to,
        r.limit == match query.limit {
            Some(n) => if n == 0 { None } else { Some(n) },
            None => Some(DEFAULT_LIMIT),
        },
        limit_of(r) == listing_limit(query),
{
    let limit = match query.limit {
        Some(n) => if n == 0 { None } else { Some(n) },
        None => Some(DEFAULT_LIMIT),
    };
    NoteQuery { tags: query.tags, from: query.from, to: query.to, limit }
}

/// The summaries of notes, in their order, with previews of
/// [`PREVIEW_LEN`] characters.
pub fn summarize(notes: &Vec<Note>) -> (r: Vec<NoteSummary>)
    ensures
        summaries_of(r@, notes@),
{
    let mut r: Vec<NoteSummary> = Vec::new();
    let mut i: usize = 0;
    while i < notes.len()
        invariant
            i <= notes.len(),
            r@.len() == i,
            forall|j: int| 0 <= j < i ==> {
                &&& r@[j].id == notes@[j].id
                &&& r@[j].title@ == notes@[j].title@
                &&& r@[j].body_preview@ == preview_of(notes@[j].body@, PREVIEW_LEN as nat)
                &&& r@[j].tags@ == notes@[j].tags@
                &&& r@[j].updated_at@ == notes@[j].updated_at@
            },
        decreases notes.len() - i,
    {
        r.push(notes[i].to_summary(PREVIEW_LEN));
        i = i + 1;
    }
    r
}

/// The service that callers use, over a backend `D`.
pub struct VetaService<D: Database> {
    db: D,
}

impl<D: Database> VetaService<D> {
    /// The state of the backend.
    pub closed spec fn store(&self) -> StoreView {
        self.db.store()
    }

    /// The backend's state is well formed.
    pub open spec fn inv(&self) -> bool {
        self.store().wf()
    }

    /// The backend.
    pub closed spec fn backend_view(&self) -> D {
        self.db
    }

    /// The backend, for reading what the operations left in it.
    pub fn backend(&self) -> (r: &D)
        ensures
            *r == self.backend_view(),
            r.store() == self.store(),
    {
        &self.db
    }

    /// A service over `db`.
    pub fn new(db: D) -> (r: Self)
        requires
            db.store().wf(),
        ensures
            r.inv(),
            r.store() == db.store(),
    {
        VetaService { db }
    }

    /// Adds a note made by [`prepare_note`]. An empty title is a validation
    /// error and leaves the store as it was; any other title reaches the
    /// backend, and its answer is returned.
    pub fn add_note(&mut self, title: String, body: String, tags: Vec<String>, references: Vec<String>) -> (r: Result<i64, Error>)
        requires
            old(self).inv(),
        ensures
            final(self).inv(),
            (r matches Err(e) && e is Validation) <==> trim_of(title@).len() == 0,
            r is Err ==> final(self).store() == old(self).store(),
            r matches Ok(id) ==> exists|c: CreateNote, now: Seq<char>|
                note_prepared(c, title@, body@, texts(tags@), texts(references@)) && is_timestamp(now)
                && #[trigger] old(self).store().created(final(self).store(), id, c.title@, c.body@, texts(c.tags@),
                    texts(c.references@), now),
    {
        let ghost (t0, b0, g0, f0) = (title@, body@, texts(tags@), texts(references@));
        match prepare_note(title, body, tags, references) {
            Ok(note) => {
                let ghost c = note;
                let r = self.db.add_note(note);
                proof {
                    if r is Ok {
                        let id = r->Ok_0;
                        let now = choose|now: Seq<char>| is_timestamp(now) && #[trigger] old(self).store().created(self.store(), id, c.title@,
                            c.body@, texts(c.tags@), texts(c.references@), now);
                        assert(note_prepared(c, t0, b0, g0, f0));
                        assert(old(self).store().created(self.store(), id, c.title@, c.body@, texts(c.tags@),
                            texts(c.references@), now));
                    }
                }
                r
            },
            Err(e) => Err(e),
        }
    }

    /// The note with this ID, if any, as the store holds it.
    pub fn get_note(&self, id: i64) -> (r: Result<Option<Note>, Error>)
        requires
            self.inv(),
        ensures
            match r {
                Ok(o) => (o is Some <==> self.store().live(id)) && (o matches Some(n) ==> n.id == id
                    && self.store().loaded(n)),
                Err(e) => e is Database,
            },
    {
        self.db.get_note(id)
    }

    /// The summaries of the notes that the query selects, after
    /// [`listing_query`]: with no limit given, the default limit applies.
    pub fn list_notes(&self, query: NoteQuery) -> (r: Result<Vec<NoteSummary>, Error>)
        requires
            self.inv(),
        ensures
            match r {
                Ok(v) => exists|full: Seq<Note>| #[trigger] self.store().lists_selected(full, query.tags, query.from,
                    query.to, None) && summaries_of(v@, limited(full, listing_limit(query))),
                Err(e) => e is Database,
            },
    {
        let q = listing_query(query);
        let notes = self.db.list_notes(q)?;
        let r = summarize(&notes);
        proof {
            let full = choose|full: Seq<Note>| #[trigger] self.store().lists_selected(full, q.tags, q.from, q.to, None)
                && notes@ == limited(full, limit_of(q));
            assert(self.store().lists_selected(full, query.tags, query.from, query.to, None));
        }
        Ok(r)
    }

    /// The number of notes that the query selects, its limit aside.
    pub fn count_notes(&self, query: NoteQuery) -> (r: Result<i64, Error>)
        requires
            self.inv(),
        ensures
            match r {
                Ok(n) => n == self.store().selected_ids(query.tags, query.from, query.to, None).len(),
                Err(e) => e is Database,
            },
    {
        self.db.count_notes(query)
    }

    /// Updates a note with the update made by [`prepare_update`]. A title
    /// given that is empty is a validation error and leaves the store as it
    /// was; otherwise the backend's answer is returned.
    pub fn update_note(&mut self, id: i64, update: UpdateNote) -> (r: Result<bool, Error>)
        requires
            old(self).inv(),
        ensures
            final(self).inv(),
            (r matches Err(e) && e is Validation) <==> empty_title_given(update),
            empty_title_given(update) ==> final(self).store() == old(self).store(),
            r matches Ok(b) ==> b == old(self).store().live(id)
                && (b ==> exists|u: UpdateNote, now: Seq<char>| update_prepared(u, update) && is_timestamp(now)
                    && #[trigger] old(self).store().updated(final(self).store(), id, u, now))
                && (!b ==> final(self).store() == old(self).store()),
    {
        let ghost u0 = update;
        match prepare_update(update) {
            Ok(u) => {
                let ghost uc = u;
                let r = self.db.update_note(id, u);
                proof {
                    if r matches Ok(true) {
                        let now = choose|now: Seq<char>| is_timestamp(now) && #[trigger] old(self).store().updated(self.store(), id, uc, now);
                        assert(update_prepared(uc, u0));
                        assert(old(self).store().updated(self.store(), id, uc, now));
                    }
                }
                r
            },
            Err(e) => Err(e),
        }
    }

    /// Deletes a note and its links; `false` where there is none.
    pub fn delete_note(&mut self, id: i64) -> (r: Result<bool, Error>)
        requires
            old(self).inv(),
        ensures
            final(self).inv(),
            match r {
                Ok(b) => b == old(self).store().live(id) && old(self).store().deleted(final(self).store(), id),
                Err(e) => e is Database,
            },
    {
        self.db.delete_note(id)
    }

    /// Every tag in use with the number of its notes, by descending count,
    /// then ascending name.
    pub fn list_tags(&self) -> (r: Result<Vec<TagCount>, Error>)
        requires
            self.inv(),
        ensures
            match r {
                Ok(v) => self.store().lists_tags(v@),
                Err(e) => e is Database,
            },
    {
        self.db.list_tags()
    }

    /// The summaries of the notes whose title or body matches the pattern,
    /// in listing order; a pattern that does not compile is a validation
    /// error.
    pub fn grep(&self, pattern: &str, tags: Option<Vec<String>>, case_sensitive: bool) -> (r: Result<Vec<NoteSummary>, Error>)
        requires
            self.inv(),
        ensures
            (r matches Err(e) && e is Validation) <==> !regex_compiles(search_pattern(pattern@, case_sensitive)),
            r matches Err(e) ==> e is Validation || e is Database,
            r matches Ok(v) ==> exists|notes: Seq<Note>| #[trigger] self.store().lists_selected(notes, tags, None,
                None, Some(search_pattern(pattern@, case_sensitive))) && summaries_of(v@, notes),
    {
        let ghost t0 = tags;
        let notes = self.db.grep(pattern, tags, case_sensitive)?;
        let r = summarize(&notes);
        proof {
            assert(self.store().lists_selected(notes@, t0, None, None, Some(search_pattern(pattern@, case_sensitive))));
        }
        Ok(r)
    }
}

} // verus!
