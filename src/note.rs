//! The values that pass in and out of the store.
use vstd::prelude::*;
use crate::text::{copy_texts, trim_of, trim_text};

verus! {

/// A full note with all fields.
#[derive(Debug, Clone)]
pub struct Note {
    pub id: i64,
    pub title: String,
    pub body: String,
    /// The note's tags, sorted; they come from the tag index.
    pub tags: Vec<String>,
    /// References to external resources (source paths, URLs, documents).
    pub references: Vec<String>,
    /// Last modification, as `YYYY-MM-DD HH:MM:SS`.
    pub updated_at: String,
}

/// The text with each line break (`\n` or `\r`) turned into a space.
pub open spec fn flatten_lines(s: Seq<char>) -> Seq<char> {
    s.map_values(|c: char| if c == '\n' || c == '\r' { ' ' } else { c })
}

/// The number of bytes of a character in UTF-8.
pub open spec fn utf8_len(c: char) -> int {
    let v = c as u32;
    if v < 0x80 {
        1
    } else if v < 0x800 {
        2
    } else if v < 0x10000 {
        3
    } else {
        4
    }
}

/// The number of bytes of a text in UTF-8.
pub open spec fn utf8_bytes(s: Seq<char>) -> int
    decreases s.len(),
{
    if s.len() == 0 {
        0
    } else {
        utf8_bytes(s.drop_last()) + utf8_len(s.last())
    }
}

/// The number of characters of `s`, from the first `k` on, whose UTF-8 form
/// fits in `max` bytes: the cut lands on a character boundary.
pub open spec fn fitting_prefix(s: Seq<char>, max: int, k: int) -> int
    decreases s.len() - k,
{
    if 0 <= k < s.len() && utf8_bytes(s.take(k + 1)) <= max {
        fitting_prefix(s, max, k + 1)
    } else {
        k
    }
}

/// The preview of a body: line breaks made spaces, trimmed, and where it is
/// longer than `max_len` bytes, cut at the last character boundary within
/// them, with `...` after.
pub open spec fn preview_of(body: Seq<char>, max_len: nat) -> Seq<char> {
    let t = trim_of(flatten_lines(body));
    if utf8_bytes(t) > max_len {
        t.take(fitting_prefix(t, max_len as int, 0)) + "..."@
    } else {
        t
    }
}

/// A longer prefix takes at least as many bytes.
proof fn lemma_utf8_prefix(s: Seq<char>, j: int)
    requires
        0 <= j <= s.len(),
    ensures
        utf8_bytes(s.take(j)) <= utf8_bytes(s),
    decreases s.len(),
{
    if j < s.len() {
        assert(s.drop_last().take(j) =~= s.take(j));
        lemma_utf8_prefix(s.drop_last(), j);
    } else {
        assert(s.take(j) =~= s);
    }
}

/// The number of bytes of a character in UTF-8.
fn char_utf8_len(c: char) -> (r: usize)
    ensures
        r == utf8_len(c),
{
    let v = c as u32;
    if v < 0x80 {
        1
    } else if v < 0x800 {
        2
    } else if v < 0x10000 {
        3
    } else {
        4
    }
}

/// A summary of a note for listing, with a shortened body.
#[derive(Debug, Clone)]
pub struct NoteSummary {
    pub id: i64,
    pub title: String,
    pub body_preview: String,
    pub tags: Vec<String>,
    pub updated_at: String,
}

impl Note {
    /// The summary of the note, with its body shortened to a preview of at
    /// most `max_len` bytes (and `...`), cut on a character boundary.
    pub fn to_summary(&self, max_len: usize) -> (r: NoteSummary)
        ensures
            r.id == self.id,
            r.title@ == self.title@,
            r.body_preview@ == preview_of(self.body@, max_len as nat),
            forall|i: int| 0 <= i < r.body_preview@.len() ==> r.body_preview@[i] != '\n' && r.body_preview@[i] != '\r',
            r.tags@ == self.tags@,
            r.updated_at@ == self.updated_at@,
    {
        let body = self.body.as_str();
        let n = body.unicode_len();
        let mut flat = String::new();
        let mut i: usize = 0;
        while i < n
            invariant
                i <= n,
                n == self.body@.len(),
                body@ == self.body@,
                flat@ == flatten_lines(self.body@).subrange(0, i as int),
            decreases n - i,
        {
            let c = body.get_char(i);
            if c == '\n' || c == '\r' {
                proof {
                    reveal_strlit(" ");
                }
                flat.append(" ");
            } else {
                flat.append(body.substring_char(i, i + 1));
            }
            i = i + 1;
            assert(flat@ =~= flatten_lines(self.body@).subrange(0, i as int));
        }
        assert(flat@ =~= flatten_lines(self.body@));
        let trimmed = trim_text(flat.as_str());
        let t = trimmed.as_str();
        proof {
            let (a, b) = choose|a: int, b: int| 0 <= a <= b <= flat@.len() && trimmed@ == flat@.subrange(a, b);
            assert forall|i: int| 0 <= i < t@.len() implies t@[i] != '\n' && t@[i] != '\r' by {
                assert(t@[i] == flat@[a + i]);
            }
        }
        let n = t.unicode_len();
        let mut k: usize = 0;
        let mut used: usize = 0;
        assert(t@.take(0) =~= Seq::<char>::empty());
        while k < n
            invariant
                k <= n,
                n == t@.len(),
                used <= max_len,
                used == utf8_bytes(t@.take(k as int)),
                fitting_prefix(t@, max_len as int, 0) == fitting_prefix(t@, max_len as int, k as int),
            ensures
                k <= n,
                used == utf8_bytes(t@.take(k as int)),
                fitting_prefix(t@, max_len as int, 0) == k,
                k < n ==> utf8_bytes(t@.take(k + 1)) > max_len,
            decreases n - k,
        {
            let w = char_utf8_len(t.get_char(k));
            proof {
                assert(t@.take(k + 1).drop_last() =~= t@.take(k as int));
                assert(t@.take(k + 1).last() == t@[k as int]);
            }
            if w > max_len - used {
                break;
            }
            used = used + w;
            k = k + 1;
        }
        let preview = if k < n {
            proof {
                lemma_utf8_prefix(t@, k + 1);
            }
            let mut cut = String::from_str(t.substring_char(0, k));
            let ghost head = cut@;
            cut.append("...");
            proof {
                reveal_strlit("...");
                assert forall|i: int| 0 <= i < cut@.len() implies cut@[i] != '\n' && cut@[i] != '\r' by {
                    if i < head.len() {
                        assert(cut@[i] == t@[i]);
                    }
                }
            }
            cut
        } else {
            assert(t@.take(n as int) =~= t@);
            trimmed
        };
        NoteSummary {
            id: self.id,
            title: self.title.clone(),
            body_preview: preview,
            tags: copy_texts(&self.tags),
            updated_at: self.updated_at.clone(),
        }
    }
}

/// A tag with the number of notes that carry it.
#[derive(Debug, Clone)]
pub struct TagCount {
    pub name: String,
    pub count: i64,
}

/// Query parameters for listing notes.
#[derive(Debug, Clone)]
pub struct NoteQuery {
    /// Keep notes carrying any of these tags; `None` or empty keeps all.
    pub tags: Option<Vec<String>>,
    /// Inclusive lower bound on the modification time.
    pub from: Option<String>,
    /// Inclusive upper bound on the modification time.
    pub to: Option<String>,
    /// Most notes to return; `None` or a value below 1 means no limit.
    pub limit: Option<i64>,
}

impl Default for NoteQuery {
    fn default() -> (r: NoteQuery)
        ensures
            r.tags is None,
            r.from is None,
            r.to is None,
            r.limit is None,
    {
        NoteQuery { tags: None, from: None, to: None, limit: None }
    }
}

/// Parameters for creating a new note.
#[derive(Debug, Clone)]
pub struct CreateNote {
    pub title: String,
    pub body: String,
    pub tags: Vec<String>,
    /// References to external resources (source paths, URLs, documents).
    pub references: Vec<String>,
}

/// Parameters for updating an existing note: each field that is `Some`
/// replaces the note's own.
#[derive(Debug, Clone)]
pub struct UpdateNote {
    pub title: Option<String>,
    pub body: Option<String>,
    pub tags: Option<Vec<String>>,
    /// References to external resources (source paths, URLs, documents).
    pub references: Option<Vec<String>>,
}

impl Default for UpdateNote {
    fn default() -> (r: UpdateNote)
        ensures
            r.title is None,
            r.body is None,
            r.tags is None,
            r.references is None,
    {
        UpdateNote { title: None, body: None, tags: None, references: None }
    }
}

} // verus!
