//! Versioned schema migrations for the relational backends.
//!
//! Migrations are numbered from 1 up to [`SCHEMA_VERSION`]; a database at
//! version `v` needs those above `v`, in order.
use vstd::prelude::*;

verus! {

/// Current schema version: the number of the last migration.
pub const SCHEMA_VERSION: i64 = 2;

/// A statement of the migrations.
pub const SQL_META_TABLE: &'static str = "CREATE TABLE IF NOT EXISTS _veta_meta (
                key TEXT PRIMARY KEY,
                value TEXT NOT NULL
            )";

/// A statement of the migrations.
pub const SQL_NOTES_TABLE: &'static str = "CREATE TABLE IF NOT EXISTS notes (
                id INTEGER PRIMARY KEY AUTOINCREMENT,
                title TEXT NOT NULL,
                body TEXT NOT NULL,
                created_at TEXT NOT NULL DEFAULT (datetime('now')),
                updated_at TEXT NOT NULL DEFAULT (datetime('now'))
            )";

/// A statement of the migrations.
pub const SQL_TAGS_TABLE: &'static str = "CREATE TABLE IF NOT EXISTS tags (
                id INTEGER PRIMARY KEY AUTOINCREMENT,
                name TEXT NOT NULL UNIQUE
            )";

/// A statement of the migrations.
pub const SQL_NOTE_TAGS_TABLE: &'static str = "CREATE TABLE IF NOT EXISTS note_tags (
                note_id INTEGER NOT NULL REFERENCES notes(id) ON DELETE CASCADE,
                tag_id INTEGER NOT NULL REFERENCES tags(id) ON DELETE CASCADE,
                PRIMARY KEY (note_id, tag_id)
            )";

/// A statement of the migrations.
pub const SQL_NOTES_UPDATED_INDEX: &'static str = "CREATE INDEX IF NOT EXISTS idx_notes_updated_at ON notes(updated_at)";

/// A statement of the migrations.
pub const SQL_NOTE_TAGS_TAG_INDEX: &'static str = "CREATE INDEX IF NOT EXISTS idx_note_tags_tag_id ON note_tags(tag_id)";

/// A statement of the migrations.
pub const SQL_TAGS_NAME_INDEX: &'static str = "CREATE INDEX IF NOT EXISTS idx_tags_name ON tags(name)";

/// A statement of the migrations.
pub const SQL_ADD_REFERENCES: &'static str = "ALTER TABLE notes ADD COLUMN \"references\" TEXT NOT NULL DEFAULT '[]'";

/// A database migration with its version number and SQL statements.
pub struct Migration {
    pub version: i64,
    pub name: &'static str,
    pub statements: Vec<&'static str>,
}

/// The name of the migration with this version.
pub open spec fn migration_name(version: int) -> Seq<char> {
    if version == 1 { "initial_schema"@ } else { "add_references"@ }
}

/// The statements of the migration with this version, in order.
pub open spec fn migration_statements(version: int) -> Seq<Seq<char>> {
    if version == 1 {
        seq![SQL_META_TABLE@, SQL_NOTES_TABLE@, SQL_TAGS_TABLE@, SQL_NOTE_TAGS_TABLE@, SQL_NOTES_UPDATED_INDEX@,
            SQL_NOTE_TAGS_TAG_INDEX@, SQL_TAGS_NAME_INDEX@]
    } else {
        seq![SQL_ADD_REFERENCES@]
    }
}

/// `m` is the migration with this version: its number, name and statements.
pub open spec fn is_migration(m: Migration, version: int) -> bool {
    &&& m.version == version
    &&& m.name@ == migration_name(version)
    &&& m.statements@.len() == migration_statements(version).len()
    &&& forall|i: int| 0 <= i < m.statements@.len() ==> #[trigger] m.statements@[i]@ == migration_statements(version)[i]
}

/// The migration with this version, for 1 to [`SCHEMA_VERSION`].
fn migration(version: i64) -> (r: Migration)
    requires
        1 <= version <= SCHEMA_VERSION,
    ensures
        is_migration(r, version as int),
{
    if version == 1 {
        let mut statements: Vec<&'static str> = Vec::new();
        statements.push(SQL_META_TABLE);
        statements.push(SQL_NOTES_TABLE);
        statements.push(SQL_TAGS_TABLE);
        statements.push(SQL_NOTE_TAGS_TABLE);
        statements.push(SQL_NOTES_UPDATED_INDEX);
        statements.push(SQL_NOTE_TAGS_TAG_INDEX);
        statements.push(SQL_TAGS_NAME_INDEX);
        Migration { version: 1, name: "initial_schema", statements }
    } else {
        let mut statements: Vec<&'static str> = Vec::new();
        statements.push(SQL_ADD_REFERENCES);
        Migration { version: 2, name: "add_references", statements }
    }
}

/// The migrations that a database at `current_version` still needs: those
/// with a higher version, in increasing order.
pub fn get_pending_migrations(current_version: i64) -> (r: Vec<Migration>)
    ensures
        r@.len() == if current_version < 0 { SCHEMA_VERSION as int } else if current_version >= SCHEMA_VERSION { 0 }
            else { SCHEMA_VERSION - current_version },
        forall|i: int| 0 <= i < r@.len() ==> is_migration(#[trigger] r@[i], SCHEMA_VERSION - r@.len() + 1 + i),
{
    let mut r: Vec<Migration> = Vec::new();
    let mut v: i64 = 1;
    while v <= SCHEMA_VERSION
        invariant
            1 <= v <= SCHEMA_VERSION + 1,
            r@.len() == if current_version < 0 { v - 1 } else if current_version >= v { 0 } else { v - 1 - current_version },
            forall|i: int| 0 <= i < r@.len() ==> is_migration(#[trigger] r@[i], v - r@.len() + i),
        decreases SCHEMA_VERSION + 1 - v,
    {
        if v > current_version {
            r.push(migration(v));
        }
        v = v + 1;
    }
    r
}

} // verus!
