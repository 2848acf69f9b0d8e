use veta::{CreateNote, FilesDatabase, NoteFile, NoteQuery, UpdateNote};

fn note(title: &str, body: &str, tags: &[&str]) -> CreateNote {
    CreateNote {
        title: title.to_string(),
        body: body.to_string(),
        tags: tags.iter().map(|t| t.to_string()).collect(),
        references: vec![],
    }
}

#[test]
fn test_add_and_get_note() {
    let mut db = FilesDatabase::new();

    let id = db
        .add_note(CreateNote {
            title: "Test note".to_string(),
            body: "Test body".to_string(),
            tags: vec!["tag1".to_string(), "tag2".to_string()],
            references: vec!["ref1".to_string()],
        })
        .unwrap();

    assert_eq!(id, 1);

    let note = db.get_note(id).unwrap();
    assert_eq!(note.title, "Test note");
    assert_eq!(note.body, "Test body");
    assert_eq!(note.tags, vec!["tag1", "tag2"]);
    assert_eq!(note.references, vec!["ref1"]);
}

#[test]
fn test_list_notes_by_tag() {
    let mut db = FilesDatabase::new();
    db.add_note(note("Note 1", "Body 1", &["alpha"])).unwrap();
    db.add_note(note("Note 2", "Body 2", &["beta"])).unwrap();
    db.add_note(note("Note 3", "Body 3", &["alpha", "beta"])).unwrap();

    let alpha_notes = db.list_notes(NoteQuery {
        tags: Some(vec!["alpha".to_string()]),
        ..Default::default()
    });

    assert_eq!(alpha_notes.len(), 2);
    assert!(alpha_notes.iter().any(|n| n.title == "Note 1"));
    assert!(alpha_notes.iter().any(|n| n.title == "Note 3"));
}

#[test]
fn test_update_note() {
    let mut db = FilesDatabase::new();
    let id = db.add_note(note("Original", "Original body", &["old"])).unwrap();

    db.update_note(
        id,
        UpdateNote {
            title: Some("Updated".to_string()),
            body: Some("Updated body".to_string()),
            tags: Some(vec!["new".to_string()]),
            references: None,
        },
    );

    let note = db.get_note(id).unwrap();
    assert_eq!(note.title, "Updated");
    assert_eq!(note.body, "Updated body");
    assert_eq!(note.tags, vec!["new"]);
}

#[test]
fn test_delete_note() {
    let mut db = FilesDatabase::new();
    let id = db.add_note(note("To delete", "Body", &["temp"])).unwrap();

    assert!(db.delete_note(id));
    assert!(db.get_note(id).is_none());
    assert!(!db.delete_note(id));
}

#[test]
fn test_list_tags() {
    let mut db = FilesDatabase::new();
    db.add_note(note("Note 1", "Body", &["alpha"])).unwrap();
    db.add_note(note("Note 2", "Body", &["alpha", "beta"])).unwrap();

    let tags = db.list_tags();
    assert_eq!(tags.len(), 2);
    assert_eq!(tags[0].name, "alpha");
    assert_eq!(tags[0].count, 2);
    assert_eq!(tags[1].name, "beta");
    assert_eq!(tags[1].count, 1);
}

#[test]
fn test_grep() {
    let mut db = FilesDatabase::new();
    db.add_note(note("Hello world", "This is a test", &["greeting"])).unwrap();
    db.add_note(note("Goodbye", "Farewell", &["farewell"])).unwrap();

    let matches = db.grep("hello", &None, false).unwrap();
    assert_eq!(matches.len(), 1);
    assert_eq!(matches[0].title, "Hello world");

    let matches = db.grep("HELLO", &None, true).unwrap();
    assert_eq!(matches.len(), 0);
}

#[test]
fn ids_increase_and_are_not_reused_after_delete() {
    let mut db = FilesDatabase::new();
    let mut ids = Vec::new();
    for i in 0..5 {
        ids.push(db.add_note(note(&format!("Note {}", i), "b", &[])).unwrap());
    }
    assert_eq!(ids, vec![1, 2, 3, 4, 5]);
    assert!(db.delete_note(5));
    let next = db.add_note(note("after delete", "b", &[])).unwrap();
    assert_eq!(next, 6);
    assert_eq!(db.counter(), 6);
}

#[test]
fn delete_prunes_tag_used_only_by_that_note() {
    let mut db = FilesDatabase::new();
    let a = db.add_note(note("a", "b", &["solo", "shared"])).unwrap();
    db.add_note(note("c", "d", &["shared"])).unwrap();
    assert!(db.delete_note(a));
    assert!(db.get_note(a).is_none());
    let tags = db.list_tags();
    assert_eq!(tags.len(), 1);
    assert_eq!(tags[0].name, "shared");
    assert_eq!(tags[0].count, 1);
    assert!(db.ids_with_tag("solo").is_empty());
}

#[test]
fn tag_filter_is_or_without_duplicates() {
    let mut db = FilesDatabase::new();
    db.add_note(note("A", "x", &["alpha"])).unwrap();
    db.add_note(note("B", "x", &["beta"])).unwrap();
    db.add_note(note("AB", "x", &["alpha", "beta"])).unwrap();
    db.add_note(note("C", "x", &["gamma"])).unwrap();
    let found = db.list_notes(NoteQuery {
        tags: Some(vec!["alpha".to_string(), "beta".to_string()]),
        ..Default::default()
    });
    let mut titles: Vec<String> = found.iter().map(|n| n.title.clone()).collect();
    titles.sort();
    assert_eq!(titles, vec!["A", "AB", "B"]);
}

#[test]
fn empty_tag_filter_lists_all() {
    let mut db = FilesDatabase::new();
    db.add_note(note("A", "x", &["alpha"])).unwrap();
    db.add_note(note("B", "x", &[])).unwrap();
    let found = db.list_notes(NoteQuery { tags: Some(vec![]), ..Default::default() });
    assert_eq!(found.len(), 2);
}

#[test]
fn retagging_twice_is_idempotent() {
    let mut db = FilesDatabase::new();
    let id = db.add_note(note("n", "b", &["old"])).unwrap();
    let update = UpdateNote { tags: Some(vec!["x".to_string(), "y".to_string()]), ..Default::default() };
    assert!(db.update_note(id, update.clone()));
    let first = db.list_tags();
    assert!(db.update_note(id, update));
    let second = db.list_tags();
    assert_eq!(first.len(), 2);
    assert_eq!(second.len(), 2);
    for (a, b) in first.iter().zip(second.iter()) {
        assert_eq!(a.name, b.name);
        assert_eq!(a.count, b.count);
    }
    assert!(db.ids_with_tag("old").is_empty());
    assert_eq!(db.get_note(id).unwrap().tags, vec!["x", "y"]);
}

#[test]
fn ties_on_time_list_larger_id_first() {
    let mut db = FilesDatabase::new();
    let file = |t: &str| NoteFile {
        title: t.to_string(),
        body: String::new(),
        references: vec![],
        modified: "2024-01-02 10:00:00".to_string(),
    };
    db.write_record(5, file("five"));
    db.write_record(7, file("seven"));
    let ids: Vec<i64> = db.list_notes(NoteQuery::default()).iter().map(|n| n.id).collect();
    assert_eq!(ids, vec![7, 5]);
}

#[test]
fn listing_is_newest_first() {
    let mut db = FilesDatabase::new();
    db.add_note_at(note("old", "b", &[]), "2024-01-01 00:00:00".to_string()).unwrap();
    db.add_note_at(note("new", "b", &[]), "2024-03-01 00:00:00".to_string()).unwrap();
    db.add_note_at(note("mid", "b", &[]), "2024-02-01 00:00:00".to_string()).unwrap();
    let titles: Vec<String> = db.list_notes(NoteQuery::default()).iter().map(|n| n.title.clone()).collect();
    assert_eq!(titles, vec!["new", "mid", "old"]);
}

#[test]
fn limit_cuts_and_count_ignores_it() {
    let mut db = FilesDatabase::new();
    for i in 0..5 {
        db.add_note(note(&format!("n{}", i), "b", &[])).unwrap();
    }
    let q = NoteQuery { limit: Some(2), ..Default::default() };
    assert_eq!(db.list_notes(q.clone()).len(), 2);
    assert_eq!(db.count_notes(q), 5);
    let unlimited = NoteQuery { limit: Some(0), ..Default::default() };
    assert_eq!(db.list_notes(unlimited).len(), 5);
}

#[test]
fn date_bounds_are_inclusive() {
    let mut db = FilesDatabase::new();
    db.add_note_at(note("jan", "b", &[]), "2024-01-15 00:00:00".to_string()).unwrap();
    db.add_note_at(note("feb", "b", &[]), "2024-02-15 00:00:00".to_string()).unwrap();
    db.add_note_at(note("mar", "b", &[]), "2024-03-15 00:00:00".to_string()).unwrap();
    let q = NoteQuery {
        from: Some("2024-02-15 00:00:00".to_string()),
        to: Some("2024-03-15 00:00:00".to_string()),
        ..Default::default()
    };
    let titles: Vec<String> = db.list_notes(q.clone()).iter().map(|n| n.title.clone()).collect();
    assert_eq!(titles, vec!["mar", "feb"]);
    assert_eq!(db.count_notes(q), 2);
}

#[test]
fn grep_case_sensitivity() {
    let mut db = FilesDatabase::new();
    db.add_note(note("hello world", "b", &[])).unwrap();
    assert_eq!(db.grep("Hello", &None, false).unwrap().len(), 1);
    assert_eq!(db.grep("Hello", &None, true).unwrap().len(), 0);
}

#[test]
fn grep_matches_body_and_respects_tags() {
    let mut db = FilesDatabase::new();
    db.add_note(note("one", "needle here", &["a"])).unwrap();
    db.add_note(note("two", "needle there", &["b"])).unwrap();
    let all = db.grep("need.e", &None, true).unwrap();
    assert_eq!(all.len(), 2);
    let only_b = db.grep("needle", &Some(vec!["b".to_string()]), true).unwrap();
    assert_eq!(only_b.len(), 1);
    assert_eq!(only_b[0].title, "two");
}

#[test]
fn grep_invalid_pattern_is_validation_error() {
    let mut db = FilesDatabase::new();
    db.add_note(note("x", "y", &[])).unwrap();
    match db.grep("foo(bar", &None, true) {
        Err(veta::Error::Validation(_)) => {}
        _ => panic!("expected a validation error"),
    }
}

#[test]
fn update_of_absent_note_is_false() {
    let mut db = FilesDatabase::new();
    assert!(!db.update_note(3, UpdateNote::default()));
    assert!(db.get_note(3).is_none());
}

#[test]
fn update_keeps_fields_not_given_and_refreshes_time() {
    let mut db = FilesDatabase::new();
    let id = db.add_note_at(note("t", "body", &["k"]), "2024-01-01 00:00:00".to_string()).unwrap();
    let u = UpdateNote { title: Some("t2".to_string()), ..Default::default() };
    assert!(db.update_note_at(id, u, "2024-05-05 05:05:05".to_string()));
    let n = db.get_note(id).unwrap();
    assert_eq!(n.title, "t2");
    assert_eq!(n.body, "body");
    assert_eq!(n.tags, vec!["k"]);
    assert_eq!(n.updated_at, "2024-05-05 05:05:05");
}

#[test]
fn exhausted_counter_is_database_error() {
    let mut db = FilesDatabase::new();
    db.restore_counter(Some(i64::MAX));
    match db.add_note(note("x", "y", &[])) {
        Err(veta::Error::Database(_)) => {}
        _ => panic!("expected a storage error"),
    }
}

#[test]
fn write_record_raises_counter_and_restore_keeps_max() {
    let mut db = FilesDatabase::new();
    db.write_record(
        9,
        NoteFile { title: "imported".to_string(), body: String::new(), references: vec![], modified: "2020-01-01 00:00:00".to_string() },
    );
    assert_eq!(db.counter(), 9);
    db.restore_counter(Some(4));
    assert_eq!(db.counter(), 9);
    db.restore_counter(None);
    assert_eq!(db.counter(), 9);
    assert_eq!(db.add_note(note("next", "b", &[])).unwrap(), 10);
    assert_eq!(db.note_ids(), vec![9, 10]);
    assert_eq!(db.read_record(9).unwrap().title, "imported");
}

#[test]
fn tags_of_are_sorted() {
    let mut db = FilesDatabase::new();
    let id = db.add_note(note("n", "b", &["zeta", "alpha", "mid"])).unwrap();
    assert_eq!(db.tags_of(id), vec!["alpha", "mid", "zeta"]);
    assert!(db.contains_note(id));
    assert!(!db.contains_note(id + 1));
}

#[test]
fn update_without_fields_refreshes_time() {
    let mut db = FilesDatabase::new();
    let id = db.add_note_at(note("t", "b", &["k"]), "2024-01-01 00:00:00".to_string()).unwrap();
    assert!(db.update_note_at(id, UpdateNote::default(), "2025-01-01 00:00:00".to_string()));
    let n = db.get_note(id).unwrap();
    assert_eq!(n.updated_at, "2025-01-01 00:00:00");
    assert_eq!(n.title, "t");
    assert_eq!(n.tags, vec!["k"]);
}

#[test]
fn references_are_kept_in_order() {
    let mut db = FilesDatabase::new();
    let id = db
        .add_note(CreateNote {
            title: "r".to_string(),
            body: String::new(),
            tags: vec![],
            references: vec!["b".to_string(), "a".to_string()],
        })
        .unwrap();
    assert_eq!(db.get_note(id).unwrap().references, vec!["b", "a"]);
    let u = UpdateNote { references: Some(vec!["c".to_string()]), ..Default::default() };
    assert!(db.update_note(id, u));
    assert_eq!(db.read_record(id).unwrap().references, vec!["c"]);
}
