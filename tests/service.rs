use veta::input::{parse_i64, parse_ids, parse_tags};
use veta::search::{compile_search, text_matches};
use veta::service::{listing_query, prepare_note, prepare_update, summarize};
use veta::text::compare_text;
use veta::{get_pending_migrations, Error, FilesDatabase, Note, NoteQuery, UpdateNote, VetaService, SCHEMA_VERSION};

fn strings(v: &[&str]) -> Vec<String> {
    v.iter().map(|s| s.to_string()).collect()
}

#[test]
fn round_trip_normalizes_tags_and_references() {
    let mut svc = VetaService::new(FilesDatabase::new());
    let id = svc
        .add_note(
            "  Title  ".to_string(),
            "Body".to_string(),
            strings(&[" A ", "a", "B", "  "]),
            strings(&[" r1 ", "r1", "", "r2"]),
        )
        .unwrap();
    let n = svc.get_note(id).unwrap().unwrap();
    assert_eq!(n.title, "Title");
    assert_eq!(n.body, "Body");
    assert_eq!(n.tags, vec!["a", "b"]);
    assert_eq!(n.references, vec!["r1", "r2"]);
}

#[test]
fn empty_title_is_validation_error() {
    let mut svc = VetaService::new(FilesDatabase::new());
    match svc.add_note("   ".to_string(), "b".to_string(), vec![], vec![]) {
        Err(Error::Validation(m)) => assert_eq!(m, "title cannot be empty"),
        _ => panic!("expected a validation error"),
    }
    assert_eq!(svc.count_notes(NoteQuery::default()).unwrap(), 0);
}

#[test]
fn update_with_empty_title_is_refused() {
    let mut svc = VetaService::new(FilesDatabase::new());
    let id = svc.add_note("t".to_string(), "b".to_string(), vec![], vec![]).unwrap();
    let u = UpdateNote { title: Some(" ".to_string()), ..Default::default() };
    assert!(matches!(svc.update_note(id, u), Err(Error::Validation(_))));
    assert_eq!(svc.get_note(id).unwrap().unwrap().title, "t");
}

#[test]
fn update_normalizes_and_reports_absence() {
    let mut svc = VetaService::new(FilesDatabase::new());
    let id = svc.add_note("t".to_string(), "b".to_string(), strings(&["x"]), vec![]).unwrap();
    let u = UpdateNote { tags: Some(strings(&["Y ", "y", "X"])), ..Default::default() };
    assert!(svc.update_note(id, u).unwrap());
    assert_eq!(svc.get_note(id).unwrap().unwrap().tags, vec!["x", "y"]);
    assert!(!svc.update_note(id + 1, UpdateNote::default()).unwrap());
    assert!(svc.delete_note(id).unwrap());
    assert!(!svc.delete_note(id).unwrap());
}

#[test]
fn prepare_update_trims_title_and_keeps_body() {
    let u = UpdateNote {
        title: Some(" New ".to_string()),
        body: Some(" keep ".to_string()),
        tags: None,
        references: Some(strings(&["a", " a", "b"])),
    };
    let p = prepare_update(u).unwrap();
    assert_eq!(p.title.unwrap(), "New");
    assert_eq!(p.body.unwrap(), " keep ");
    assert!(p.tags.is_none());
    assert_eq!(p.references.unwrap(), vec!["a", "b"]);
}

#[test]
fn prepare_note_sorts_and_dedups_tags() {
    let c = prepare_note("x".to_string(), String::new(), strings(&["Beta", "alpha", "BETA"]), vec![]).unwrap();
    assert_eq!(c.tags, vec!["alpha", "beta"]);
    assert!(c.references.is_empty());
}

#[test]
fn listing_query_defaults() {
    assert_eq!(listing_query(NoteQuery::default()).limit, Some(100));
    assert_eq!(listing_query(NoteQuery { limit: Some(0), ..Default::default() }).limit, None);
    assert_eq!(listing_query(NoteQuery { limit: Some(7), ..Default::default() }).limit, Some(7));
}

#[test]
fn service_lists_summaries_and_tags() {
    let mut svc = VetaService::new(FilesDatabase::new());
    svc.add_note("one".to_string(), "line1\nline2".to_string(), strings(&["t"]), vec![]).unwrap();
    svc.add_note("two".to_string(), "x".to_string(), strings(&["t", "u"]), vec![]).unwrap();
    let list = svc.list_notes(NoteQuery::default()).unwrap();
    assert_eq!(list.len(), 2);
    let one = list.iter().find(|s| s.title == "one").unwrap();
    assert_eq!(one.body_preview, "line1 line2");
    let tags = svc.list_tags().unwrap();
    assert_eq!(tags[0].name, "t");
    assert_eq!(tags[0].count, 2);
    let found = svc.grep("LINE", None, false).unwrap();
    assert_eq!(found.len(), 1);
    assert!(matches!(svc.grep("[", None, false), Err(Error::Validation(_))));
}

#[test]
fn summary_preview_is_cut_with_ellipsis() {
    let n = Note {
        id: 3,
        title: "t".to_string(),
        body: "  abcdef\r\nghi  ".to_string(),
        tags: strings(&["k"]),
        references: vec![],
        updated_at: "2024-01-01 00:00:00".to_string(),
    };
    let s = n.to_summary(4);
    assert_eq!(s.id, 3);
    assert_eq!(s.body_preview, "abcd...");
    assert_eq!(s.tags, vec!["k"]);
    let full = n.to_summary(100);
    assert_eq!(full.body_preview, "abcdef  ghi");
    let list = summarize(&vec![n]);
    assert_eq!(list[0].body_preview, "abcdef  ghi");
}

#[test]
fn pending_migrations_by_version() {
    let all = get_pending_migrations(0);
    assert_eq!(all.len(), 2);
    assert_eq!(all[0].version, 1);
    assert_eq!(all[0].name, "initial_schema");
    assert_eq!(all[0].statements.len(), 7);
    assert_eq!(all[1].name, "add_references");
    let rest = get_pending_migrations(1);
    assert_eq!(rest.len(), 1);
    assert_eq!(rest[0].version, 2);
    assert!(get_pending_migrations(SCHEMA_VERSION).is_empty());
    assert_eq!(get_pending_migrations(-5).len(), 2);
}

#[test]
fn error_messages_name_their_class() {
    assert_eq!(Error::Validation("x".to_string()).message(), "validation error: x");
    assert_eq!(Error::Database("y".to_string()).message(), "database error: y");
    assert_eq!(Error::NotFound("z".to_string()).message(), "not found: z");
    assert_eq!(Error::Internal("w".to_string()).message(), "internal error: w");
}

#[test]
fn text_order_is_by_code_point() {
    assert_eq!(compare_text("a", "b"), -1);
    assert_eq!(compare_text("b", "a"), 1);
    assert_eq!(compare_text("ab", "ab"), 0);
    assert_eq!(compare_text("ab", "abc"), -1);
    assert_eq!(compare_text("Z", "a"), -1);
    assert_eq!(compare_text("", ""), 0);
}

#[test]
fn search_compiles_case_folded_pattern() {
    let m = compile_search("hello", false).unwrap();
    assert!(text_matches(&m, "HeLLo there", ""));
    assert!(!text_matches(&m, "help", "hell"));
    let exact = compile_search("hello", true).unwrap();
    assert!(!text_matches(&exact, "HELLO", "Hello"));
    assert!(text_matches(&exact, "x", "say hello"));
    assert!(compile_search("(", true).is_err());
}

#[test]
fn comma_lists_are_trimmed_and_empties_dropped() {
    assert_eq!(parse_tags(" a, b ,,c,"), vec!["a", "b", "c"]);
    assert_eq!(parse_tags(""), Vec::<String>::new());
    assert_eq!(parse_tags("solo"), vec!["solo"]);
}

#[test]
fn id_lists_parse_or_fail_with_validation() {
    assert_eq!(parse_ids("1, 2,,30").unwrap(), vec![1, 2, 30]);
    assert_eq!(parse_ids("").unwrap(), Vec::<i64>::new());
    assert!(matches!(parse_ids("1,x"), Err(Error::Validation(_))));
    assert!(matches!(parse_ids("9223372036854775808"), Err(Error::Validation(_))));
}

#[test]
fn decimal_reading_matches_std() {
    for s in ["0", "42", "-7", "+5", "-9223372036854775808", "9223372036854775807", "", "-", "+", "1a", "9223372036854775808", "-9223372036854775809", "00012"] {
        assert_eq!(parse_i64(s), s.parse::<i64>().ok(), "input {:?}", s);
    }
}

#[test]
fn summary_preview_cuts_at_byte_length_on_char_boundary() {
    let n = Note {
        id: 1,
        title: "t".to_string(),
        body: "héllo".to_string(),
        tags: vec![],
        references: vec![],
        updated_at: "2024-01-01 00:00:00".to_string(),
    };
    assert_eq!(n.to_summary(2).body_preview, "h...");
    assert_eq!(n.to_summary(3).body_preview, "hé...");
    assert_eq!(n.to_summary(6).body_preview, "héllo");
    assert_eq!(n.to_summary(5).body_preview, "héll...");
}

#[test]
fn migration_statements_are_listed_in_order() {
    let all = get_pending_migrations(0);
    assert!(all[0].statements[0].starts_with("CREATE TABLE IF NOT EXISTS _veta_meta"));
    assert!(all[0].statements[6].contains("idx_tags_name"));
    assert_eq!(all[1].statements.len(), 1);
    assert!(all[1].statements[0].starts_with("ALTER TABLE notes ADD COLUMN"));
}

#[test]
fn service_refusal_leaves_store_untouched() {
    let mut svc = VetaService::new(FilesDatabase::new());
    let id = svc.add_note("keep".to_string(), "b".to_string(), vec![], vec![]).unwrap();
    assert!(svc.add_note(" \t ".to_string(), "b".to_string(), vec![], vec![]).is_err());
    let next = svc.add_note("next".to_string(), "b".to_string(), vec![], vec![]).unwrap();
    assert_eq!(next, id + 1);
    let u = UpdateNote { title: Some("".to_string()), body: Some("changed".to_string()), ..Default::default() };
    assert!(svc.update_note(id, u).is_err());
    assert_eq!(svc.get_note(id).unwrap().unwrap().body, "b");
}

#[test]
fn references_repeated_apart_are_dropped() {
    let c = prepare_note("x".to_string(), String::new(), vec![], strings(&["x", "y", " x "])).unwrap();
    assert_eq!(c.references, vec!["x", "y"]);
}

#[test]
fn trimming_matches_std() {
    for s in ["  a b  ", "\u{3000}x\u{2009}", "\t\n", "", "no-space", "\u{85}y\u{a0}", "\u{200b}z"] {
        assert_eq!(veta::text::trim_text(s), s.trim(), "input {:?}", s);
    }
}

#[test]
fn stored_time_has_timestamp_form() {
    let mut db = FilesDatabase::new();
    let id = db.add_note(veta::CreateNote { title: "t".to_string(), body: String::new(), tags: vec![], references: vec![] }).unwrap();
    let t = db.get_note(id).unwrap().updated_at;
    let b = t.as_bytes();
    assert_eq!(b.len(), 19);
    for (i, c) in b.iter().enumerate() {
        match i {
            4 | 7 => assert_eq!(*c, b'-'),
            10 => assert_eq!(*c, b' '),
            13 | 16 => assert_eq!(*c, b':'),
            _ => assert!(c.is_ascii_digit()),
        }
    }
    assert_eq!(veta::clock::format_timestamp(2024, 1, 2, 3, 4, 5), "2024-01-02 03:04:05");
    assert_eq!(veta::clock::format_timestamp(7, 12, 31, 23, 59, 59), "0007-12-31 23:59:59");
}
