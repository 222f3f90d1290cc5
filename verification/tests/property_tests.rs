use notura_core::export::{export_as_markdown, greet};
use notura_core::images::{image_filename, image_with_data};
use notura_core::model::StoreError;
use notura_core::search::extract_highlights;
use notura_core::store::Store;
use notura_core::text::{count_characters, count_words, sanitize_content};

#[test]
fn char_count_agrees_with_normalized_length() {
    let raw = "a\r\nb\0c\u{e9}\u{1f600}";
    let clean = sanitize_content(raw);
    assert_eq!(count_characters(clean.as_str()), clean.chars().count());
    assert_eq!(clean, "a\nbc\u{e9}\u{1f600}");
}

#[test]
fn word_count_of_blank_text_is_zero() {
    assert_eq!(count_words(""), 0);
    assert_eq!(count_words("   \t\n  \r "), 0);
    assert_eq!(count_words("one two  three"), 3);
}

#[test]
fn sanitize_is_idempotent() {
    let raw = "Line 1\r\nLine 2\rLine 3\nLine 4\0Null byte";
    let once = sanitize_content(raw);
    let twice = sanitize_content(once.as_str());
    assert_eq!(once, twice);
}

#[test]
fn sanitize_exact_value() {
    let cleaned = sanitize_content("Line 1\r\nLine 2\rLine 3\nLine 4\0Null byte");
    assert_eq!(cleaned, "Line 1\nLine 2\nLine 3\nLine 4Null byte");
}

#[test]
fn update_strictly_advances_even_with_a_stale_clock() {
    let mut store = Store::new();
    let note = store
        .create_note_with(
            "n1".to_string(),
            100,
            "T".to_string(),
            "old".to_string(),
            None,
        )
        .unwrap();
    assert_eq!(note.created_at, 100);
    let updated = store.update_note_with("n1", 50, "new".to_string()).unwrap();
    assert!(updated.updated_at > note.updated_at);
    assert_eq!(updated.updated_at, 101);
    let again = store.update_note_with("n1", 5000, "newer".to_string()).unwrap();
    assert_eq!(again.updated_at, 5000);
}

#[test]
fn sibling_sort_orders_count_up_from_one() {
    let mut store = Store::new();
    let a = store.create_collection("A".to_string(), None, None).unwrap();
    let b = store.create_collection("B".to_string(), None, None).unwrap();
    assert_eq!(a.sort_order, 1);
    assert_eq!(b.sort_order, 2);
    let child = store
        .create_collection("C".to_string(), None, Some(b.id.clone()))
        .unwrap();
    assert_eq!(child.sort_order, 1);
    assert_eq!(store.next_sort_order(&None), 3);
    assert_eq!(store.next_sort_order(&Some(b.id.clone())), 2);
}

#[test]
fn deleting_a_collection_with_children_is_refused() {
    let mut store = Store::new();
    let parent = store.create_collection("Parent".to_string(), None, None).unwrap();
    let _child = store
        .create_collection("Child".to_string(), None, Some(parent.id.clone()))
        .unwrap();
    let result = store.delete_collection(parent.id.as_str());
    assert_eq!(result.unwrap_err(), StoreError::Constraint);
}

#[test]
fn deleting_a_childless_collection_clears_note_references() {
    let mut store = Store::new();
    let c = store.create_collection("Box".to_string(), None, None).unwrap();
    let note = store
        .create_note("N".to_string(), "body".to_string(), Some(c.id.clone()))
        .unwrap();
    store.delete_collection(c.id.as_str()).unwrap();
    let survivor = store.get_note(note.id.as_str()).unwrap();
    assert_eq!(survivor.collection_id, None);
    assert!(store.get_collection(c.id.as_str()).is_err());
}

#[test]
fn search_scenario_finds_exactly_the_programming_notes() {
    let mut store = Store::new();
    store
        .create_note(
            "Rust Programming".to_string(),
            "Rust is a systems programming language".to_string(),
            None,
        )
        .unwrap();
    store
        .create_note(
            "JavaScript Guide".to_string(),
            "JavaScript is a web programming language".to_string(),
            None,
        )
        .unwrap();
    store
        .create_note(
            "Python Tutorial".to_string(),
            "Python is great for data science".to_string(),
            None,
        )
        .unwrap();
    let results = store.search_notes("programming", None);
    assert_eq!(results.len(), 2);
    // the title hit counts too, so the Rust note ranks first
    assert!(results[0].title.contains("Rust"));
    assert!(results[1].title.contains("JavaScript"));
    assert!(results[0].relevance_score > results[1].relevance_score);
    assert!(results[0].excerpt.contains("<mark>programming</mark>"));
}

#[test]
fn blank_queries_and_case_folding() {
    let mut store = Store::new();
    store
        .create_note("Alpha".to_string(), "The QUICK brown fox".to_string(), None)
        .unwrap();
    assert_eq!(store.search_notes("", None).len(), 0);
    assert_eq!(store.search_notes("   \t ", None).len(), 0);
    assert_eq!(store.search_notes("quick", None).len(), 1);
    assert_eq!(store.search_notes("QUICK", None).len(), 1);
    assert_eq!(store.search_notes("missing", None).len(), 0);
}

#[test]
fn case_insensitivity_covers_all_letters() {
    let hs = extract_highlights("\u{c9}clair recipe", "\u{e9}clair");
    assert_eq!(hs.len(), 1);
    assert_eq!(hs[0], "...\u{c9}clair recipe...");
    let mut store = Store::new();
    store
        .create_note("Menu".to_string(), "\u{c9}CLAIR and coffee".to_string(), None)
        .unwrap();
    assert_eq!(store.search_notes("\u{e9}clair", None).len(), 1);
    assert_eq!(store.search_notes("\u{c9}CLAIR", None).len(), 1);
    assert_eq!(store.search_notes("tea", None).len(), 0);
}

#[test]
fn json_import_accepts_reordered_fields() {
    let mut source = String::new();
    source.push_str("[ { \"is_archived\": true, \"title\": \"Shuffled\", \"word_count\": 99,\n");
    source.push_str("    \"collection_id\": \"c9\", \"content\": \"body text\", \"tags\": \"[]\",\n");
    source.push_str("    \"updated_at\": \"x\", \"created_at\": \"y\", \"character_count\": -5,\n");
    source.push_str("    \"id\": \"old-id\" } ]");
    let mut store = Store::new();
    let imported = store.import_notes(source.as_str()).unwrap();
    assert_eq!(imported.len(), 1);
    assert_eq!(imported[0].title, "Shuffled");
    assert_eq!(imported[0].content, "body text");
    assert_eq!(imported[0].collection_id, Some("c9".to_string()));
    // the incoming id, counts and flag are never trusted
    assert_ne!(imported[0].id, "old-id");
    assert_eq!(imported[0].word_count, 2);
    assert!(!imported[0].is_archived);
}

#[test]
fn json_import_requires_every_field_once() {
    // a missing field is not the structured format: the text falls back to
    // the markup path and comes in as one plain note
    let missing = "[ { \"title\": \"T\", \"content\": \"c\" } ]";
    let mut store = Store::new();
    let imported = store.import_notes(missing).unwrap();
    assert_eq!(imported.len(), 1);
    assert!(imported[0].content.contains("title"));
}

#[test]
fn highlights_window_around_first_occurrence() {
    let hs = extract_highlights("Rust is a systems programming language", "programming");
    assert_eq!(hs.len(), 1);
    assert_eq!(hs[0], "...Rust is a systems programming language...");
    let none = extract_highlights("Rust is a systems programming language", "zebra");
    assert_eq!(none.len(), 0);
}

#[test]
fn json_export_import_round_trip() {
    let mut source = Store::new();
    source
        .import_note_with(
            "a1".to_string(),
            10,
            "First \"quoted\" title".to_string(),
            "Line one\nline two".to_string(),
            Some("col-7".to_string()),
            "[\"alpha\",\"beta\"]".to_string(),
        )
        .unwrap();
    source
        .import_note_with(
            "a2".to_string(),
            20,
            "Second".to_string(),
            "short".to_string(),
            None,
            "[]".to_string(),
        )
        .unwrap();
    let ids = vec!["a1".to_string(), "a2".to_string()];
    let json = source.export_notes("json", &ids).unwrap();

    let mut target = Store::new();
    let imported = target.import_notes(json.as_str()).unwrap();
    assert_eq!(imported.len(), 2);
    assert_eq!(imported[0].title, "First \"quoted\" title");
    assert_eq!(imported[0].content, "Line one\nline two");
    assert_eq!(imported[0].tags, "[\"alpha\",\"beta\"]");
    assert_eq!(imported[0].collection_id, Some("col-7".to_string()));
    assert_eq!(imported[1].title, "Second");
    assert_eq!(imported[1].content, "short");
    // identifiers and timestamps are fresh, counts recomputed
    assert_ne!(imported[0].id, "a1");
    assert_ne!(imported[1].id, "a2");
    assert_eq!(imported[0].word_count, 4);
    assert_eq!(imported[0].character_count, 17);
}

#[test]
fn markdown_import_splits_on_rules() {
    let mut store = Store::new();
    let src = "## First note\nBody text here\n---\nSecond part with no heading";
    let imported = store.import_notes(src).unwrap();
    assert_eq!(imported.len(), 2);
    assert_eq!(imported[0].title, "First note");
    assert_eq!(imported[0].content, "## First note\nBody text here");
    assert_eq!(imported[1].title, "Second part with no heading");
    assert_eq!(imported[1].tags, "[]");
    assert_eq!(imported[1].collection_id, None);
}

#[test]
fn blank_markdown_sections_are_skipped() {
    let mut store = Store::new();
    let imported = store.import_notes("  \n---\nReal section\n---\n   ").unwrap();
    assert_eq!(imported.len(), 1);
    assert_eq!(imported[0].title, "Real section");
}

#[test]
fn deleted_note_vanishes_from_search_and_get() {
    let mut store = Store::new();
    let keep = store
        .create_note("Keeper".to_string(), "shared token apples".to_string(), None)
        .unwrap();
    let gone = store
        .create_note("Goner".to_string(), "shared token apples".to_string(), None)
        .unwrap();
    assert_eq!(store.search_notes("apples", None).len(), 2);
    store.delete_note(gone.id.as_str()).unwrap();
    let results = store.search_notes("apples", None);
    assert_eq!(results.len(), 1);
    assert_eq!(results[0].note_id, keep.id);
    assert!(store.get_note(gone.id.as_str()).is_err());
}

#[test]
fn export_errors_and_fetch_order() {
    let mut store = Store::new();
    let empty: Vec<String> = Vec::new();
    assert_eq!(store.export_notes("markdown", &empty).unwrap_err(), StoreError::NoSelection);

    let n1 = store
        .create_note_with("x1".to_string(), 100, "Older".to_string(), "a".to_string(), None)
        .unwrap();
    let n2 = store
        .create_note_with("x2".to_string(), 200, "Newer".to_string(), "b".to_string(), None)
        .unwrap();
    match store.export_notes("xml", &vec![n1.id.clone()]) {
        Err(StoreError::UnsupportedFormat(f)) => assert_eq!(f, "xml"),
        other => panic!("unexpected outcome: {:?}", other),
    }
    // ids supplied newest first, but the export runs in creation order
    let md = store.export_notes("markdown", &vec![n2.id.clone(), n1.id.clone()]).unwrap();
    let older_at = md.find("# Older").unwrap();
    let newer_at = md.find("# Newer").unwrap();
    assert!(older_at < newer_at);
}

#[test]
fn not_found_errors_carry_the_id() {
    let mut store = Store::new();
    match store.get_note("missing-note") {
        Err(e) => assert_eq!(e.message(), "Note with id missing-note not found"),
        Ok(_) => panic!("found a note in an empty store"),
    }
    assert!(matches!(
        store.get_collection("nope"),
        Err(StoreError::CollectionNotFound(_))
    ));
    assert!(matches!(store.delete_note("nope"), Err(StoreError::NoteNotFound(_))));
    assert!(matches!(store.delete_image("nope"), Err(StoreError::ImageNotFound(_))));
    assert!(matches!(
        store.move_note_to_collection("nope", None),
        Err(StoreError::NoteNotFound(_))
    ));
}

#[test]
fn timestamps_render_through_the_fixed_formats() {
    let mut store = Store::new();
    store
        .create_note_with(
            "t1".to_string(),
            50_000_000,
            "Stamped".to_string(),
            "body".to_string(),
            None,
        )
        .unwrap();
    let ids = vec!["t1".to_string()];
    let md = store.export_notes("markdown", &ids).unwrap();
    assert!(md.contains("*Created: 1970-01-01 00:00:50*"));
    let json = store.export_notes("json", &ids).unwrap();
    assert!(json.contains("1970-01-01T00:00:50+00:00"));
}

#[test]
fn tags_render_through_the_tag_parser() {
    let mut store = Store::new();
    store
        .import_note_with(
            "t2".to_string(),
            7,
            "Tagged".to_string(),
            "body".to_string(),
            None,
            "[\"work\",\"ideas\"]".to_string(),
        )
        .unwrap();
    let md = store.export_notes("markdown", &vec!["t2".to_string()]).unwrap();
    assert!(md.contains("*Tags: work, ideas*"));
    // malformed tag text is treated as no tags
    let mut other = Store::new();
    other
        .import_note_with(
            "t3".to_string(),
            8,
            "Untagged".to_string(),
            "body".to_string(),
            None,
            "not json".to_string(),
        )
        .unwrap();
    let md2 = other.export_notes("markdown", &vec!["t3".to_string()]).unwrap();
    assert!(!md2.contains("*Tags:"));
}

#[test]
fn generated_ids_have_the_hyphenated_form() {
    let mut store = Store::new();
    let note = store
        .create_note("N".to_string(), "c".to_string(), None)
        .unwrap();
    assert_eq!(note.id.len(), 36);
    assert_eq!(note.id.matches('-').count(), 4);
}

#[test]
fn listing_orders() {
    let mut store = Store::new();
    store
        .create_note_with("o1".to_string(), 10, "First".to_string(), "a".to_string(), None)
        .unwrap();
    store
        .create_note_with("o2".to_string(), 30, "Third".to_string(), "c".to_string(), None)
        .unwrap();
    store
        .create_note_with("o3".to_string(), 20, "Second".to_string(), "b".to_string(), None)
        .unwrap();
    let all = store.get_all_notes();
    assert_eq!(all.len(), 3);
    assert_eq!(all[0].id, "o2");
    assert_eq!(all[1].id, "o3");
    assert_eq!(all[2].id, "o1");

    let root_a = store.create_collection("A".to_string(), None, None).unwrap();
    let root_b = store.create_collection("B".to_string(), None, None).unwrap();
    let child = store
        .create_collection("C".to_string(), None, Some(root_a.id.clone()))
        .unwrap();
    let cs = store.get_all_collections();
    assert_eq!(cs.len(), 3);
    assert_eq!(cs[0].id, root_a.id);
    assert_eq!(cs[1].id, root_b.id);
    assert_eq!(cs[2].id, child.id);
}

#[test]
fn image_lifecycle_and_associations() {
    let mut store = Store::new();
    let note = store
        .create_note("Holder".to_string(), "body".to_string(), None)
        .unwrap();
    let fname = image_filename("img1", 42, "photo.jpeg");
    assert_eq!(fname, "img1_42.jpeg");
    assert_eq!(image_filename("img2", -3, "noext"), "img2_-3.png");

    let meta = store
        .save_image_with(
            "img1".to_string(),
            42,
            fname.clone(),
            "photo.jpeg".to_string(),
            "/tmp/images/img1_42.jpeg".to_string(),
            5,
            "image/jpeg".to_string(),
            Some(note.id.clone()),
        )
        .unwrap();
    assert_eq!(meta.filename, fname);
    assert_eq!(store.get_images_for_note(note.id.as_str()).len(), 1);
    assert_eq!(store.get_all_images().len(), 1);
    let fetched = store.get_image_meta("img1").unwrap();
    assert_eq!(fetched.size, 5);

    let bytes: Vec<u8> = b"hello".to_vec();
    let with_data = image_with_data(&fetched, &bytes);
    assert_eq!(with_data.data_url, "data:image/jpeg;base64,aGVsbG8=");

    store.update_image_note_association_with("img1", note.id.as_str(), false, 50).unwrap();
    assert_eq!(store.get_images_for_note(note.id.as_str()).len(), 0);
    store.update_image_note_association("img1", note.id.as_str(), true).unwrap();
    store.update_image_note_association("img1", note.id.as_str(), true).unwrap();
    assert_eq!(store.get_images_for_note(note.id.as_str()).len(), 1);

    store.delete_image("img1").unwrap();
    assert!(store.get_image_meta("img1").is_err());
    assert_eq!(store.get_images_for_note(note.id.as_str()).len(), 0);
}

#[test]
fn storage_info_counts_and_stubs() {
    let mut store = Store::new();
    store.create_note("N".to_string(), "c".to_string(), None).unwrap();
    store.create_collection("C".to_string(), None, None).unwrap();
    let info = store.get_storage_info(12345);
    assert_eq!(info.total_notes, 1);
    assert_eq!(info.total_collections, 1);
    assert_eq!(info.database_size, 12345);
    assert!(info.last_backup.is_none());
    assert_eq!(store.get_recent_searches().len(), 0);
    store.save_recent_search("anything");
}

#[test]
fn greeting_text() {
    assert_eq!(greet("Ada"), "Hello, Ada! You've been greeted from Rust!");
}

#[test]
fn empty_json_round_trip() {
    let store = Store::new();
    let empty: Vec<notura_core::model::Note> = Vec::new();
    let json = notura_core::export::export_as_json(&empty);
    assert_eq!(json, "[]");
    let mut target = Store::new();
    let imported = target.import_notes("[]").unwrap();
    assert_eq!(imported.len(), 0);
    assert_eq!(store.get_recent_searches().len(), 0);
}

#[test]
fn update_collection_renames() {
    let mut store = Store::new();
    let c = store.create_collection("Old".to_string(), None, None).unwrap();
    let renamed = store
        .update_collection(c.id.as_str(), "New".to_string(), Some("desc".to_string()))
        .unwrap();
    assert_eq!(renamed.name, "New");
    assert_eq!(renamed.description, Some("desc".to_string()));
    assert_eq!(renamed.sort_order, c.sort_order);
    assert!(renamed.updated_at > c.updated_at);
}
