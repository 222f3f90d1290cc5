use notura_core::store::Store;

#[test]
fn api_tests_test_create_note() {
    let mut store = Store::new();

    let title = "Test Note".to_string();
    let content = "This is a test note with some content.".to_string();
    let collection_id = None;

    let note = store.create_note(title.clone(), content.clone(), collection_id).unwrap();

    assert_eq!(note.title, title);
    assert_eq!(note.content, content);
    assert_eq!(note.word_count, 8);
    assert_eq!(note.character_count, 38);
    assert!(!note.is_archived);
}

#[test]
fn api_tests_test_update_note() {
    let mut store = Store::new();

    let note = store
        .create_note("Original Title".to_string(), "Original content".to_string(), None)
        .unwrap();

    let new_content = "Updated content with more words".to_string();
    let updated_note = store.update_note(note.id.as_str(), new_content.clone()).unwrap();

    assert_eq!(updated_note.content, new_content);
    assert_eq!(updated_note.word_count, 5);
    assert_eq!(updated_note.character_count, 31);
    assert!(updated_note.updated_at > note.updated_at);
}

#[test]
fn test_delete_note() {
    let mut store = Store::new();

    let note = store
        .create_note("Test Note".to_string(), "Test content".to_string(), None)
        .unwrap();

    let result = store.delete_note(note.id.as_str());
    assert!(result.is_ok());

    let get_result = store.get_note(note.id.as_str());
    assert!(get_result.is_err());
}

#[test]
fn test_create_collection() {
    let mut store = Store::new();

    let name = "Test Collection".to_string();
    let description = Some("A test collection".to_string());
    let parent_id = None;

    let collection = store.create_collection(name.clone(), description.clone(), parent_id).unwrap();

    assert_eq!(collection.name, name);
    assert_eq!(collection.description, description);
    assert_eq!(collection.parent_id, None);
    assert_eq!(collection.sort_order, 1);
}

#[test]
fn test_hierarchical_collections() {
    let mut store = Store::new();

    let parent = store.create_collection("Parent".to_string(), None, None).unwrap();
    let child = store
        .create_collection("Child".to_string(), None, Some(parent.id.clone()))
        .unwrap();

    assert_eq!(child.parent_id, Some(parent.id));
    assert_eq!(child.sort_order, 1);
}

#[test]
fn test_search_notes() {
    let mut store = Store::new();

    let _note1 = store
        .create_note(
            "Rust Programming".to_string(),
            "Rust is a systems programming language".to_string(),
            None,
        )
        .unwrap();
    let _note2 = store
        .create_note(
            "JavaScript Guide".to_string(),
            "JavaScript is a web programming language".to_string(),
            None,
        )
        .unwrap();
    let _note3 = store
        .create_note(
            "Python Tutorial".to_string(),
            "Python is great for data science".to_string(),
            None,
        )
        .unwrap();

    let results = store.search_notes("programming", None);

    assert_eq!(results.len(), 2);
    assert!(results.iter().any(|r| r.title.contains("Rust")));
    assert!(results.iter().any(|r| r.title.contains("JavaScript")));
}

#[test]
fn test_export_notes_markdown() {
    let mut store = Store::new();

    let note1 = store
        .create_note("Note 1".to_string(), "Content of note 1".to_string(), None)
        .unwrap();
    let note2 = store
        .create_note("Note 2".to_string(), "Content of note 2".to_string(), None)
        .unwrap();

    let note_ids = vec![note1.id, note2.id];
    let markdown = store.export_notes("markdown", &note_ids).unwrap();

    assert!(markdown.contains("# Note 1"));
    assert!(markdown.contains("# Note 2"));
    assert!(markdown.contains("Content of note 1"));
    assert!(markdown.contains("Content of note 2"));
}

#[test]
fn test_move_note_to_collection() {
    let mut store = Store::new();

    let collection = store.create_collection("Test Collection".to_string(), None, None).unwrap();
    let note = store
        .create_note("Test Note".to_string(), "Test content".to_string(), None)
        .unwrap();

    let result = store.move_note_to_collection(note.id.as_str(), Some(collection.id.clone()));
    assert!(result.is_ok());

    let updated_note = store.get_note(note.id.as_str()).unwrap();
    assert_eq!(updated_note.collection_id, Some(collection.id));
}
