use notura_core::export::export_as_markdown;
use notura_core::store::Store;

#[test]
fn integration_tests_test_create_note() {
    let mut store = Store::new();

    let title = "Test Note".to_string();
    let content = "This is a test note with some content.".to_string();
    let collection_id = None;

    let note = store.create_note(title.clone(), content.clone(), collection_id).unwrap();

    assert_eq!(note.title, title);
    assert_eq!(note.content, content);
    assert_eq!(note.word_count, 8);
    assert_eq!(note.character_count, 38);
    assert!(!note.is_archived);
}

#[test]
fn integration_tests_test_update_note() {
    let mut store = Store::new();

    let note = store
        .create_note("Original Title".to_string(), "Original content".to_string(), None)
        .unwrap();

    let new_content = "Updated content with more words".to_string();
    let updated_note = store.update_note(note.id.as_str(), new_content.clone()).unwrap();

    assert_eq!(updated_note.content, new_content);
    assert_eq!(updated_note.word_count, 5);
    assert_eq!(updated_note.character_count, 31);
    assert!(updated_note.updated_at > note.updated_at);
}

#[test]
fn test_word_and_character_counting() {
    let mut store = Store::new();

    let markdown_content = r#"# Heading

This is a **bold** text with `code` and [link](http://example.com).

- List item 1
- List item 2

```rust
fn hello() {
    println!("Hello, world!");
}
```"#;

    let note = store
        .create_note("Markdown Test".to_string(), markdown_content.to_string(), None)
        .unwrap();

    assert!(note.word_count > 0);
    assert!(note.character_count > 0);
    assert_eq!(note.character_count, markdown_content.chars().count());
}

#[test]
fn test_content_sanitization() {
    let mut store = Store::new();

    let dirty_content = "Line 1\r\nLine 2\rLine 3\nLine 4\0Null byte";
    let expected_clean = "Line 1\nLine 2\nLine 3\nLine 4Null byte";

    let note = store
        .create_note("Sanitization Test".to_string(), dirty_content.to_string(), None)
        .unwrap();

    assert_eq!(note.content, expected_clean);
}

#[test]
fn test_export_functionality() {
    let mut store = Store::new();

    let note1 = store
        .create_note("Note 1".to_string(), "Content of note 1".to_string(), None)
        .unwrap();
    let note2 = store
        .create_note("Note 2".to_string(), "Content of note 2".to_string(), None)
        .unwrap();

    let notes = vec![note1, note2];
    let markdown = export_as_markdown(&notes);

    assert!(markdown.contains("# Note 1"));
    assert!(markdown.contains("# Note 2"));
    assert!(markdown.contains("Content of note 1"));
    assert!(markdown.contains("Content of note 2"));
}
