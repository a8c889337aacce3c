use grinta::codec::{decode_history, encode_history};
use grinta::history::{add_to_history, add_to_history_at};
use grinta::model::{CommandItem, CommandType, Handler};

fn create_test_item(label: &str, handler: Handler, value: &str) -> CommandItem {
    CommandItem::new(label, handler, value)
}

#[test]
fn history_new_item_is_appended_and_stamped() {
    let mut history = vec![];
    let item = create_test_item("New App", Handler::App, "/Applications/New.app");

    add_to_history(&mut history, item);
    assert_eq!(history.len(), 1);
    assert_eq!(history[0].label, "New App");
    assert!(history[0].ran_at.is_some());
}

#[test]
fn history_duplicate_moves_to_end() {
    let mut history = vec![
        create_test_item("App 1", Handler::App, "/Applications/App1.app"),
        create_test_item("App 2", Handler::App, "/Applications/App2.app"),
        create_test_item("App 3", Handler::App, "/Applications/App3.app"),
    ];

    let duplicate_item = create_test_item("App 2", Handler::App, "/Applications/App2.app");
    add_to_history(&mut history, duplicate_item);

    assert_eq!(history.len(), 3); // Should still be 3 items
    assert_eq!(history[2].label, "App 2");
    assert!(history[2].ran_at.is_some());
    assert_eq!(history[0].label, "App 1");
    assert_eq!(history[1].label, "App 3");
}

#[test]
fn history_dedup_updates_timestamp() {
    let mut history = vec![];
    let item = create_test_item("App", Handler::App, "/app");
    add_to_history_at(&mut history, item.clone(), 100);
    assert_eq!(history[0].ran_at, Some(100));

    add_to_history_at(&mut history, item, 200);
    assert_eq!(history.len(), 1);
    assert_eq!(history[0].ran_at, Some(200));
}

#[test]
fn history_different_handlers_are_distinct_entries() {
    let mut history = vec![create_test_item("Test", Handler::App, "test")];

    let note_item = create_test_item("Test", Handler::Note, "test");
    add_to_history(&mut history, note_item);

    assert_eq!(history.len(), 2);
    assert_eq!(history[0].handler, Handler::App);
    assert_eq!(history[1].handler, Handler::Note);
}

#[test]
fn codec_round_trip_preserves_all_fields() {
    let mut a = create_test_item("Test App", Handler::App, "/Applications/Test.app");
    a.ran_at = Some(1700000000123);
    let mut b = create_test_item("Test Note", Handler::Note, "note-123");
    b.base64_icon = Some("aWNvbg==".to_string());
    b.set_metadata("folder".to_string(), "Work".to_string());
    b.set_metadata("size".to_string(), "1024".to_string());
    b.kind = CommandType::Note;
    let c = create_test_item("Test File", Handler::File, "/path/to/file.txt");

    let history = vec![a, b, c];
    let encoded = encode_history(&history);
    let loaded = decode_history(&encoded).unwrap();

    assert_eq!(loaded.len(), 3);
    assert_eq!(loaded[0].label, "Test App");
    assert_eq!(loaded[0].ran_at, Some(1700000000123));
    assert_eq!(loaded[1].label, "Test Note");
    assert_eq!(loaded[1].ran_at, None);
    assert_eq!(loaded[1].base64_icon, Some("aWNvbg==".to_string()));
    assert_eq!(loaded[1].get_metadata("folder"), Some(&"Work".to_string()));
    assert_eq!(loaded[1].get_metadata("size"), Some(&"1024".to_string()));
    assert_eq!(loaded[1].kind, CommandType::Note);
    assert_eq!(loaded[2].label, "Test File");
    assert_eq!(loaded, history);
}

#[test]
fn codec_round_trip_negative_timestamp_and_escapes() {
    let mut item = create_test_item("we|rd \\ label", Handler::Url, "https://x|y\\z");
    item.ran_at = Some(-42);
    let history = vec![item];
    let encoded = encode_history(&history);
    let loaded = decode_history(&encoded).unwrap();
    assert_eq!(loaded, history);
    assert_eq!(loaded[0].ran_at, Some(-42));
}

#[test]
fn corrupt_history_decodes_to_nothing() {
    assert!(decode_history("not json").is_none());
    assert!(decode_history("invalid json content").is_none());
    // The empty document is the empty history, not a failure.
    assert_eq!(decode_history("").unwrap().len(), 0);
}

#[test]
fn truncated_history_decodes_to_nothing() {
    let history = vec![create_test_item("App", Handler::App, "/app")];
    let encoded = encode_history(&history);
    let truncated: String = encoded.chars().take(encoded.chars().count() - 1).collect();
    assert!(decode_history(&truncated).is_none());
}
