use grinta::model::{CommandItem, CommandType, Handler};

fn create_test_item(label: &str, handler: Handler, value: &str) -> CommandItem {
    CommandItem::new(label, handler, value)
}

#[test]
fn test_handler_to_string() {
    assert_eq!(Handler::App.to_string(), "Application");
    assert_eq!(Handler::Note.to_string(), "Note");
    assert_eq!(Handler::Url.to_string(), "Website");
    assert_eq!(Handler::File.to_string(), "File");
    assert_eq!(Handler::Folder.to_string(), "Folder");
    assert_eq!(Handler::Automation.to_string(), "Shortcut");
}

#[test]
fn test_handler_to_icon() {
    assert_eq!(Handler::App.to_icon(), "\u{1f4f1}");
    assert_eq!(Handler::Note.to_icon(), "\u{1f4dd}");
    assert_eq!(Handler::Url.to_icon(), "\u{1f517}");
    assert_eq!(Handler::File.to_icon(), "\u{1f4c4}");
    assert_eq!(Handler::Folder.to_icon(), "\u{1f4c1}");
    assert_eq!(Handler::Automation.to_icon(), "\u{26a1}");
}

#[test]
fn test_handler_ordering() {
    let mut handlers = vec![
        Handler::Url,
        Handler::App,
        Handler::Note,
        Handler::File,
        Handler::Folder,
        Handler::Automation,
    ];
    handlers.sort();
    assert_eq!(
        handlers,
        vec![
            Handler::App,
            Handler::Note,
            Handler::Url,
            Handler::Automation,
            Handler::Folder,
            Handler::File,
        ]
    );
}

#[test]
fn test_command_type_default() {
    assert_eq!(CommandType::default(), CommandType::Unknown);
}

#[test]
fn test_command_item_new() {
    let item = CommandItem::new("Test App", Handler::App, "/Applications/Test.app");

    assert_eq!(item.label, "Test App");
    assert_eq!(item.handler, Handler::App);
    assert_eq!(item.value, "/Applications/Test.app");
    assert_eq!(item.icon, "\u{1f4f1}");
    assert!(item.ran_at.is_none());
    assert!(item.base64_icon.is_none());
    assert!(item.metadata.is_empty());
    assert_eq!(item.kind, CommandType::Unknown);
}

#[test]
fn test_command_item_mark_executed() {
    let mut item = CommandItem::new("Test", Handler::App, "test");
    assert!(item.ran_at.is_none());

    let before = chrono::Local::now().timestamp_millis();
    item.mark_executed();
    let after = chrono::Local::now().timestamp_millis();

    assert!(item.ran_at.is_some());
    let ran_at = item.ran_at.unwrap();
    assert!(ran_at >= before && ran_at <= after);
}

#[test]
fn test_command_item_serialization() {
    let mut item = CommandItem::new("Test Note", Handler::Note, "note-id-123");
    item.mark_executed();
    item.base64_icon = Some("base64data".to_string());
    item.set_metadata("folder".to_string(), "Work".to_string());
    item.kind = CommandType::Note;

    let encoded = grinta::codec::encode_history(&vec![item.clone()]);
    let decoded = grinta::codec::decode_history(&encoded).unwrap();
    let deserialized = &decoded[0];

    assert_eq!(deserialized.label, item.label);
    assert_eq!(deserialized.handler, item.handler);
    assert_eq!(deserialized.value, item.value);
    assert_eq!(deserialized.base64_icon, item.base64_icon);
    assert_eq!(deserialized.metadata, item.metadata);
    assert_eq!(deserialized.kind, item.kind);
}

#[test]
fn test_command_item_clone() {
    let mut original = CommandItem::new("Original", Handler::File, "/path/to/file");
    original.mark_executed();
    original.set_metadata("type".to_string(), "document".to_string());

    let cloned = original.clone();

    assert_eq!(cloned.label, original.label);
    assert_eq!(cloned.handler, original.handler);
    assert_eq!(cloned.value, original.value);
    assert_eq!(cloned.ran_at, original.ran_at);
    assert_eq!(cloned.metadata, original.metadata);
}

#[test]
fn test_command_item_equality() {
    let item1 = CommandItem::new("Test", Handler::App, "test");
    let item2 = CommandItem::new("Test", Handler::App, "test");
    let item3 = CommandItem::new("Different", Handler::App, "test");

    assert_eq!(item1, item2);
    assert_ne!(item1, item3);
}

#[test]
fn test_command_item_with_metadata() {
    let mut item = CommandItem::new("Document", Handler::File, "/path/doc.pdf");
    item.set_metadata("size".to_string(), "1024".to_string());
    item.set_metadata("type".to_string(), "pdf".to_string());

    assert_eq!(item.get_metadata("size"), Some(&"1024".to_string()));
    assert_eq!(item.get_metadata("type"), Some(&"pdf".to_string()));
    assert_eq!(item.metadata.len(), 2);
}

#[test]
fn test_command_item_handlers() {
    let handlers = vec![
        Handler::Url,
        Handler::App,
        Handler::Note,
        Handler::File,
        Handler::Folder,
        Handler::Automation,
    ];

    for handler in handlers {
        let item = create_test_item("Test", handler, "test_value");
        assert_eq!(item.handler, handler);
    }
}

#[test]
fn commands_test_handler_consistency() {
    assert_eq!(Handler::Url.to_string(), "Website");
    assert_eq!(Handler::App.to_string(), "Application");
    assert_eq!(Handler::Note.to_string(), "Note");
    assert_eq!(Handler::File.to_string(), "File");
    assert_eq!(Handler::Folder.to_string(), "Folder");
    assert_eq!(Handler::Automation.to_string(), "Shortcut");
}

#[test]
fn test_alt_modifier_behavior() {
    let file_item = create_test_item("File", Handler::File, "/path/to/file.txt");
    let folder_item = create_test_item("Folder", Handler::Folder, "/path/to/folder");
    let url_item = create_test_item("URL", Handler::Url, "https://example.com");

    assert_eq!(file_item.handler, Handler::File);
    assert_eq!(folder_item.handler, Handler::Folder);
    assert_eq!(url_item.handler, Handler::Url);
}

#[test]
fn test_command_item_creation() {
    let item = create_test_item("Test Command", Handler::App, "/Applications/Test.app");

    assert_eq!(item.label, "Test Command");
    assert_eq!(item.handler, Handler::App);
    assert_eq!(item.value, "/Applications/Test.app");
    assert_eq!(item.icon, Handler::App.to_icon());
}

#[test]
fn test_platform_specific_compilation() {
    assert!(true);
    assert!(true);
}
