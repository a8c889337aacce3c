use grinta::model::{CommandItem, CommandType, Handler};
use grinta::state::{AppState, Effect, Event};

fn create_test_item(label: &str, handler: Handler, value: &str) -> CommandItem {
    let mut item = CommandItem::new(label, handler, value);
    item.kind = match handler {
        Handler::App => CommandType::App,
        Handler::Note => CommandType::Note,
        Handler::Url => CommandType::WebSearch,
        _ => CommandType::Unknown,
    };
    item
}

fn create_web_item(label: &str) -> CommandItem {
    let mut item = CommandItem::new(
        label,
        Handler::Url,
        &format!("https://example.com/{}", label),
    );
    item.kind = CommandType::WebSuggestion;
    item
}

#[test]
fn test_app_state_new() {
    let history = vec![create_test_item("Test App", Handler::App, "test")];
    let items = vec![create_test_item("Another App", Handler::App, "another")];

    let state = AppState::new(history.clone(), items.clone());

    assert_eq!(state.history, history);
    assert_eq!(state.items, items);
    assert!(state.fs_items.is_empty());
    assert!(state.web_items.is_empty());
    // With an empty query, the view shows the reversed history.
    assert_eq!(state.filtered_items.len(), 1);
    assert_eq!(state.filtered_items[0].label, "Test App");
    assert!(state.query.is_empty());
    assert!(state.error_message.is_none());
    assert_eq!(state.selected, Some(0));
}

#[test]
fn test_filter_items_empty_query() {
    let history = vec![
        create_test_item("Recent App", Handler::App, "recent"),
        create_test_item("Old App", Handler::App, "old"),
    ];
    let mut state = AppState::new(history, vec![]);

    state.filter_items();

    assert_eq!(state.filtered_items.len(), 2);
    assert_eq!(state.filtered_items[0].label, "Old App");
    assert_eq!(state.filtered_items[1].label, "Recent App");
}

#[test]
fn test_filter_items_with_query() {
    let items = vec![
        create_test_item("Cursor", Handler::App, "cursor"),
        create_test_item("Chrome", Handler::App, "chrome"),
        create_test_item("Calculator", Handler::App, "calculator"),
    ];
    let mut state = AppState::new(vec![], items);

    state.query = "cur".to_string();
    state.filter_items();

    assert!(!state.filtered_items.is_empty());
    let cursor_pos = state
        .filtered_items
        .iter()
        .position(|item| item.label == "Cursor");
    let calc_pos = state
        .filtered_items
        .iter()
        .position(|item| item.label == "Calculator");

    if let (Some(cursor), Some(calc)) = (cursor_pos, calc_pos) {
        assert!(
            cursor < calc,
            "Cursor should rank higher than Calculator for query 'cur'"
        );
    }
}

#[test]
fn test_fuzzy_matching_priority() {
    let items = vec![
        create_test_item("notes", Handler::Url, "notes"),
        create_test_item("Postgres", Handler::App, "postgres"),
        create_test_item("Note Taking", Handler::Note, "note-taking"),
    ];
    let mut state = AppState::new(vec![], items);

    state.query = "notes".to_string();
    state.filter_items();

    assert!(!state.filtered_items.is_empty());
    assert_eq!(state.filtered_items[0].label, "notes");
}

#[test]
fn test_filter_combines_all_sources() {
    let items = vec![create_test_item("App Test", Handler::App, "app")];
    let fs_items = vec![create_test_item(
        "file_test.txt",
        Handler::File,
        "/path/file_test.txt",
    )];
    let web_items = vec![create_web_item("web test")];

    let mut state = AppState::new(vec![], items);
    state.fs_items = fs_items;
    state.web_items = web_items;

    state.query = "test".to_string();
    state.filter_items();

    assert_eq!(state.filtered_items.len(), 3);

    let labels: Vec<&str> = state
        .filtered_items
        .iter()
        .map(|item| item.label.as_str())
        .collect();
    assert!(labels.contains(&"App Test"));
    assert!(labels.contains(&"file_test.txt"));
    assert!(labels.contains(&"web test"));
}

#[test]
fn test_local_vs_web_priority() {
    let items = vec![create_test_item("test app", Handler::App, "test")];
    let web_items = vec![create_web_item("test")];

    let mut state = AppState::new(vec![], items);
    state.web_items = web_items;

    state.query = "test".to_string();
    state.filter_items();

    assert_eq!(state.filtered_items.len(), 2);
    assert_eq!(state.filtered_items[0].label, "test app");
    assert_eq!(state.filtered_items[1].label, "test");
}

#[test]
fn test_get_selected_item() {
    let history = vec![
        create_test_item("First", Handler::App, "first"),
        create_test_item("Second", Handler::App, "second"),
    ];
    let mut state = AppState::new(history, vec![]);

    assert_eq!(state.filtered_items.len(), 2);
    let selected = state.get_selected_item();
    assert!(selected.is_some());

    state.select(Some(1));
    let selected = state.get_selected_item();
    assert!(selected.is_some());

    state.select(Some(10));
    assert!(state.get_selected_item().is_none());

    let mut empty_state = AppState::new(vec![], vec![]);
    empty_state.query = "nonexistent".to_string();
    empty_state.filter_items();

    assert!(empty_state.filtered_items.is_empty());
    assert!(empty_state.get_selected_item().is_none());
}

#[test]
fn test_error_handling() {
    let mut state = AppState::new(vec![], vec![]);

    assert!(state.error_message.is_none());

    state.set_error("Test error".to_string());
    assert_eq!(state.error_message, Some("Test error".to_string()));

    state.clear_error();
    assert!(state.error_message.is_none());
}

#[test]
fn test_filter_empty_items() {
    let mut state = AppState::new(vec![], vec![]);

    state.query = "anything".to_string();
    state.filter_items();

    assert!(state.filtered_items.is_empty());
}

#[test]
fn test_case_insensitive_matching() {
    let items = vec![
        create_test_item("CURSOR", Handler::App, "cursor"),
        create_test_item("cursor", Handler::App, "cursor2"),
        create_test_item("Cursor", Handler::App, "cursor3"),
    ];
    let mut state = AppState::new(vec![], items);

    state.query = "cursor".to_string();
    state.filter_items();

    assert_eq!(state.filtered_items.len(), 3);
}

#[test]
fn test_partial_matching() {
    let items = vec![
        create_test_item("Visual Studio Code", Handler::App, "vscode"),
        create_test_item("IntelliJ IDEA", Handler::App, "idea"),
        create_test_item("Sublime Text", Handler::App, "sublime"),
    ];
    let mut state = AppState::new(vec![], items);

    state.query = "code".to_string();
    state.filter_items();

    assert!(!state.filtered_items.is_empty());
    assert!(state
        .filtered_items
        .iter()
        .any(|item| item.label.contains("Code")));
}

#[test]
fn test_sort_stability() {
    let items = vec![
        create_test_item("App A", Handler::App, "a"),
        create_test_item("App B", Handler::App, "b"),
        create_test_item("App C", Handler::App, "c"),
    ];
    let mut state = AppState::new(vec![], items);

    state.query = "xyz".to_string();
    state.filter_items();

    let first_run = state.filtered_items.clone();

    state.filter_items();
    assert_eq!(state.filtered_items, first_run);
}

#[test]
fn test_mixed_handler_types() {
    let items = vec![
        create_test_item("test.txt", Handler::File, "/path/test.txt"),
        create_test_item("Test App", Handler::App, "test_app"),
        create_test_item("Test Note", Handler::Note, "test_note"),
        create_test_item("Test Folder", Handler::Folder, "/path/test_folder"),
    ];
    let mut state = AppState::new(vec![], items);

    state.query = "test".to_string();
    state.filter_items();

    assert_eq!(state.filtered_items.len(), 4);

    let handlers: Vec<Handler> = state
        .filtered_items
        .iter()
        .map(|item| item.handler)
        .collect();
    assert!(handlers.contains(&Handler::File));
    assert!(handlers.contains(&Handler::App));
    assert!(handlers.contains(&Handler::Note));
    assert!(handlers.contains(&Handler::Folder));
}

#[test]
fn selection_wraps_down_and_up() {
    let history = vec![
        create_test_item("One", Handler::App, "one"),
        create_test_item("Two", Handler::App, "two"),
        create_test_item("Three", Handler::App, "three"),
    ];
    let mut state = AppState::new(history, vec![]);
    assert_eq!(state.selected, Some(0));

    // Down from the last index wraps to the top.
    state.select(Some(2));
    state.select_down();
    assert_eq!(state.selected, Some(0));

    // Up from the top wraps to the last index.
    state.select_up();
    assert_eq!(state.selected, Some(2));

    state.select_down();
    assert_eq!(state.selected, Some(0));
    state.select_down();
    assert_eq!(state.selected, Some(1));
}

#[test]
fn selection_noop_on_empty_view() {
    let mut state = AppState::new(vec![], vec![]);
    assert_eq!(state.selected, None);
    state.select_down();
    assert_eq!(state.selected, None);
    state.select_up();
    assert_eq!(state.selected, None);
}

#[test]
fn short_query_clears_source_buffers() {
    let mut state = AppState::new(vec![], vec![]);
    state.fs_items = vec![create_test_item("left over", Handler::File, "/tmp/x")];
    state.web_items = vec![create_web_item("stale")];

    let dispatched = state.on_query_edit("a".to_string());

    assert!(dispatched.is_none());
    assert!(state.fs_items.is_empty());
    assert!(state.web_items.is_empty());
}

#[test]
fn stale_generation_batch_is_dropped() {
    let mut state = AppState::new(vec![], vec![]);

    let first = state.on_query_edit("qu".to_string()).unwrap();
    let second = state.on_query_edit("que".to_string()).unwrap();
    assert!(second.0 > first.0);

    // The batch of the superseded dispatch is ignored.
    let stale = vec![create_test_item("stale", Handler::File, "/tmp/stale")];
    assert!(!state.accept_fs_results(first.0, stale));
    assert!(state.fs_items.is_empty());

    // The batch of the newest dispatch is absorbed.
    let fresh = vec![create_test_item("quendel", Handler::File, "/tmp/quendel")];
    assert!(state.accept_fs_results(second.0, fresh));
    assert_eq!(state.fs_items.len(), 1);
    assert_eq!(state.filtered_items.len(), 1);
    assert_eq!(state.filtered_items[0].label, "quendel");
}

#[test]
fn activation_records_history_and_resets_query() {
    let items = vec![create_test_item("Cursor", Handler::App, "/apps/cursor")];
    let mut state = AppState::new(vec![], items);
    state.query = "cur".to_string();
    state.filter_items();
    assert_eq!(state.selected, Some(0));

    let effect = state.handle_event(Event::Activate { alt: false });
    match effect {
        Effect::Execute { item, alt } => {
            assert_eq!(item.label, "Cursor");
            assert!(!alt);
        }
        other => panic!("unexpected effect: {:?}", other),
    }
    assert!(state.query.is_empty());
    assert_eq!(state.history.len(), 1);
    assert!(state.history[0].ran_at.is_some());
    // The view shows the history now, and the cursor is back at the top.
    assert_eq!(state.filtered_items.len(), 1);
    assert_eq!(state.selected, Some(0));
}

#[test]
fn query_change_event_dispatches_with_fresh_generations() {
    let mut state = AppState::new(vec![], vec![]);
    let effect = state.handle_event(Event::QueryChanged("search me".to_string()));
    match effect {
        Effect::DispatchSearch {
            query,
            fs_generation,
            web_generation,
        } => {
            assert_eq!(query, "search me");
            assert_eq!(fs_generation, 1);
            assert_eq!(web_generation, 1);
        }
        other => panic!("unexpected effect: {:?}", other),
    }

    let effect = state.handle_event(Event::QueryChanged("s".to_string()));
    assert_eq!(effect, Effect::Idle);
    assert!(state.fs_items.is_empty());
    assert!(state.web_items.is_empty());
}

#[test]
fn create_note_event_requires_a_query() {
    let mut state = AppState::new(vec![], vec![]);
    state.query = "   ".to_string();
    let effect = state.handle_event(Event::CreateNote);
    assert_eq!(effect, Effect::Idle);
    assert!(state.error_message.is_some());

    state.query = "shopping list".to_string();
    let effect = state.handle_event(Event::CreateNote);
    assert_eq!(
        effect,
        Effect::CreateNote {
            name: "shopping list".to_string()
        }
    );
    assert!(state.error_message.is_none());
    assert!(state.query.is_empty());
}

#[test]
fn delete_event_only_removes_notes() {
    let history = vec![create_test_item("A file", Handler::File, "/f")];
    let mut state = AppState::new(history, vec![]);
    let effect = state.handle_event(Event::DeleteSelected);
    assert_eq!(effect, Effect::Idle);
    assert!(state.error_message.is_some());

    let history = vec![create_test_item("A note", Handler::Note, "note-1")];
    let mut state = AppState::new(history, vec![]);
    let effect = state.handle_event(Event::DeleteSelected);
    assert_eq!(
        effect,
        Effect::DeleteNote {
            id: "note-1".to_string()
        }
    );
    assert!(state.error_message.is_none());
}

#[test]
fn selection_clamps_into_a_shrunken_view() {
    let items = vec![
        create_test_item("alpha one", Handler::App, "a1"),
        create_test_item("alpha two", Handler::App, "a2"),
        create_test_item("beta", Handler::App, "b"),
    ];
    let mut state = AppState::new(vec![], items);
    state.query = "alpha".to_string();
    state.filter_items();
    assert_eq!(state.filtered_items.len(), 2);
    state.select(Some(1));

    // Narrow the view to one row; the cursor clamps to the last row.
    state.query = "alpha one".to_string();
    state.filter_items();
    assert_eq!(state.filtered_items.len(), 1);
    assert_eq!(state.selected, Some(0));
}

#[test]
fn score_ties_follow_the_kind_bonus_order() {
    // Identical label and value, so the fuzzy scores tie exactly; the
    // strictly decreasing kind order decides: Note before Bookmark, and a
    // Bookmark before an unclassified result.
    let mut note = CommandItem::new("Report", Handler::Note, "Report");
    note.kind = CommandType::Note;
    let mut bookmark = CommandItem::new("Report", Handler::Url, "Report");
    bookmark.kind = CommandType::Bookmark;
    let mut unknown = CommandItem::new("Report", Handler::File, "Report");
    unknown.kind = CommandType::Unknown;

    let mut state = AppState::new(vec![], vec![unknown, bookmark, note]);
    state.query = "rep".to_string();
    state.filter_items();

    assert_eq!(state.filtered_items.len(), 3);
    assert_eq!(state.filtered_items[0].kind, CommandType::Note);
    assert_eq!(state.filtered_items[1].kind, CommandType::Bookmark);
    assert_eq!(state.filtered_items[2].kind, CommandType::Unknown);
}
