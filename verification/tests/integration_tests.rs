use grinta::automation::shortcuts_from_lines;
use grinta::bookmarks::BookmarkNode;
use grinta::cli::{rank_stream, CommandOutput, SearchCommand};
use grinta::history::add_to_history;
use grinta::model::{CommandItem, CommandType, Handler};
use grinta::notes::{format_note_body, note_to_item, Note};
use grinta::state::AppState;

#[test]
fn test_handler_icon_consistency() {
    let handlers = vec![
        Handler::App,
        Handler::Note,
        Handler::Url,
        Handler::File,
        Handler::Folder,
        Handler::Automation,
    ];

    for handler in handlers {
        let icon = handler.to_icon();
        let string = handler.to_string();

        assert!(!icon.is_empty());
        assert!(!string.is_empty());

        let item = CommandItem::new("Test", handler, "test");
        assert_eq!(item.handler, handler);
        assert_eq!(item.icon, icon);
    }
}

#[test]
fn test_command_type_variants() {
    let types = vec![
        CommandType::App,
        CommandType::Bookmark,
        CommandType::Note,
        CommandType::WebSearch,
        CommandType::WebSuggestion,
    ];

    for cmd_type in types {
        assert_ne!(cmd_type, CommandType::default());
    }

    assert_eq!(CommandType::default(), CommandType::Unknown);

    assert_eq!(CommandType::Unknown, CommandType::default());
}

#[test]
fn history_view_shows_recorded_item() {
    // History with one executed item and an empty query shows that item.
    let mut history = vec![];
    let mut item = CommandItem::new("A", Handler::App, "/apps/a");
    item.kind = CommandType::App;
    add_to_history(&mut history, item);
    assert!(history[0].ran_at.is_some());

    let state = AppState::new(history, vec![]);
    assert_eq!(state.filtered_items.len(), 1);
    assert_eq!(state.filtered_items[0].label, "A");
}

#[test]
fn cursor_outranks_calculator() {
    let catalog = vec![
        CommandItem::new("Cursor", Handler::App, "cursor"),
        CommandItem::new("Calculator", Handler::App, "calculator"),
    ];
    let mut state = AppState::new(vec![], catalog);
    state.query = "cur".to_string();
    state.filter_items();

    let cursor = state
        .filtered_items
        .iter()
        .position(|i| i.label == "Cursor")
        .unwrap();
    let calculator = state
        .filtered_items
        .iter()
        .position(|i| i.label == "Calculator")
        .unwrap();
    assert!(cursor < calculator);
}

#[test]
fn format_note_body_wraps_title_and_body() {
    assert_eq!(format_note_body("Title", ""), "<div><h1>Title</h1></div>");
    assert_eq!(
        format_note_body("Title", "Body"),
        "<div><h1>Title</h1></div>\n<div>Body</div>"
    );
}

#[test]
fn note_items_carry_folder_and_id() {
    let note = Note {
        id: "note-77".to_string(),
        title: "Groceries".to_string(),
        folder: "Personal".to_string(),
        created_at: "2024-01-01".to_string(),
        updated_at: "2024-01-02".to_string(),
    };
    let item = note_to_item(&note);
    assert_eq!(item.label, "Groceries (Personal)");
    assert_eq!(item.handler, Handler::Note);
    assert_eq!(item.value, "note-77");
}

#[test]
fn shortcut_lines_become_app_ranked_items() {
    let lines = vec!["Resize Image".to_string(), "Start Timer".to_string()];
    let items = shortcuts_from_lines(&lines);
    assert_eq!(items.len(), 2);
    assert_eq!(items[0].label, "Resize Image");
    assert_eq!(items[0].value, "Resize Image");
    assert_eq!(items[0].handler, Handler::Automation);
    assert_eq!(items[0].kind, CommandType::App);
    assert_eq!(
        items[0].get_metadata("type"),
        Some(&"shortcut".to_string())
    );
}

#[test]
fn bookmark_tree_yields_url_nodes_only() {
    let leaf = BookmarkNode {
        name: Some("Rust".to_string()),
        node_type: Some("url".to_string()),
        url: Some("https://www.rust-lang.org".to_string()),
        children: vec![],
    };
    let folder = BookmarkNode {
        name: Some("Dev".to_string()),
        node_type: Some("folder".to_string()),
        url: None,
        children: vec![leaf],
    };
    let empty = BookmarkNode {
        name: None,
        node_type: None,
        url: None,
        children: vec![],
    };
    let items = grinta::bookmarks::extract_bookmarks(&folder, &empty, &empty);
    assert_eq!(items.len(), 1);
    assert_eq!(items[0].label, "Rust (Bookmark)");
    assert_eq!(items[0].handler, Handler::Url);
    assert_eq!(items[0].value, "https://www.rust-lang.org");
}

#[test]
fn stream_ranking_prefers_apps_and_drops_non_matches() {
    let mut app = CommandItem::new("payload", Handler::App, "/apps/payload");
    app.kind = CommandType::App;
    let mut suggestion = CommandItem::new("payload", Handler::Url, "https://d/?q=payload");
    suggestion.kind = CommandType::WebSuggestion;
    let mut unrelated = CommandItem::new("zzz", Handler::File, "/zzz");
    unrelated.kind = CommandType::Unknown;

    let ranked = rank_stream("payload", &vec![suggestion, unrelated, app]);
    assert_eq!(ranked.len(), 2);
    assert_eq!(ranked[0].kind, CommandType::App);
    assert_eq!(ranked[1].kind, CommandType::WebSuggestion);
}

#[test]
fn command_output_spells_out_the_handler() {
    let mut item = CommandItem::new("Calc", Handler::App, "/apps/calc");
    item.base64_icon = Some("AAAA".to_string());
    let out = CommandOutput::from_item(&item);
    assert_eq!(out.label, "Calc");
    assert_eq!(out.handler, "Application");
    assert_eq!(out.value, "/apps/calc");
    assert_eq!(out.base64_icon, Some("AAAA".to_string()));

    let command = SearchCommand::Search {
        query: "calc".to_string(),
    };
    match command {
        SearchCommand::Search { query } => assert_eq!(query, "calc"),
    }
}

#[test]
fn ranking_is_deterministic_across_recomputation() {
    let catalog = vec![
        CommandItem::new("alpha", Handler::App, "a"),
        CommandItem::new("beta", Handler::App, "b"),
        CommandItem::new("alpaca", Handler::App, "c"),
    ];
    let mut state = AppState::new(vec![], catalog);
    state.query = "al".to_string();
    state.filter_items();
    let first = state.filtered_items.clone();
    state.filter_items();
    assert_eq!(state.filtered_items, first);
}
