use grinta::model::{CommandType, Handler};
use grinta::web_search::{
    chat_url, create_suggestion_command, suggestions_from_phrases, web_search_url,
};

#[test]
fn test_create_suggestion_command() {
    let suggestion = "test query";
    let cmd = create_suggestion_command(suggestion);

    assert_eq!(cmd.label, "test query");
    assert_eq!(cmd.handler, Handler::Url);
    assert_eq!(cmd.value, "https://duckduckgo.com/?q=test query");
    assert_eq!(cmd.icon, "\u{1f50e}");
    assert_eq!(cmd.kind, CommandType::WebSuggestion);
}

#[test]
fn test_create_suggestion_command_special_characters() {
    let suggestion = "test & query";
    let cmd = create_suggestion_command(suggestion);

    assert_eq!(cmd.label, "test & query");
    assert_eq!(cmd.value, "https://duckduckgo.com/?q=test & query");
}

#[test]
fn test_search_web_url_encoding() {
    let query = "test query with spaces";

    let encoded = urlencoding::encode(query);
    let expected_url = format!("https://duckduckgo.com/?q={}", encoded);

    assert_eq!(
        expected_url,
        "https://duckduckgo.com/?q=test%20query%20with%20spaces"
    );
}

#[test]
fn test_open_chat_gpt_url_encoding() {
    let query = "test query with spaces";

    let encoded = urlencoding::encode(query);
    let expected_url = format!("https://chatgpt.com/?q={}", encoded);

    assert_eq!(
        expected_url,
        "https://chatgpt.com/?q=test%20query%20with%20spaces"
    );
}

#[test]
fn test_url_encoding_special_characters() {
    let special_chars = "test+query&with=special%chars";
    let encoded = urlencoding::encode(special_chars);

    assert!(encoded.contains("%"));
    assert!(!encoded.contains("&"));
    assert!(!encoded.contains("="));
}

#[test]
fn test_command_type_consistency() {
    let cmd = create_suggestion_command("test");
    assert_eq!(cmd.kind, CommandType::WebSuggestion);

    assert_ne!(cmd.kind, CommandType::App);
    assert_ne!(cmd.kind, CommandType::Note);
    assert_ne!(cmd.kind, CommandType::WebSearch);
}

#[test]
fn web_search_test_handler_consistency() {
    let cmd = create_suggestion_command("test");
    assert_eq!(cmd.handler, Handler::Url);
    assert_eq!(cmd.handler.to_string(), "Website");
    assert_eq!(cmd.handler.to_icon(), "\u{1f517}");

    assert_eq!(cmd.icon, "\u{1f50e}");
}

#[test]
fn test_empty_suggestion() {
    let cmd = create_suggestion_command("");
    assert_eq!(cmd.label, "");
    assert_eq!(cmd.value, "https://duckduckgo.com/?q=");
}

#[test]
fn test_long_suggestion() {
    let long_query = "a".repeat(1000);
    let cmd = create_suggestion_command(&long_query);

    assert_eq!(cmd.label.len(), 1000);
    assert!(cmd.value.contains(&long_query));
}

#[test]
fn test_unicode_suggestion() {
    let unicode_query = "test \u{1f50d} query with \u{e9}mojis and a\u{e7}c\u{e9}nts";
    let cmd = create_suggestion_command(unicode_query);

    assert_eq!(cmd.label, unicode_query);
    assert!(cmd.value.contains(unicode_query));
}

#[test]
fn test_url_construction() {
    let base_url = "https://duckduckgo.com/?q=";
    let query = "rust programming";
    let full_url = format!("{}{}", base_url, query);

    assert_eq!(full_url, "https://duckduckgo.com/?q=rust programming");

    let encoded_query = urlencoding::encode(query);
    let encoded_url = format!("{}{}", base_url, encoded_query);
    assert_eq!(encoded_url, "https://duckduckgo.com/?q=rust%20programming");
}

#[test]
fn library_urls_are_percent_encoded() {
    assert_eq!(
        web_search_url("rust programming"),
        "https://duckduckgo.com/?q=rust%20programming"
    );
    assert_eq!(
        chat_url("test query with spaces"),
        "https://chatgpt.com/?q=test%20query%20with%20spaces"
    );
}

#[test]
fn suggestion_batch_preserves_order() {
    let phrases = vec!["alpha".to_string(), "beta".to_string()];
    let items = suggestions_from_phrases(&phrases);
    assert_eq!(items.len(), 2);
    assert_eq!(items[0].label, "alpha");
    assert_eq!(items[1].label, "beta");
    assert_eq!(items[1].value, "https://duckduckgo.com/?q=beta");
}
