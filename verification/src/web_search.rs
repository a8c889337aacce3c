//! The web source: suggestion items built from the suggestion service's
//! phrases, and the search and chat URLs built from a query.

use vstd::prelude::*;
use crate::model::{CommandItem, CommandType, Handler, ItemView};
use crate::ranking::views_of;

verus! {

/// What `urlencoding::encode` returns for a string: a pure function of the
/// string.
pub uninterp spec fn url_encoded(s: Seq<char>) -> Seq<char>;

/// Relies on `urlencoding::encode`: it percent-encodes every byte except
/// ASCII alphanumerics and `-`, `_`, `.`, `~`, from the string alone.
#[verifier::external_body]
pub fn url_encode(s: &str) -> (r: String)
    ensures
        r@ == url_encoded(s@),
{
    urlencoding::encode(s).into_owned()
}

/// The web search URL for a query.
pub open spec fn search_url_spec(q: Seq<char>) -> Seq<char> {
    "https://duckduckgo.com/?q="@ + url_encoded(q)
}

/// The chat service URL for a query.
pub open spec fn chat_url_spec(q: Seq<char>) -> Seq<char> {
    "https://chatgpt.com/?q="@ + url_encoded(q)
}

/// Build the web search URL for a query.
pub fn web_search_url(query: &str) -> (r: String)
    ensures
        r@ == search_url_spec(query@),
{
    let mut out = String::new();
    out.append("https://duckduckgo.com/?q=");
    let encoded = url_encode(query);
    out.append(encoded.as_str());
    out
}

/// Build the chat service URL for a query.
pub fn chat_url(query: &str) -> (r: String)
    ensures
        r@ == chat_url_spec(query@),
{
    let mut out = String::new();
    out.append("https://chatgpt.com/?q=");
    let encoded = url_encode(query);
    out.append(encoded.as_str());
    out
}

/// The item one suggestion phrase becomes: the phrase itself as the label
/// and, unencoded, as the search-URL payload, under the magnifier glyph.
pub open spec fn suggestion_view(s: Seq<char>) -> ItemView {
    ItemView {
        label: s,
        handler: Handler::Url,
        value: "https://duckduckgo.com/?q="@ + s,
        icon: "\u{1f50e}"@,
        ran_at: None,
        base64_icon: None,
        metadata: Seq::empty(),
        kind: CommandType::WebSuggestion,
    }
}

/// Build the item for one web suggestion phrase.
pub fn create_suggestion_command(suggestion: &str) -> (r: CommandItem)
    ensures
        r@ == suggestion_view(suggestion@),
{
    let mut value = String::new();
    value.append("https://duckduckgo.com/?q=");
    value.append(suggestion);
    let mut cmd = CommandItem::new(suggestion, Handler::Url, value.as_str());
    cmd.icon = "\u{1f50e}".to_owned();
    cmd.kind = CommandType::WebSuggestion;
    cmd
}

/// Build the items for a batch of suggestion phrases, in order.
pub fn suggestions_from_phrases(phrases: &Vec<String>) -> (r: Vec<CommandItem>)
    ensures
        views_of(r@) == phrases@.map_values(|p: String| suggestion_view(p@)),
{
    let ghost target = phrases@.map_values(|p: String| suggestion_view(p@));
    let mut out: Vec<CommandItem> = Vec::new();
    let mut i: usize = 0;
    proof {
        assert(views_of(out@) =~= target.take(0));
    }
    let n = phrases.len();
    while i < n
        invariant
            i <= n,
            n == phrases@.len(),
            target == phrases@.map_values(|p: String| suggestion_view(p@)),
            views_of(out@) == target.take(i as int),
        decreases n - i,
    {
        let ghost prev = out@;
        out.push(create_suggestion_command(phrases[i].as_str()));
        proof {
            crate::ranking::lemma_views_push(prev, out@.last());
            assert(views_of(out@) =~= target.take(i + 1 as int));
        }
        i = i + 1;
    }
    proof {
        assert(target.take(n as int) =~= target);
    }
    out
}

/// Whether the suggestion service should be queried at all: an empty query
/// asks for nothing and yields no suggestions.
pub fn should_fetch_suggestions(query: &str) -> (r: bool)
    ensures
        r == (query@.len() > 0),
{
    query.unicode_len() > 0
}

} // verus!
