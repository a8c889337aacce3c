//! The bookmark source: the browser's bookmark tree, and the result items
//! collected from its URL nodes.

use vstd::prelude::*;
use crate::model::{handler_icon, CommandItem, CommandType, Handler, ItemView};
use crate::ranking::views_of;

verus! {

/// One node of a browser's bookmark tree: a URL entry, a folder, or
/// anything else the file holds.
#[derive(Debug)]
pub struct BookmarkNode {
    pub name: Option<String>,
    pub node_type: Option<String>,
    pub url: Option<String>,
    pub children: Vec<BookmarkNode>,
}

/// The display label of a bookmark result.
pub open spec fn bookmark_label(name: Seq<char>) -> Seq<char> {
    name + " (Bookmark)"@
}

/// The item a URL node itself contributes: one bookmark entry when the node
/// has a name, a URL, and the URL node type; nothing otherwise.
pub open spec fn own_bookmark(n: BookmarkNode) -> Seq<ItemView> {
    match (n.name, n.url, n.node_type) {
        (Some(name), Some(url), Some(t)) => if t@ == "url"@ {
            seq![
                ItemView {
                    label: bookmark_label(name@),
                    handler: Handler::Url,
                    value: url@,
                    icon: handler_icon(Handler::Url),
                    ran_at: None,
                    base64_icon: None,
                    metadata: Seq::empty(),
                    kind: CommandType::Unknown,
                },
            ]
        } else {
            Seq::empty()
        },
        _ => Seq::empty(),
    }
}

/// The bookmarks under the first `k` children of a node, in order.
pub open spec fn bookmarks_of_prefix(n: BookmarkNode, k: int) -> Seq<ItemView>
    decreases n, k,
{
    if k <= 0 {
        Seq::empty()
    } else {
        bookmarks_of_prefix(n, k - 1) + (if k <= n.children@.len() {
            bookmarks_of(n.children@[k - 1])
        } else {
            Seq::empty()
        })
    }
}

/// Every bookmark in a node's subtree, depth-first, the node's own entry
/// first.
pub open spec fn bookmarks_of(n: BookmarkNode) -> Seq<ItemView>
    decreases n, n.children@.len() + 1,
{
    own_bookmark(n) + bookmarks_of_prefix(n, n.children@.len() as int)
}

/// Collect every bookmark of the subtree under `node` into `out`.
pub fn process_bookmark_node(node: &BookmarkNode, out: &mut Vec<CommandItem>)
    ensures
        views_of(final(out)@) == views_of(old(out)@) + bookmarks_of(*node),
    decreases *node,
{
    let ghost base = views_of(out@);
    let is_url_entry = match (&node.name, &node.url, &node.node_type) {
        (Some(_), Some(_), Some(t)) => *t == "url".to_owned(),
        _ => false,
    };
    if is_url_entry {
        let name = match &node.name {
            Some(n) => n.clone(),
            None => String::new(),
        };
        let url = match &node.url {
            Some(u) => u.clone(),
            None => String::new(),
        };
        let mut label = String::new();
        label.append(name.as_str());
        label.append(" (Bookmark)");
        let ghost prev = out@;
        out.push(CommandItem::new(label.as_str(), Handler::Url, url.as_str()));
        proof {
            crate::ranking::lemma_views_push(prev, out@.last());
            assert(views_of(out@) =~= base + own_bookmark(*node));
        }
    } else {
        proof {
            assert(views_of(out@) =~= base + own_bookmark(*node));
        }
    }
    let n = node.children.len();
    let mut i: usize = 0;
    while i < n
        invariant
            i <= n,
            n == node.children@.len(),
            views_of(out@) == base + own_bookmark(*node) + bookmarks_of_prefix(*node, i as int),
        decreases n - i,
    {
        process_bookmark_node(&node.children[i], out);
        proof {
            assert(views_of(out@) =~= base + own_bookmark(*node) + bookmarks_of_prefix(
                *node,
                i + 1 as int,
            ));
        }
        i = i + 1;
    }
}

/// Collect the bookmarks of the three roots of a browser's bookmark file:
/// the bookmark bar, the other bookmarks, and the synced bookmarks.
pub fn extract_bookmarks(
    bookmark_bar: &BookmarkNode,
    other: &BookmarkNode,
    synced: &BookmarkNode,
) -> (r: Vec<CommandItem>)
    ensures
        views_of(r@) == bookmarks_of(*bookmark_bar) + bookmarks_of(*other) + bookmarks_of(
            *synced,
        ),
{
    let mut out: Vec<CommandItem> = Vec::new();
    proof {
        assert(views_of(out@) =~= Seq::<ItemView>::empty());
    }
    process_bookmark_node(bookmark_bar, &mut out);
    process_bookmark_node(other, &mut out);
    process_bookmark_node(synced, &mut out);
    out
}

} // verus!
