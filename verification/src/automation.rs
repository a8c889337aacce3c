//! The automation source: result items built from the shortcut names the
//! platform's listing reports.

use vstd::prelude::*;
use crate::model::{handler_icon, CommandItem, CommandType, Handler, ItemView};
use crate::ranking::views_of;

verus! {

/// The item one listed shortcut name becomes: the name is both label and
/// payload, tagged as a shortcut and ranked like an application.
pub open spec fn shortcut_view(line: Seq<char>) -> ItemView {
    ItemView {
        label: line,
        handler: Handler::Automation,
        value: line,
        icon: handler_icon(Handler::Automation),
        ran_at: None,
        base64_icon: None,
        metadata: seq![("type"@, "shortcut"@)],
        kind: CommandType::App,
    }
}

/// Build the item for one shortcut name.
pub fn shortcut_from_line(line: &str) -> (r: CommandItem)
    ensures
        r@ == shortcut_view(line@),
{
    let mut cmd = CommandItem::new(line, Handler::Automation, line);
    cmd.set_metadata("type".to_owned(), "shortcut".to_owned());
    cmd.kind = CommandType::App;
    proof {
        assert(cmd@.metadata =~= seq![("type"@, "shortcut"@)]);
    }
    cmd
}

/// Build the items for the listed shortcut names, in order.
pub fn shortcuts_from_lines(lines: &Vec<String>) -> (r: Vec<CommandItem>)
    ensures
        views_of(r@) == lines@.map_values(|l: String| shortcut_view(l@)),
{
    let ghost target = lines@.map_values(|l: String| shortcut_view(l@));
    let mut out: Vec<CommandItem> = Vec::new();
    let mut i: usize = 0;
    proof {
        assert(views_of(out@) =~= target.take(0));
    }
    let n = lines.len();
    while i < n
        invariant
            i <= n,
            n == lines@.len(),
            target == lines@.map_values(|l: String| shortcut_view(l@)),
            views_of(out@) == target.take(i as int),
        decreases n - i,
    {
        let ghost prev = out@;
        out.push(shortcut_from_line(lines[i].as_str()));
        proof {
            crate::ranking::lemma_views_push(prev, out@.last());
            assert(views_of(out@) =~= target.take(i + 1 as int));
        }
        i = i + 1;
    }
    proof {
        assert(target.take(n as int) =~= target);
    }
    out
}

} // verus!
