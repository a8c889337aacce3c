//! The batch search command: its arguments, the streamed output record, and
//! the streaming ranking over the collected source results.

use vstd::prelude::*;
use crate::model::{handler_name, CommandItem, ItemView};
use crate::ranking::{best_score, rank_sort, views_of, RankMode};
use crate::ranking;

verus! {

/// The command-line arguments: at most one search command.
#[derive(Debug)]
pub struct Cli {
    pub search_command: Option<SearchCommand>,
}

/// The batch commands the launcher accepts.
#[derive(Debug, Clone, PartialEq)]
pub enum SearchCommand {
    /// Search every source for the query and stream the ranked results.
    Search { query: String },
}

/// One streamed result record: the item's display fields, with the handler
/// spelled out as its display name.
#[derive(Debug, Clone, PartialEq)]
pub struct CommandOutput {
    pub label: String,
    pub handler: String,
    pub value: String,
    pub icon: String,
    pub base64_icon: Option<String>,
}

impl CommandOutput {
    /// The streamed record for an item.
    pub fn from_item(item: &CommandItem) -> (r: CommandOutput)
        ensures
            r.label@ == item@.label,
            r.handler@ == handler_name(item@.handler),
            r.value@ == item@.value,
            r.icon@ == item@.icon,
            match r.base64_icon {
                Some(b) => item@.base64_icon == Some(b@),
                None => (item@.base64_icon is None),
            },
    {
        CommandOutput {
            label: item.label.clone(),
            handler: item.handler.to_string().to_owned(),
            value: item.value.clone(),
            icon: item.icon.clone(),
            base64_icon: match &item.base64_icon {
                Some(b) => Some(b.clone()),
                None => None,
            },
        }
    }
}

/// An item enters the streamed output only on a positive fuzzy score.
pub open spec fn stream_matches(v: ItemView, q: Seq<char>) -> bool {
    best_score(v, q) > 0
}

/// Rank collected source results for the streamed output: positive-scoring
/// items only, ordered by combined score with the per-kind bonus.
pub fn rank_stream(query: &str, items: &Vec<CommandItem>) -> (r: Vec<CommandItem>)
    ensures
        views_of(r@) == rank_sort(
            RankMode::Stream,
            query@,
            views_of(items@).filter(|v: ItemView| stream_matches(v, query@)),
        ),
{
    let ghost all = views_of(items@);
    let ghost pred = |v: ItemView| stream_matches(v, query@);
    let mut kept: Vec<CommandItem> = Vec::new();
    let mut i: usize = 0;
    proof {
        assert(all.take(0) =~= Seq::<ItemView>::empty());
        assert(Seq::<ItemView>::empty().filter(pred) =~= Seq::<ItemView>::empty());
        assert(views_of(kept@) =~= all.take(0).filter(pred));
    }
    let n = items.len();
    while i < n
        invariant
            i <= n,
            n == items@.len(),
            all == views_of(items@),
            pred == (|v: ItemView| stream_matches(v, query@)),
            views_of(kept@) == all.take(i as int).filter(pred),
        decreases n - i,
    {
        let ghost prefix = all.take(i as int);
        proof {
            reveal(Seq::filter);
            assert(all.take(i + 1 as int).drop_last() =~= prefix);
            assert(all.take(i + 1 as int).last() == all[i as int]);
        }
        if ranking::best_score_of(&items[i], query) > 0 {
            let ghost prev = kept@;
            kept.push(items[i].clone());
            proof {
                ranking::lemma_views_push(prev, kept@.last());
                assert(views_of(kept@) =~= prefix.filter(pred).push(all[i as int]));
            }
        }
        i = i + 1;
    }
    proof {
        assert(all.take(n as int) =~= all);
    }
    ranking::sort_by_rank(RankMode::Stream, query, kept)
}

} // verus!
