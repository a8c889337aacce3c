//! The session state: the query, the per-source result buffers, the merged
//! ranked view, the selection cursor, and the generation counters that
//! cancel stale source queries.

use vstd::prelude::*;
use crate::history::{record_spec, stamped};
use crate::model::{CommandItem, ItemView};
use crate::ranking::{matches_query, rank_sort, views_of, RankMode};
use crate::ranking;
use crate::strutil::{lower_seq, trim_seq};
use crate::strutil;

verus! {

/// Queries shorter than this never reach the cancellable sources.
pub const MIN_QUERY_CHARS: usize = 2;

/// The mathematical model of a session.
pub struct StateView {
    pub query: Seq<char>,
    pub items: Seq<ItemView>,
    pub filtered: Seq<ItemView>,
    pub history: Seq<ItemView>,
    pub fs_items: Seq<ItemView>,
    pub web_items: Seq<ItemView>,
    pub error_message: Option<Seq<char>>,
    pub selected: Option<usize>,
    pub fs_generation: u64,
    pub web_generation: u64,
}

/// The interactive session: every buffer the ranking reads, the ranked view,
/// and the cursor into it.
#[derive(Debug)]
pub struct AppState {
    pub query: String,
    pub items: Vec<CommandItem>,
    pub filtered_items: Vec<CommandItem>,
    pub history: Vec<CommandItem>,
    pub fs_items: Vec<CommandItem>,
    pub web_items: Vec<CommandItem>,
    pub error_message: Option<String>,
    pub selected: Option<usize>,
    pub fs_generation: u64,
    pub web_generation: u64,
}

impl View for AppState {
    type V = StateView;

    open spec fn view(&self) -> StateView {
        StateView {
            query: self.query@,
            items: views_of(self.items@),
            filtered: views_of(self.filtered_items@),
            history: views_of(self.history@),
            fs_items: views_of(self.fs_items@),
            web_items: views_of(self.web_items@),
            error_message: match self.error_message {
                Some(ref e) => Some(e@),
                None => None,
            },
            selected: self.selected,
            fs_generation: self.fs_generation,
            web_generation: self.web_generation,
        }
    }
}

/// The ranked view of a session: with an effectively empty query the history
/// reversed (most recent first); otherwise the matching candidates of every
/// buffer, ranked.
pub open spec fn ranked_view(s: StateView) -> Seq<ItemView> {
    let q = trim_seq(s.query);
    if q.len() == 0 {
        s.history.reverse()
    } else {
        rank_sort(
            RankMode::Interactive,
            q,
            (s.items + s.fs_items + s.web_items).filter(|v: ItemView| matches_query(v, q)),
        )
    }
}

/// Recompute the ranked view and clamp the selection into it: an empty view
/// clears the cursor, a fresh non-empty view starts it at the top, and a
/// cursor past the end of a shrunken view moves to the last row.
pub open spec fn refilter(s: StateView) -> StateView {
    let f = ranked_view(s);
    StateView {
        filtered: f,
        selected: if f.len() == 0 {
            None
        } else {
            match s.selected {
                None => Some(0usize),
                Some(i) => if i < f.len() {
                    Some(i)
                } else {
                    Some((f.len() - 1) as usize)
                },
            }
        },
        ..s
    }
}

/// The cursor is valid for the view: absent exactly when the view is empty,
/// otherwise in range.
pub open spec fn selection_in_view(s: StateView) -> bool {
    match s.selected {
        None => s.filtered.len() == 0,
        Some(i) => i < s.filtered.len(),
    }
}

/// Recomputing the view always leaves a valid cursor, whatever the cursor
/// was before.
pub proof fn lemma_refilter_selection_in_view(s: StateView)
    ensures
        selection_in_view(refilter(s)),
{
}

/// The item under the cursor, when the cursor is in range.
pub open spec fn selected_view(s: StateView) -> Option<ItemView> {
    match s.selected {
        Some(i) => if i < s.filtered.len() {
            Some(s.filtered[i as int])
        } else {
            None
        },
        None => None,
    }
}

fn reversed_clone(v: &Vec<CommandItem>) -> (r: Vec<CommandItem>)
    ensures
        views_of(r@) == views_of(v@).reverse(),
{
    let n = v.len();
    let mut out: Vec<CommandItem> = Vec::new();
    let mut i: usize = 0;
    while i < n
        invariant
            i <= n,
            n == v@.len(),
            out@.len() == i,
            forall|j: int| 0 <= j < i ==> views_of(out@)[j] == v@[n - 1 - j]@,
        decreases n - i,
    {
        let ghost prev = out@;
        out.push(v[n - 1 - i].clone());
        proof {
            ranking::lemma_views_push(prev, out@.last());
        }
        i = i + 1;
    }
    assert(views_of(out@) =~= views_of(v@).reverse());
    out
}

fn push_matching(out: &mut Vec<CommandItem>, src: &Vec<CommandItem>, q: &str, ql: &String)
    requires
        ql@ == lower_seq(q@),
    ensures
        views_of(final(out)@) == views_of(old(out)@) + views_of(src@).filter(
            |v: ItemView| matches_query(v, q@),
        ),
{
    let ghost base = views_of(out@);
    let ghost all = views_of(src@);
    let ghost pred = |v: ItemView| matches_query(v, q@);
    proof {
        assert(all.take(0) =~= Seq::<ItemView>::empty());
        assert(Seq::<ItemView>::empty().filter(pred) =~= Seq::<ItemView>::empty());
        assert(views_of(out@) =~= base + all.take(0).filter(pred));
    }
    let n = src.len();
    let mut i: usize = 0;
    while i < n
        invariant
            i <= n,
            n == src@.len(),
            all == views_of(src@),
            ql@ == lower_seq(q@),
            pred == (|v: ItemView| matches_query(v, q@)),
            views_of(out@) == base + all.take(i as int).filter(pred),
        decreases n - i,
    {
        let ghost prefix = all.take(i as int);
        proof {
            reveal(Seq::filter);
            assert(all.take(i + 1 as int).drop_last() =~= prefix);
            assert(all.take(i + 1 as int).last() == all[i as int]);
        }
        if ranking::item_matches(&src[i], q, ql) {
            let ghost prev = out@;
            out.push(src[i].clone());
            proof {
                ranking::lemma_views_push(prev, out@.last());
                assert(views_of(out@) =~= base + prefix.filter(pred).push(all[i as int]));
            }
        }
        i = i + 1;
    }
    proof {
        assert(all.take(n as int) =~= all);
    }
}

impl AppState {
    /// A fresh session over the given history and static catalog: empty
    /// query, so the view shows the history, newest first.
    pub fn new(history: Vec<CommandItem>, items: Vec<CommandItem>) -> (r: AppState)
        ensures
            r@.query == Seq::<char>::empty(),
            r@.items == views_of(items@),
            r@.history == views_of(history@),
            r@.fs_items == Seq::<ItemView>::empty(),
            r@.web_items == Seq::<ItemView>::empty(),
            (r@.error_message is None),
            r@.filtered == views_of(history@).reverse(),
            r@.selected == (if views_of(history@).reverse().len() == 0 {
                None
            } else {
                Some(0usize)
            }),
            r@.fs_generation == 0 && r@.web_generation == 0,
    {
        let mut state = AppState {
            query: String::new(),
            items,
            filtered_items: Vec::new(),
            history,
            fs_items: Vec::new(),
            web_items: Vec::new(),
            error_message: None,
            selected: Some(0),
            fs_generation: 0,
            web_generation: 0,
        };
        proof {
            assert(views_of(state.fs_items@) =~= Seq::<ItemView>::empty());
            assert(views_of(state.web_items@) =~= Seq::<ItemView>::empty());
            assert(views_of(state.filtered_items@) =~= Seq::<ItemView>::empty());
            assert(trim_seq(Seq::<char>::empty()) =~= Seq::<char>::empty());
        }
        state.filter_items();
        state
    }

    /// Recompute the merged ranked view from the current query and buffers,
    /// and clamp the selection into it.
    pub fn filter_items(&mut self)
        ensures
            final(self)@ == refilter(old(self)@),
    {
        let q = strutil::trim(self.query.as_str());
        if q.as_str().unicode_len() == 0 {
            self.filtered_items = reversed_clone(&self.history);
        } else {
            let ql = strutil::to_lowercase(q.as_str());
            let mut merged: Vec<CommandItem> = Vec::new();
            push_matching(&mut merged, &self.items, q.as_str(), &ql);
            push_matching(&mut merged, &self.fs_items, q.as_str(), &ql);
            push_matching(&mut merged, &self.web_items, q.as_str(), &ql);
            proof {
                broadcast use vstd::prelude::Seq::filter_distributes_over_add;

                let qv = trim_seq(self@.query);
                let pred = |v: ItemView| matches_query(v, qv);
                assert(views_of(merged@) =~= (self@.items + self@.fs_items
                    + self@.web_items).filter(pred));
            }
            self.filtered_items = ranking::sort_by_rank(RankMode::Interactive, q.as_str(), merged);
        }
        let len = self.filtered_items.len();
        if len == 0 {
            self.selected = None;
        } else {
            match self.selected {
                None => {
                    self.selected = Some(0);
                },
                Some(i) => {
                    if i >= len {
                        self.selected = Some(len - 1);
                    }
                },
            }
        }
    }

    /// The item under the cursor, if the cursor is in range of the view.
    pub fn get_selected_item(&self) -> (r: Option<&CommandItem>)
        ensures
            match r {
                Some(it) => selected_view(self@) == Some(it@),
                None => (selected_view(self@) is None),
            },
    {
        match self.selected {
            Some(i) => {
                if i < self.filtered_items.len() {
                    Some(&self.filtered_items[i])
                } else {
                    None
                }
            },
            None => None,
        }
    }

    /// Move the cursor to the given index; out-of-range indexes simply leave
    /// nothing selected for `get_selected_item`.
    pub fn select(&mut self, sel: Option<usize>)
        ensures
            final(self)@ == (StateView { selected: sel, ..old(self)@ }),
    {
        self.selected = sel;
    }

    /// Move the cursor one row down, wrapping from the last row to the top.
    /// A no-op when the view is empty.
    pub fn select_down(&mut self)
        ensures
            final(self)@ == (StateView {
                selected: if old(self)@.filtered.len() == 0 {
                    old(self)@.selected
                } else {
                    match old(self)@.selected {
                        Some(i) => Some(
                            if i + 1 < old(self)@.filtered.len() {
                                (i + 1) as usize
                            } else {
                                0usize
                            },
                        ),
                        None => Some(0usize),
                    }
                },
                ..old(self)@
            }),
    {
        let len = self.filtered_items.len();
        if len > 0 {
            let next = match self.selected {
                Some(i) => {
                    if i < len - 1 {
                        i + 1
                    } else {
                        // The last row, and any cursor parked out of range,
                        // wraps back to the top.
                        0
                    }
                },
                None => 0,
            };
            self.selected = Some(next);
        }
    }

    /// Move the cursor one row up, wrapping from the top to the last row.
    /// A no-op when the view is empty.
    pub fn select_up(&mut self)
        ensures
            final(self)@ == (StateView {
                selected: if old(self)@.filtered.len() == 0 {
                    old(self)@.selected
                } else {
                    match old(self)@.selected {
                        Some(i) => Some(
                            if i == 0 {
                                (old(self)@.filtered.len() - 1) as usize
                            } else {
                                (i - 1) as usize
                            },
                        ),
                        None => Some(0usize),
                    }
                },
                ..old(self)@
            }),
    {
        let len = self.filtered_items.len();
        if len > 0 {
            let next = match self.selected {
                Some(i) => {
                    if i == 0 {
                        len - 1
                    } else {
                        i - 1
                    }
                },
                None => 0,
            };
            self.selected = Some(next);
        }
    }

    /// Surface a transient error message.
    pub fn set_error(&mut self, error: String)
        ensures
            final(self)@ == (StateView { error_message: Some(error@), ..old(self)@ }),
    {
        self.error_message = Some(error);
    }

    /// Clear the transient error message.
    pub fn clear_error(&mut self)
        ensures
            final(self)@ == (StateView { error_message: None, ..old(self)@ }),
    {
        self.error_message = None;
    }
}

/// The session after an edit set the query to `q`. A query under the minimum
/// length clears the cancellable buffers at once and dispatches nothing; a
/// long enough query advances both generation counters, cancelling whatever
/// was in flight.
pub open spec fn spec_edit(s: StateView, q: Seq<char>) -> StateView {
    if q.len() < MIN_QUERY_CHARS {
        refilter(
            StateView {
                query: q,
                fs_items: Seq::empty(),
                web_items: Seq::empty(),
                ..s
            },
        )
    } else {
        let s1 = refilter(StateView { query: q, ..s });
        StateView {
            fs_generation: (s.fs_generation + 1) as u64,
            web_generation: (s.web_generation + 1) as u64,
            ..s1
        }
    }
}

/// The session after a filesystem batch tagged with generation `g` arrives:
/// absorbed only while `g` is still the live generation, silently dropped
/// otherwise.
pub open spec fn spec_accept_fs(s: StateView, g: u64, batch: Seq<ItemView>) -> StateView {
    if g == s.fs_generation {
        refilter(StateView { fs_items: batch, ..s })
    } else {
        s
    }
}

/// The session after a web-suggestion batch tagged with generation `g`
/// arrives.
pub open spec fn spec_accept_web(s: StateView, g: u64, batch: Seq<ItemView>) -> StateView {
    if g == s.web_generation {
        refilter(StateView { web_items: batch, ..s })
    } else {
        s
    }
}

impl AppState {
    /// Apply an edited query. Returns the generations to tag the dispatched
    /// source queries with, or `None` when the query was too short to query
    /// the sources at all (their buffers are cleared immediately).
    pub fn on_query_edit(&mut self, new_query: String) -> (dispatched: Option<(u64, u64)>)
        requires
            old(self)@.fs_generation < u64::MAX,
            old(self)@.web_generation < u64::MAX,
        ensures
            final(self)@ == spec_edit(old(self)@, new_query@),
            dispatched == (if new_query@.len() < MIN_QUERY_CHARS {
                Option::<(u64, u64)>::None
            } else {
                Some(
                    (
                        (old(self)@.fs_generation + 1) as u64,
                        (old(self)@.web_generation + 1) as u64,
                    ),
                )
            }),
    {
        let long_enough = new_query.as_str().unicode_len() >= MIN_QUERY_CHARS;
        self.query = new_query;
        if !long_enough {
            self.fs_items = Vec::new();
            self.web_items = Vec::new();
            proof {
                assert(views_of(self.fs_items@) =~= Seq::<ItemView>::empty());
                assert(views_of(self.web_items@) =~= Seq::<ItemView>::empty());
            }
            self.filter_items();
            None
        } else {
            self.filter_items();
            self.fs_generation = self.fs_generation + 1;
            self.web_generation = self.web_generation + 1;
            Some((self.fs_generation, self.web_generation))
        }
    }

    /// Absorb a filesystem result batch if its generation is still live;
    /// drop it silently otherwise.
    pub fn accept_fs_results(&mut self, generation: u64, batch: Vec<CommandItem>) -> (accepted:
        bool)
        ensures
            final(self)@ == spec_accept_fs(old(self)@, generation, views_of(batch@)),
            accepted == (generation == old(self)@.fs_generation),
    {
        if generation == self.fs_generation {
            self.fs_items = batch;
            self.filter_items();
            true
        } else {
            false
        }
    }

    /// Absorb a web-suggestion result batch if its generation is still live;
    /// drop it silently otherwise.
    pub fn accept_web_results(&mut self, generation: u64, batch: Vec<CommandItem>) -> (accepted:
        bool)
        ensures
            final(self)@ == spec_accept_web(old(self)@, generation, views_of(batch@)),
            accepted == (generation == old(self)@.web_generation),
    {
        if generation == self.web_generation {
            self.web_items = batch;
            self.filter_items();
            true
        } else {
            false
        }
    }
}

/// The session after a sequence of query edits, oldest first.
pub open spec fn edit_all(s: StateView, qs: Seq<Seq<char>>) -> StateView
    decreases qs.len(),
{
    if qs.len() == 0 {
        s
    } else {
        edit_all(spec_edit(s, qs[0]), qs.skip(1))
    }
}

proof fn lemma_edit_all_generation(s: StateView, qs: Seq<Seq<char>>)
    requires
        forall|j: int| 0 <= j < qs.len() ==> #[trigger] qs[j].len() >= MIN_QUERY_CHARS,
        s.fs_generation + qs.len() <= u64::MAX,
    ensures
        edit_all(s, qs).fs_generation == s.fs_generation + qs.len(),
    decreases qs.len(),
{
    if qs.len() > 0 {
        assert(qs[0].len() >= MIN_QUERY_CHARS);
        lemma_edit_all_generation(spec_edit(s, qs[0]), qs.skip(1));
    }
}

proof fn lemma_edit_all_web_generation(s: StateView, qs: Seq<Seq<char>>)
    requires
        forall|j: int| 0 <= j < qs.len() ==> #[trigger] qs[j].len() >= MIN_QUERY_CHARS,
        s.web_generation + qs.len() <= u64::MAX,
    ensures
        edit_all(s, qs).web_generation == s.web_generation + qs.len(),
    decreases qs.len(),
{
    if qs.len() > 0 {
        assert(qs[0].len() >= MIN_QUERY_CHARS);
        lemma_edit_all_web_generation(spec_edit(s, qs[0]), qs.skip(1));
    }
}

/// Generation monotonicity for the filesystem source: after a run of rapid
/// edits, a batch captured at any dispatch but the newest carries a stale
/// generation and is dropped; only a batch tagged with the newest generation
/// is absorbed.
pub proof fn lemma_stale_batches_rejected(
    s: StateView,
    qs: Seq<Seq<char>>,
    i: int,
    batch: Seq<ItemView>,
)
    requires
        forall|j: int| 0 <= j < qs.len() ==> #[trigger] qs[j].len() >= MIN_QUERY_CHARS,
        s.fs_generation + qs.len() <= u64::MAX,
        0 <= i < qs.len() - 1,
    ensures
        spec_accept_fs(edit_all(s, qs), edit_all(s, qs.take(i + 1)).fs_generation, batch)
            == edit_all(s, qs),
        spec_accept_fs(edit_all(s, qs), edit_all(s, qs).fs_generation, batch).fs_items == batch,
{
    let live = edit_all(s, qs);
    lemma_edit_all_generation(s, qs);
    assert(qs.take(i + 1).len() == i + 1);
    assert forall|j: int| 0 <= j < qs.take(i + 1).len() implies #[trigger] qs.take(i + 1)[j].len()
        >= MIN_QUERY_CHARS by {
        assert(qs.take(i + 1)[j] == qs[j]);
    }
    lemma_edit_all_generation(s, qs.take(i + 1));
}

/// An input event of the interactive session, already decoded from the
/// terminal by the embedding program.
#[derive(Debug, Clone, PartialEq)]
pub enum Event {
    /// Leave the session.
    Quit,
    /// Dismiss the error bar.
    DismissError,
    /// Create a note from the current query text.
    CreateNote,
    /// Delete the selected item, which must be a note.
    DeleteSelected,
    /// Hand the query to the chat service and leave.
    OpenChat,
    /// Activate the selected item; `alt` asks to reveal files and folders
    /// instead of opening them.
    Activate { alt: bool },
    /// Move the selection down, wrapping.
    Down,
    /// Move the selection up, wrapping.
    Up,
    /// The query text changed to the given string.
    QueryChanged(String),
}

/// The outside work a handled event asks the embedding program to do. The
/// session state is already updated; the program performs the action and, for
/// `Execute`, persists the updated history.
#[derive(Debug, Clone, PartialEq)]
pub enum Effect {
    /// Nothing to do outside the session.
    Idle,
    /// Leave the session.
    Exit,
    /// Create a note with this name, then refresh the catalog.
    CreateNote { name: String },
    /// Delete the note with this identifier, then refresh the catalog.
    DeleteNote { id: String },
    /// Open the chat service with this query, then leave the session.
    OpenChat { query: String },
    /// Execute this item; the session history already records it and should
    /// be persisted.
    Execute { item: CommandItem, alt: bool },
    /// Run a plain web search for this query.
    RunWebSearch { query: String },
    /// After the debounce delays, query the filesystem and web-suggestion
    /// sources for this query, tagging the batches with these generations.
    DispatchSearch { query: String, fs_generation: u64, web_generation: u64 },
}

/// The session after an item was activated: the query resets, the view
/// becomes the history view, and the cursor returns to the top.
pub open spec fn after_activation(s: StateView) -> StateView {
    let s1 = refilter(StateView { query: Seq::empty(), ..s });
    StateView {
        selected: if s1.filtered.len() == 0 {
            None
        } else {
            Some(0usize)
        },
        ..s1
    }
}

impl AppState {
    /// Step the session by one input event and say what outside work it
    /// asks for. No event ever fails or panics; stale and out-of-range
    /// selections act as no selection.
    pub fn handle_event(&mut self, event: Event) -> (eff: Effect)
        requires
            (event matches Event::QueryChanged(_)) ==> old(self)@.fs_generation < u64::MAX
                && old(self)@.web_generation < u64::MAX,
        ensures
            match event {
                Event::Quit => final(self)@ == old(self)@ && eff == Effect::Exit,
                Event::DismissError => final(self)@ == (StateView {
                    error_message: None,
                    ..old(self)@
                }) && eff == Effect::Idle,
                Event::CreateNote => if trim_seq(old(self)@.query).len() == 0 {
                    &&& final(self)@ == (StateView {
                        error_message: final(self)@.error_message,
                        ..old(self)@
                    })
                    &&& (final(self)@.error_message is Some)
                    &&& eff == Effect::Idle
                } else {
                    &&& final(self)@ == refilter(
                        StateView { query: Seq::empty(), error_message: None, ..old(self)@ },
                    )
                    &&& (eff matches Effect::CreateNote { name } && name@ == old(self)@.query)
                },
                Event::DeleteSelected => {
                    &&& final(self)@ == (StateView {
                        error_message: final(self)@.error_message,
                        ..old(self)@
                    })
                    &&& match selected_view(old(self)@) {
                        Some(v) => if v.handler == crate::model::Handler::Note {
                            &&& (final(self)@.error_message is None)
                            &&& (eff matches Effect::DeleteNote { id } && id@ == v.value)
                        } else {
                            (final(self)@.error_message is Some) && eff == Effect::Idle
                        },
                        None => (final(self)@.error_message is Some) && eff == Effect::Idle,
                    }
                },
                Event::OpenChat => final(self)@ == old(self)@ && (eff matches Effect::OpenChat {
                    query,
                } && query@ == old(self)@.query),
                Event::Activate { alt } => match selected_view(old(self)@) {
                    Some(v) => {
                        &&& exists|t: i64|
                            final(self)@ == after_activation(
                                StateView {
                                    history: record_spec(old(self)@.history, #[trigger] stamped(
                                        v,
                                        t,
                                    )),
                                    ..old(self)@
                                },
                            )
                        &&& (eff matches Effect::Execute { item, alt: a } && item@ == v && a
                            == alt)
                    },
                    None => if old(self)@.query.len() > 0 {
                        &&& final(self)@ == after_activation(old(self)@)
                        &&& (eff matches Effect::RunWebSearch { query } && query@
                            == old(self)@.query)
                    } else {
                        final(self)@ == old(self)@ && eff == Effect::Idle
                    },
                },
                Event::Down => final(self)@ == (StateView {
                    selected: if old(self)@.filtered.len() == 0 {
                        old(self)@.selected
                    } else {
                        match old(self)@.selected {
                            Some(i) => Some(
                                if i + 1 < old(self)@.filtered.len() {
                                    (i + 1) as usize
                                } else {
                                    0usize
                                },
                            ),
                            None => Some(0usize),
                        }
                    },
                    ..old(self)@
                }) && eff == Effect::Idle,
                Event::Up => final(self)@ == (StateView {
                    selected: if old(self)@.filtered.len() == 0 {
                        old(self)@.selected
                    } else {
                        match old(self)@.selected {
                            Some(i) => Some(
                                if i == 0 {
                                    (old(self)@.filtered.len() - 1) as usize
                                } else {
                                    (i - 1) as usize
                                },
                            ),
                            None => Some(0usize),
                        }
                    },
                    ..old(self)@
                }) && eff == Effect::Idle,
                Event::QueryChanged(q) => {
                    &&& final(self)@ == spec_edit(
                        StateView { error_message: None, ..old(self)@ },
                        q@,
                    )
                    &&& if q@.len() < MIN_QUERY_CHARS {
                        eff == Effect::Idle
                    } else {
                        (eff matches Effect::DispatchSearch {
                            query,
                            fs_generation,
                            web_generation,
                        } && query@ == q@ && fs_generation == (old(self)@.fs_generation + 1) as u64
                            && web_generation == (old(self)@.web_generation + 1) as u64)
                    }
                },
            },
    {
        match event {
            Event::Quit => Effect::Exit,
            Event::DismissError => {
                self.clear_error();
                Effect::Idle
            },
            Event::CreateNote => {
                let name = self.query.clone();
                let trimmed = strutil::trim(name.as_str());
                if trimmed.as_str().unicode_len() == 0 {
                    self.set_error("Cannot create note with empty query".to_owned());
                    Effect::Idle
                } else {
                    self.clear_error();
                    self.query = String::new();
                    self.filter_items();
                    Effect::CreateNote { name }
                }
            },
            Event::DeleteSelected => {
                let selected = match self.get_selected_item() {
                    Some(item) => Some(item.clone()),
                    None => None,
                };
                match selected {
                    Some(item) => {
                        if item.handler == crate::model::Handler::Note {
                            self.clear_error();
                            Effect::DeleteNote { id: item.value }
                        } else {
                            self.set_error("Can only delete notes with Ctrl+D".to_owned());
                            Effect::Idle
                        }
                    },
                    None => {
                        self.set_error("No item selected to delete".to_owned());
                        Effect::Idle
                    },
                }
            },
            Event::OpenChat => Effect::OpenChat { query: self.query.clone() },
            Event::Activate { alt } => {
                let selected = match self.get_selected_item() {
                    Some(item) => Some(item.clone()),
                    None => None,
                };
                match selected {
                    Some(item) => {
                        crate::history::add_to_history(&mut self.history, item.clone());
                        self.query = String::new();
                        self.filter_items();
                        if self.filtered_items.len() > 0 {
                            self.selected = Some(0);
                        }
                        Effect::Execute { item, alt }
                    },
                    None => {
                        if self.query.as_str().unicode_len() > 0 {
                            let query = self.query.clone();
                            self.query = String::new();
                            self.filter_items();
                            if self.filtered_items.len() > 0 {
                                self.selected = Some(0);
                            }
                            Effect::RunWebSearch { query }
                        } else {
                            Effect::Idle
                        }
                    },
                }
            },
            Event::Down => {
                self.select_down();
                Effect::Idle
            },
            Event::Up => {
                self.select_up();
                Effect::Idle
            },
            Event::QueryChanged(q) => {
                self.clear_error();
                let query = q.clone();
                match self.on_query_edit(q) {
                    Some((fs_generation, web_generation)) => Effect::DispatchSearch {
                        query,
                        fs_generation,
                        web_generation,
                    },
                    None => Effect::Idle,
                }
            },
        }
    }
}

/// Generation monotonicity for the web-suggestion source: after a run of
/// rapid edits, a batch captured at any dispatch but the newest carries a
/// stale generation and is dropped; only a batch tagged with the newest
/// generation is absorbed.
pub proof fn lemma_stale_web_batches_rejected(
    s: StateView,
    qs: Seq<Seq<char>>,
    i: int,
    batch: Seq<ItemView>,
)
    requires
        forall|j: int| 0 <= j < qs.len() ==> #[trigger] qs[j].len() >= MIN_QUERY_CHARS,
        s.web_generation + qs.len() <= u64::MAX,
        0 <= i < qs.len() - 1,
    ensures
        spec_accept_web(edit_all(s, qs), edit_all(s, qs.take(i + 1)).web_generation, batch)
            == edit_all(s, qs),
        spec_accept_web(edit_all(s, qs), edit_all(s, qs).web_generation, batch).web_items == batch,
{
    let live = edit_all(s, qs);
    lemma_edit_all_web_generation(s, qs);
    assert(qs.take(i + 1).len() == i + 1);
    assert forall|j: int| 0 <= j < qs.take(i + 1).len() implies #[trigger] qs.take(i + 1)[j].len()
        >= MIN_QUERY_CHARS by {
        assert(qs.take(i + 1)[j] == qs[j]);
    }
    lemma_edit_all_web_generation(s, qs.take(i + 1));
}

/// Ranking determinism: the ranked view is a function of the query and the
/// buffers alone, so recomputing it on unchanged inputs gives an identical
/// ordered result.
pub proof fn lemma_ranking_deterministic(a: StateView, b: StateView)
    requires
        a.query == b.query,
        a.items == b.items,
        a.fs_items == b.fs_items,
        a.web_items == b.web_items,
        a.history == b.history,
    ensures
        ranked_view(a) == ranked_view(b),
{
}

} // verus!
