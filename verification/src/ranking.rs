//! The ranking engine: fuzzy scores, the ranking order, and a sort that is a
//! pure function of the query and the candidate items.

use vstd::prelude::*;
use vstd::multiset::Multiset;
use crate::model::{CommandItem, CommandType, ItemView};
use crate::strutil::{contains_seq, lex_le, lower_seq};
use crate::strutil;

verus! {

/// What `fuzzy_matcher`'s default skim matcher returns for a choice string
/// and a pattern: a pure function of the two strings.
pub uninterp spec fn fuzzy_match_of(choice: Seq<char>, pattern: Seq<char>) -> Option<i64>;

/// Relies on `fuzzy_matcher::skim::SkimMatcherV2` under its default
/// configuration: `fuzzy_match` computes a score from the two strings alone,
/// so two calls on equal strings return equal results.
#[verifier::external_body]
fn fuzzy_match(choice: &str, pattern: &str) -> (r: Option<i64>)
    ensures
        r == fuzzy_match_of(choice@, pattern@),
{
    let matcher = fuzzy_matcher::skim::SkimMatcherV2::default();
    fuzzy_matcher::FuzzyMatcher::fuzzy_match(&matcher, choice, pattern).map(|s| s as i64)
}

/// The fuzzy score of a text against a query; no match counts as zero.
pub open spec fn fuzzy_score(text: Seq<char>, q: Seq<char>) -> int {
    match fuzzy_match_of(text, q) {
        Some(s) => s as int,
        None => 0,
    }
}

/// The score of an item: the better of its label's and its value's score.
pub open spec fn best_score(v: ItemView, q: Seq<char>) -> int {
    let l = fuzzy_score(v.label, q);
    let w = fuzzy_score(v.value, q);
    if l >= w {
        l
    } else {
        w
    }
}

/// An item stays in the interactive view when its label or value contains
/// the query (ASCII case-insensitively) or fuzzy-matches it positively.
pub open spec fn matches_query(v: ItemView, q: Seq<char>) -> bool {
    ||| contains_seq(lower_seq(v.label), lower_seq(q))
    ||| contains_seq(lower_seq(v.value), lower_seq(q))
    ||| fuzzy_score(v.label, q) > 0
    ||| fuzzy_score(v.value, q) > 0
}

/// The fixed bonus each kind carries, strictly decreasing from applications
/// down to web suggestions; the streaming ranking folds it into the score,
/// the interactive ranking breaks score ties by it.
pub open spec fn kind_bonus(k: CommandType) -> int {
    match k {
        CommandType::App => 200,
        CommandType::Note => 150,
        CommandType::Bookmark => 100,
        CommandType::Unknown => 50,
        CommandType::WebSearch => 25,
        CommandType::WebSuggestion => 0,
    }
}

/// The per-kind bonuses fall strictly from applications to notes to
/// bookmarks to unclassified results to web searches to web suggestions.
pub proof fn lemma_kind_bonus_strictly_decreasing()
    ensures
        kind_bonus(CommandType::App) > kind_bonus(CommandType::Note),
        kind_bonus(CommandType::Note) > kind_bonus(CommandType::Bookmark),
        kind_bonus(CommandType::Bookmark) > kind_bonus(CommandType::Unknown),
        kind_bonus(CommandType::Unknown) > kind_bonus(CommandType::WebSearch),
        kind_bonus(CommandType::WebSearch) > kind_bonus(CommandType::WebSuggestion),
{
}

/// Which of the two ranking heuristics orders the view: the interactive
/// session breaks score ties by the kind-bonus order, the streaming search
/// folds the bonus into the score itself.
#[derive(Clone, Copy, Debug, PartialEq, Eq, Structural)]
pub enum RankMode {
    Interactive,
    Stream,
}

/// The streaming combined score of an item.
pub open spec fn combined_score(v: ItemView, q: Seq<char>) -> int {
    best_score(v, q) + kind_bonus(v.kind)
}

/// `a` may come no later than `b`. Interactive: higher fuzzy score first,
/// then the kind-bonus order, then ASCII case-insensitive label order.
/// Streaming: higher combined score first, then ASCII case-insensitive
/// label order.
pub open spec fn rank_le(mode: RankMode, q: Seq<char>, a: ItemView, b: ItemView) -> bool {
    match mode {
        RankMode::Interactive => {
            let fa = best_score(a, q);
            let fb = best_score(b, q);
            if fa != fb {
                fa > fb
            } else if kind_bonus(a.kind) != kind_bonus(b.kind) {
                kind_bonus(a.kind) > kind_bonus(b.kind)
            } else {
                lex_le(lower_seq(a.label), lower_seq(b.label))
            }
        },
        RankMode::Stream => {
            let fa = combined_score(a, q);
            let fb = combined_score(b, q);
            if fa != fb {
                fa > fb
            } else {
                lex_le(lower_seq(a.label), lower_seq(b.label))
            }
        },
    }
}

/// The ranking order is total.
pub proof fn lemma_rank_le_total(mode: RankMode, q: Seq<char>, a: ItemView, b: ItemView)
    ensures
        rank_le(mode, q, a, b) || rank_le(mode, q, b, a),
{
    strutil::lemma_lex_le_total(lower_seq(a.label), lower_seq(b.label));
}

/// The ranking order is transitive.
pub proof fn lemma_rank_le_trans(mode: RankMode, q: Seq<char>, a: ItemView, b: ItemView, c: ItemView)
    requires
        rank_le(mode, q, a, b),
        rank_le(mode, q, b, c),
    ensures
        rank_le(mode, q, a, c),
{
    if lex_le(lower_seq(a.label), lower_seq(b.label)) && lex_le(
        lower_seq(b.label),
        lower_seq(c.label),
    ) {
        strutil::lemma_lex_le_trans(lower_seq(a.label), lower_seq(b.label), lower_seq(c.label));
    }
}

/// Insert `v` into the ranked sequence `s`, after every element it does not
/// outrank.
pub open spec fn insert_ranked(mode: RankMode, q: Seq<char>, s: Seq<ItemView>, v: ItemView) -> Seq<ItemView>
    decreases s.len(),
{
    if s.len() == 0 {
        seq![v]
    } else if rank_le(mode, q, s.last(), v) {
        s.push(v)
    } else {
        insert_ranked(mode, q, s.drop_last(), v).push(s.last())
    }
}

/// The ranked ordering of `s` under the query `q`: a stable insertion sort.
pub open spec fn rank_sort(mode: RankMode, q: Seq<char>, s: Seq<ItemView>) -> Seq<ItemView>
    decreases s.len(),
{
    if s.len() == 0 {
        Seq::empty()
    } else {
        insert_ranked(mode, q, rank_sort(mode, q, s.drop_last()), s.last())
    }
}

/// A sequence is ranked: every element is ranked no later than those after it.
pub open spec fn sorted_by_rank(mode: RankMode, q: Seq<char>, s: Seq<ItemView>) -> bool {
    forall|i: int, j: int| 0 <= i < j < s.len() ==> rank_le(mode, q, s[i], s[j])
}

proof fn lemma_insert_ranked_len(mode: RankMode, q: Seq<char>, s: Seq<ItemView>, v: ItemView)
    ensures
        insert_ranked(mode, q, s, v).len() == s.len() + 1,
    decreases s.len(),
{
    if s.len() > 0 && !rank_le(mode, q, s.last(), v) {
        lemma_insert_ranked_len(mode, q, s.drop_last(), v);
    }
}

/// Inserting into a ranked sequence keeps it ranked.
proof fn lemma_insert_ranked_sorted(mode: RankMode, q: Seq<char>, s: Seq<ItemView>, v: ItemView)
    requires
        sorted_by_rank(mode, q, s),
    ensures
        sorted_by_rank(mode, q, insert_ranked(mode, q, s, v)),
    decreases s.len(),
{
    let out = insert_ranked(mode, q, s, v);
    lemma_insert_ranked_len(mode, q, s, v);
    if s.len() == 0 {
    } else if rank_le(mode, q, s.last(), v) {
        assert forall|i: int, j: int| 0 <= i < j < out.len() implies rank_le(
            mode,
            q,
            out[i],
            out[j],
        ) by {
            if j == out.len() - 1 {
                if i < s.len() - 1 {
                    lemma_rank_le_trans(mode, q, s[i], s.last(), v);
                }
            }
        }
    } else {
        let dl = s.drop_last();
        assert(sorted_by_rank(mode, q, dl));
        lemma_insert_ranked_sorted(mode, q, dl, v);
        let inner = insert_ranked(mode, q, dl, v);
        lemma_insert_ranked_len(mode, q, dl, v);
        lemma_insert_ranked_elems(mode, q, dl, v);
        lemma_rank_le_total(mode, q, s.last(), v);
        assert forall|i: int, j: int| 0 <= i < j < out.len() implies rank_le(
            mode,
            q,
            out[i],
            out[j],
        ) by {
            if j == out.len() - 1 {
                // `out[j]` is `s.last()`; `out[i]` is either `v` or an
                // element of `dl`, both ranked no later than `s.last()`.
                if exists|k: int| 0 <= k < dl.len() && out[i] == dl[k] {
                    let k = choose|k: int| 0 <= k < dl.len() && out[i] == dl[k];
                    assert(rank_le(mode, q, s[k], s[s.len() - 1]));
                } else {
                    assert(out[i] == v);
                }
            }
        }
    }
}

/// Every element of the inserted sequence is `v` or an element of `s`.
proof fn lemma_insert_ranked_elems(mode: RankMode, q: Seq<char>, s: Seq<ItemView>, v: ItemView)
    ensures
        forall|i: int|
            0 <= i < insert_ranked(mode, q, s, v).len() ==> (#[trigger] insert_ranked(mode, q, s, v)[i] == v
                || exists|k: int| 0 <= k < s.len() && insert_ranked(mode, q, s, v)[i] == s[k]),
    decreases s.len(),
{
    let out = insert_ranked(mode, q, s, v);
    lemma_insert_ranked_len(mode, q, s, v);
    if s.len() == 0 {
    } else if rank_le(mode, q, s.last(), v) {
        assert forall|i: int| 0 <= i < out.len() implies (out[i] == v || exists|k: int|
            0 <= k < s.len() && out[i] == s[k]) by {
            if i < s.len() {
                assert(out[i] == s[i]);
            }
        }
    } else {
        let dl = s.drop_last();
        lemma_insert_ranked_elems(mode, q, dl, v);
        lemma_insert_ranked_len(mode, q, dl, v);
        let inner = insert_ranked(mode, q, dl, v);
        assert forall|i: int| 0 <= i < out.len() implies (out[i] == v || exists|k: int|
            0 <= k < s.len() && out[i] == s[k]) by {
            if i < inner.len() {
                assert(out[i] == inner[i]);
                if inner[i] != v {
                    let k = choose|k: int| 0 <= k < dl.len() && inner[i] == dl[k];
                    assert(out[i] == s[k]);
                }
            } else {
                assert(out[i] == s[s.len() - 1]);
            }
        }
    }
}

/// Inserting adds exactly `v` to the sequence's multiset of elements.
proof fn lemma_insert_ranked_multiset(mode: RankMode, q: Seq<char>, s: Seq<ItemView>, v: ItemView)
    ensures
        insert_ranked(mode, q, s, v).to_multiset() == s.to_multiset().insert(v),
    decreases s.len(),
{
    broadcast use vstd::seq_lib::group_to_multiset_ensures;

    let out = insert_ranked(mode, q, s, v);
    if s.len() == 0 {
        assert(seq![v] =~= Seq::empty().push(v));
        assert(Seq::<ItemView>::empty().to_multiset() =~= Multiset::empty());
        assert(out.to_multiset() =~= s.to_multiset().insert(v));
    } else if rank_le(mode, q, s.last(), v) {
        assert(out.to_multiset() =~= s.to_multiset().insert(v));
    } else {
        let dl = s.drop_last();
        lemma_insert_ranked_multiset(mode, q, dl, v);
        assert(dl.push(s.last()) =~= s);
        assert(out.to_multiset() =~= insert_ranked(mode, q, dl, v).to_multiset().insert(s.last()));
        assert(s.to_multiset() =~= dl.to_multiset().insert(s.last()));
        assert(out.to_multiset() =~= s.to_multiset().insert(v));
    }
}

/// The ranked ordering of any sequence is ranked.
pub proof fn lemma_rank_sort_sorted(mode: RankMode, q: Seq<char>, s: Seq<ItemView>)
    ensures
        sorted_by_rank(mode, q, rank_sort(mode, q, s)),
    decreases s.len(),
{
    if s.len() > 0 {
        lemma_rank_sort_sorted(mode, q, s.drop_last());
        lemma_insert_ranked_sorted(mode, q, rank_sort(mode, q, s.drop_last()), s.last());
    }
}

/// The ranked ordering permutes its input: same elements, same counts.
pub proof fn lemma_rank_sort_multiset(mode: RankMode, q: Seq<char>, s: Seq<ItemView>)
    ensures
        rank_sort(mode, q, s).to_multiset() == s.to_multiset(),
    decreases s.len(),
{
    broadcast use vstd::seq_lib::group_to_multiset_ensures;

    if s.len() > 0 {
        lemma_rank_sort_multiset(mode, q, s.drop_last());
        lemma_insert_ranked_multiset(mode, q, rank_sort(mode, q, s.drop_last()), s.last());
        assert(s.drop_last().push(s.last()) =~= s);
        assert(s.to_multiset() =~= s.drop_last().to_multiset().insert(s.last()));
    }
}

/// The fuzzy score of an item, as the interactive session computes it.
pub fn best_score_of(item: &CommandItem, q: &str) -> (r: i64)
    ensures
        r as int == best_score(item@, q@),
{
    let l = match fuzzy_match(item.label.as_str(), q) {
        Some(s) => s,
        None => 0,
    };
    let w = match fuzzy_match(item.value.as_str(), q) {
        Some(s) => s,
        None => 0,
    };
    if l >= w {
        l
    } else {
        w
    }
}

/// Whether an item stays in the view for the given query.
pub fn item_matches(item: &CommandItem, q: &str, q_lower: &String) -> (r: bool)
    requires
        q_lower@ == lower_seq(q@),
    ensures
        r == matches_query(item@, q@),
{
    let label_lower = strutil::to_lowercase(item.label.as_str());
    if strutil::contains(label_lower.as_str(), q_lower.as_str()) {
        return true;
    }
    let value_lower = strutil::to_lowercase(item.value.as_str());
    if strutil::contains(value_lower.as_str(), q_lower.as_str()) {
        return true;
    }
    let lf = match fuzzy_match(item.label.as_str(), q) {
        Some(s) => s,
        None => 0,
    };
    if lf > 0 {
        return true;
    }
    let wf = match fuzzy_match(item.value.as_str(), q) {
        Some(s) => s,
        None => 0,
    };
    wf > 0
}

fn kind_bonus_of(k: CommandType) -> (r: i64)
    ensures
        r as int == kind_bonus(k),
{
    match k {
        CommandType::App => 200,
        CommandType::Note => 150,
        CommandType::Bookmark => 100,
        CommandType::Unknown => 50,
        CommandType::WebSearch => 25,
        CommandType::WebSuggestion => 0,
    }
}

/// Whether `a` is ranked no later than `b` for the query `q`.
fn rank_le_exec(mode: RankMode, q: &str, a: &CommandItem, b: &CommandItem) -> (r: bool)
    ensures
        r == rank_le(mode, q@, a@, b@),
{
    match mode {
        RankMode::Interactive => {
            let fa = best_score_of(a, q);
            let fb = best_score_of(b, q);
            if fa != fb {
                return fa > fb;
            }
            let ba = kind_bonus_of(a.kind);
            let bb = kind_bonus_of(b.kind);
            if ba != bb {
                return ba > bb;
            }
        },
        RankMode::Stream => {
            let fa = best_score_of(a, q) as i128 + kind_bonus_of(a.kind) as i128;
            let fb = best_score_of(b, q) as i128 + kind_bonus_of(b.kind) as i128;
            if fa != fb {
                return fa > fb;
            }
        },
    }
    let la = strutil::chars_of(strutil::to_lowercase(a.label.as_str()).as_str());
    let lb = strutil::chars_of(strutil::to_lowercase(b.label.as_str()).as_str());
    strutil::lex_le_chars(&la, &lb)
}

/// Where `insert_ranked` puts the new element: after the longest run of
/// trailing elements it outranks.
proof fn lemma_insert_ranked_at(mode: RankMode, q: Seq<char>, s: Seq<ItemView>, v: ItemView, p: int)
    requires
        0 <= p <= s.len(),
        p == 0 || rank_le(mode, q, s[p - 1], v),
        forall|j: int| p <= j < s.len() ==> !rank_le(mode, q, #[trigger] s[j], v),
    ensures
        insert_ranked(mode, q, s, v) == s.take(p) + seq![v] + s.skip(p),
    decreases s.len(),
{
    if s.len() == 0 {
        assert(insert_ranked(mode, q, s, v) =~= s.take(p) + seq![v] + s.skip(p));
    } else if rank_le(mode, q, s.last(), v) {
        assert(p == s.len());
        assert(s.push(v) =~= s.take(p) + seq![v] + s.skip(p));
    } else {
        let dl = s.drop_last();
        assert(p < s.len());
        lemma_insert_ranked_at(mode, q, dl, v, p);
        assert(insert_ranked(mode, q, dl, v).push(s.last()) =~= s.take(p) + seq![v] + s.skip(p));
    }
}

/// The views of the items of a vector.
pub open spec fn views_of(s: Seq<CommandItem>) -> Seq<ItemView> {
    s.map_values(|it: CommandItem| it@)
}

/// Appending an item appends its view.
pub proof fn lemma_views_push(s: Seq<CommandItem>, x: CommandItem)
    ensures
        views_of(s.push(x)) == views_of(s).push(x@),
{
    assert(views_of(s.push(x)) =~= views_of(s).push(x@));
}

/// Insert one item into an already ranked vector, keeping it ranked.
fn insert_item_ranked(mode: RankMode, q: &str, out: &mut Vec<CommandItem>, item: CommandItem)
    ensures
        views_of(final(out)@) == insert_ranked(mode, q@, views_of(old(out)@), item@),
{
    let ghost s = views_of(out@);
    let mut p: usize = out.len();
    while p > 0
        invariant
            p <= out@.len(),
            s == views_of(out@),
            forall|j: int| p <= j < s.len() ==> !rank_le(mode, q@, #[trigger] s[j], item@),
        ensures
            p <= out@.len(),
            p == 0 || rank_le(mode, q@, s[p - 1], item@),
            forall|j: int| p <= j < s.len() ==> !rank_le(mode, q@, #[trigger] s[j], item@),
        decreases p,
    {
        if rank_le_exec(mode, q, &out[p - 1], &item) {
            break ;
        }
        p = p - 1;
    }
    proof {
        lemma_insert_ranked_at(mode, q@, s, item@, p as int);
    }
    out.insert(p, item);
    proof {
        assert(views_of(out@) =~= s.take(p as int) + seq![item@] + s.skip(p as int));
    }
}

/// Sort items by the ranking order for `q`; the result is exactly the
/// ranked ordering of the input.
pub fn sort_by_rank(mode: RankMode, q: &str, v: Vec<CommandItem>) -> (r: Vec<CommandItem>)
    ensures
        views_of(r@) == rank_sort(mode, q@, views_of(v@)),
{
    let mut out: Vec<CommandItem> = Vec::new();
    let mut v = v;
    let mut i: usize = 0;
    let ghost all = views_of(v@);
    proof {
        assert(views_of(Seq::<CommandItem>::empty()) =~= Seq::<ItemView>::empty());
        assert(rank_sort(mode, q@, all.take(0)) =~= Seq::<ItemView>::empty());
    }
    let n = v.len();
    while i < n
        invariant
            i <= n,
            n == v@.len(),
            all == views_of(v@),
            views_of(out@) == rank_sort(mode, q@, all.take(i as int)),
        decreases n - i,
    {
        let item = v[i].clone();
        proof {
            assert(all.take(i + 1 as int).drop_last() =~= all.take(i as int));
            assert(all.take(i + 1 as int).last() == all[i as int]);
            assert(all[i as int] == v@[i as int]@);
        }
        insert_item_ranked(mode, q, &mut out, item);
        i = i + 1;
    }
    proof {
        assert(all.take(n as int) =~= all);
    }
    out
}

} // verus!
