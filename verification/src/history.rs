//! The usage history: a most-recently-used log of executed items,
//! deduplicated by the identity key `(label, handler, value)`.

use vstd::prelude::*;
use crate::model::{CommandItem, ItemView};
use crate::ranking::views_of;

verus! {

/// Two items count as the same history entry.
pub open spec fn same_identity(a: ItemView, b: ItemView) -> bool {
    a.label == b.label && a.handler == b.handler && a.value == b.value
}

/// An item view stamped with an execution time.
pub open spec fn stamped(v: ItemView, t: i64) -> ItemView {
    ItemView { ran_at: Some(t), ..v }
}

/// The history after recording `v`: every entry with `v`'s identity is
/// removed and `v` enters at the end, as the most recent entry.
pub open spec fn record_spec(h: Seq<ItemView>, v: ItemView) -> Seq<ItemView> {
    h.filter(|e: ItemView| !same_identity(e, v)).push(v)
}

fn same_identity_exec(a: &CommandItem, b: &CommandItem) -> (r: bool)
    ensures
        r == same_identity(a@, b@),
{
    a.label == b.label && a.handler == b.handler && a.value == b.value
}

/// Record an executed item at the given timestamp: stamp it, drop any older
/// entry with the same identity, and append it as most recent.
pub fn add_to_history_at(history: &mut Vec<CommandItem>, item: CommandItem, now_ms: i64)
    ensures
        views_of(final(history)@) == record_spec(views_of(old(history)@), stamped(item@, now_ms)),
{
    let ghost h0 = views_of(history@);
    let mut item = item;
    item.mark_executed_at(now_ms);
    let ghost v = item@;
    let ghost pred = |e: ItemView| !same_identity(e, v);
    let mut kept: Vec<CommandItem> = Vec::new();
    let mut i: usize = 0;
    proof {
        assert(h0.take(0) =~= Seq::<ItemView>::empty());
        assert(Seq::<ItemView>::empty().filter(pred) =~= Seq::<ItemView>::empty());
        assert(views_of(kept@) =~= Seq::<ItemView>::empty());
    }
    let n = history.len();
    while i < n
        invariant
            i <= n,
            n == history@.len(),
            h0 == views_of(history@),
            v == item@,
            pred == (|e: ItemView| !same_identity(e, v)),
            views_of(kept@) == h0.take(i as int).filter(pred),
        decreases n - i,
    {
        let ghost prefix = h0.take(i as int);
        proof {
            reveal(Seq::filter);
            assert(h0.take(i + 1 as int).drop_last() =~= prefix);
            assert(h0.take(i + 1 as int).last() == h0[i as int]);
        }
        if !same_identity_exec(&history[i], &item) {
            let kept_item = history[i].clone();
            kept.push(kept_item);
            proof {
                reveal(Seq::filter);
                assert(views_of(kept@) =~= prefix.filter(pred).push(h0[i as int]));
                assert(h0.take(i + 1 as int).filter(pred) =~= prefix.filter(pred).push(
                    h0[i as int],
                ));
            }
        } else {
            proof {
                reveal(Seq::filter);
                assert(h0.take(i + 1 as int).filter(pred) =~= prefix.filter(pred));
            }
        }
        i = i + 1;
    }
    proof {
        assert(h0.take(n as int) =~= h0);
    }
    kept.push(item);
    *history = kept;
    proof {
        assert(views_of(history@) =~= h0.filter(pred).push(v));
    }
}

/// Record an executed item, stamped with the current wall-clock time.
pub fn add_to_history(history: &mut Vec<CommandItem>, item: CommandItem)
    ensures
        exists|t: i64|
            views_of(final(history)@) == record_spec(
                views_of(old(history)@),
                stamped(item@, t),
            ),
{
    let now = crate::clock::now_millis();
    add_to_history_at(history, item, now);
}

proof fn lemma_filter_equiv<A>(s: Seq<A>, p: spec_fn(A) -> bool, q: spec_fn(A) -> bool)
    requires
        forall|e: A| #[trigger] p(e) == q(e),
    ensures
        s.filter(p) == s.filter(q),
    decreases s.len(),
{
    reveal(Seq::filter);
    if s.len() > 0 {
        lemma_filter_equiv(s.drop_last(), p, q);
    }
}

proof fn lemma_filter_idempotent<A>(s: Seq<A>, p: spec_fn(A) -> bool)
    ensures
        s.filter(p).filter(p) == s.filter(p),
    decreases s.len(),
{
    reveal(Seq::filter);
    if s.len() > 0 {
        lemma_filter_idempotent(s.drop_last(), p);
        if p(s.last()) {
            assert(s.filter(p).drop_last() =~= s.drop_last().filter(p));
            assert(s.filter(p).filter(p) =~= s.drop_last().filter(p).filter(p).push(s.last()));
        }
    }
}

/// History deduplication: recording two items that share the identity key
/// leaves the history as if only the later one had been recorded, so its
/// length is unchanged and the entry sits at the end with the newer stamp.
pub proof fn lemma_record_dedup(h: Seq<ItemView>, v1: ItemView, v2: ItemView)
    requires
        same_identity(v1, v2),
    ensures
        record_spec(record_spec(h, v1), v2) == record_spec(h, v2),
        record_spec(record_spec(h, v1), v2).len() == record_spec(h, v1).len(),
        record_spec(record_spec(h, v1), v2).last() == v2,
{
    let p1 = |e: ItemView| !same_identity(e, v1);
    let p2 = |e: ItemView| !same_identity(e, v2);
    assert forall|e: ItemView| #[trigger] p1(e) == p2(e) by {
        assert(same_identity(e, v1) == same_identity(e, v2));
    }
    let inner = h.filter(p1).push(v1);
    // The push of `v1` is filtered straight back out by `p2`.
    reveal(Seq::filter);
    assert(inner.drop_last() =~= h.filter(p1));
    assert(!p2(v1));
    assert(inner.filter(p2) == h.filter(p1).filter(p2));
    lemma_filter_equiv(h.filter(p1), p2, p1);
    lemma_filter_idempotent(h, p1);
    lemma_filter_equiv(h, p1, p2);
}

} // verus!
