use vstd::prelude::*;
use crate::orders::{ConceptualOrder, OrderKind, Side, total, sat_sub, of_kind};

verus! {

/// The canonical snapshot of desired orders: market orders first, then stop
/// orders, then limit orders, with the notional total of each pool.
#[derive(Debug)]
pub struct TargetOrderSet {
    pub stop_orders_notional: u64,
    pub limit_orders_notional: u64,
    pub market_orders_notional: u64,
    pub orders: Vec<ConceptualOrder>,
}

/// Budget left for order `i` of `s` once the orders before it took their share.
pub open spec fn budget_before(s: Seq<ConceptualOrder>, budget: int, i: int) -> int {
    sat_sub(budget, total(s.take(i)) as int)
}

/// Order `i` of `s` cut down to the budget still left when it is reached.
pub open spec fn clipped_at(s: Seq<ConceptualOrder>, budget: int, i: int) -> ConceptualOrder {
    let left = budget_before(s, budget, i);
    let n = if s[i].notional as int <= left { s[i].notional } else { left as u64 };
    s[i].with_notional(n)
}

/// The orders of `s`, in order, each kept whole while the budget lasts, the
/// one that crosses it cut to what is left, and those after it cut to zero.
pub open spec fn clip(s: Seq<ConceptualOrder>, budget: int) -> Seq<ConceptualOrder> {
    Seq::new(s.len(), |i: int| clipped_at(s, budget, i))
}

/// Whether price `a` comes before price `b`: by descending price where
/// `desc`, else by ascending price.
pub open spec fn precedes(desc: bool, a: u64, b: u64) -> bool {
    if desc {
        a > b
    } else {
        a < b
    }
}

/// `x` placed into `t` before the first order whose price it precedes, so
/// that orders of equal price keep their order of arrival.
pub open spec fn insert_ordered(x: ConceptualOrder, t: Seq<ConceptualOrder>, desc: bool) -> Seq<ConceptualOrder>
    decreases t.len(),
{
    if t.len() == 0 {
        seq![x]
    } else if precedes(desc, x.price, t[0].price) {
        seq![x] + t
    } else {
        seq![t[0]] + insert_ordered(x, t.drop_first(), desc)
    }
}

/// `s` sorted by price (stable), descending where `desc`.
pub open spec fn sort_by_price(s: Seq<ConceptualOrder>, desc: bool) -> Seq<ConceptualOrder>
    decreases s.len(),
{
    if s.len() == 0 {
        seq![]
    } else {
        insert_ordered(s.last(), sort_by_price(s.drop_last(), desc), desc)
    }
}

/// Stop orders are sorted by descending price for a long position (nearest
/// protective stop first), ascending for a short one.
pub open spec fn stops_descending(side: Side) -> bool {
    side == Side::Buy
}

/// Limit orders are sorted by ascending price for a long position (nearest
/// take-profit first), descending for a short one.
pub open spec fn limits_descending(side: Side) -> bool {
    side == Side::Sell
}

/// Budget that market orders may use: what is acquired and not yet closed.
pub open spec fn full_budget(acquired: u64, closed: u64) -> int {
    sat_sub(acquired as int, closed as int)
}

/// Market orders after clipping.
pub open spec fn market_part(s: Seq<ConceptualOrder>, acquired: u64, closed: u64) -> Seq<ConceptualOrder> {
    clip(of_kind(s, OrderKind::Market), full_budget(acquired, closed))
}

/// Budget left for each of the stop and the limit pools once market orders
/// were taken from all three trackers.
pub open spec fn after_market(s: Seq<ConceptualOrder>, acquired: u64, closed: u64) -> int {
    full_budget(acquired, closed) - total(market_part(s, acquired, closed))
}

/// Stop orders, sorted and clipped.
pub open spec fn stop_part(s: Seq<ConceptualOrder>, acquired: u64, closed: u64, side: Side) -> Seq<ConceptualOrder> {
    clip(
        sort_by_price(of_kind(s, OrderKind::StopMarket), stops_descending(side)),
        after_market(s, acquired, closed),
    )
}

/// Limit orders, sorted and clipped.
pub open spec fn limit_part(s: Seq<ConceptualOrder>, acquired: u64, closed: u64, side: Side) -> Seq<ConceptualOrder> {
    clip(
        sort_by_price(of_kind(s, OrderKind::Limit), limits_descending(side)),
        after_market(s, acquired, closed),
    )
}

/// Whether `t` is the target set that reconciling the orders `s` gives.
pub open spec fn is_reconciled(t: TargetOrderSet, s: Seq<ConceptualOrder>, acquired: u64, closed: u64, side: Side) -> bool {
    let m = market_part(s, acquired, closed);
    let st = stop_part(s, acquired, closed, side);
    let li = limit_part(s, acquired, closed, side);
    &&& t.orders@ == m + st + li
    &&& t.market_orders_notional == total(m)
    &&& t.stop_orders_notional == total(st)
    &&& t.limit_orders_notional == total(li)
}

proof fn lemma_take_last(s: Seq<ConceptualOrder>, i: int)
    requires
        0 <= i < s.len(),
    ensures
        s.take(i + 1).drop_last() == s.take(i),
        s.take(i + 1).last() == s[i],
{
    assert(s.take(i + 1).drop_last() =~= s.take(i));
}

/// Clipping never hands out more than the budget, and hands out all of it
/// when the orders ask for more.
pub proof fn lemma_clip_total(s: Seq<ConceptualOrder>, budget: int)
    requires
        budget >= 0,
    ensures
        total(clip(s, budget)) == if total(s) <= budget { total(s) as int } else { budget },
    decreases s.len(),
{
    if s.len() > 0 {
        let d = s.drop_last();
        lemma_clip_total(d, budget);
        assert(clip(s, budget).drop_last() =~= clip(d, budget)) by {
            assert forall|i: int| 0 <= i < d.len() implies clipped_at(s, budget, i) == clipped_at(d, budget, i) by {
                assert(s.take(i) =~= d.take(i));
            }
        }
        assert(s.take(s.len() - 1) =~= d);
    }
}

/// The orders of `pool` of kind `k`, in order.
fn select_kind(pool: &Vec<ConceptualOrder>, k: OrderKind) -> (r: Vec<ConceptualOrder>)
    ensures
        r@ == of_kind(pool@, k),
{
    let mut r: Vec<ConceptualOrder> = Vec::new();
    let mut i: usize = 0;
    while i < pool.len()
        invariant
            i <= pool.len(),
            r@ == of_kind(pool@.take(i as int), k),
        decreases pool.len() - i,
    {
        proof {
            lemma_take_last(pool@, i as int);
        }
        if pool[i].kind == k {
            r.push(pool[i].duplicate());
        }
        i = i + 1;
    }
    assert(pool@.take(pool.len() as int) =~= pool@);
    r
}

/// Appends `pool` clipped to `budget` onto `out` and returns the budget left.
fn clip_into(pool: &Vec<ConceptualOrder>, budget: u64, out: &mut Vec<ConceptualOrder>) -> (left: u64)
    ensures
        final(out)@ == old(out)@ + clip(pool@, budget as int),
        left == sat_sub(budget as int, total(pool@) as int),
        total(clip(pool@, budget as int)) == budget - left,
{
    let ghost start = out@;
    let mut left: u64 = budget;
    let mut i: usize = 0;
    while i < pool.len()
        invariant
            i <= pool.len(),
            out@ == start + clip(pool@, budget as int).take(i as int),
            left == budget_before(pool@, budget as int, i as int),
        decreases pool.len() - i,
    {
        proof {
            lemma_take_last(pool@, i as int);
        }
        let n: u64 = if pool[i].notional <= left { pool[i].notional } else { left };
        out.push(pool[i].resized(n));
        left = left - n;
        i = i + 1;
        assert(out@ =~= start + clip(pool@, budget as int).take(i as int));
    }
    assert(pool@.take(pool.len() as int) =~= pool@);
    assert(clip(pool@, budget as int).take(pool.len() as int) =~= clip(pool@, budget as int));
    proof {
        lemma_clip_total(pool@, budget as int);
    }
    left
}

proof fn lemma_insert_at(x: ConceptualOrder, t: Seq<ConceptualOrder>, desc: bool, j: int)
    requires
        0 <= j <= t.len(),
        forall|k: int| 0 <= k < j ==> !precedes(desc, x.price, #[trigger] t[k].price),
        j < t.len() ==> precedes(desc, x.price, t[j].price),
    ensures
        insert_ordered(x, t, desc) == t.insert(j, x),
    decreases j,
{
    if j == 0 {
        assert(insert_ordered(x, t, desc) =~= t.insert(0, x));
    } else {
        let u = t.drop_first();
        assert forall|k: int| 0 <= k < j - 1 implies !precedes(desc, x.price, #[trigger] u[k].price) by {
            assert(u[k] == t[k + 1]);
        }
        lemma_insert_at(x, u, desc, j - 1);
        assert(insert_ordered(x, t, desc) =~= t.insert(j, x));
    }
}

/// Whether price `a` comes before price `b` in the order that `desc` picks.
pub fn price_precedes(desc: bool, a: u64, b: u64) -> (r: bool)
    ensures
        r == precedes(desc, a, b),
{
    if desc {
        a > b
    } else {
        a < b
    }
}

/// Inserts `x` into `v` where `insert_ordered` puts it.
fn insert_by_price(v: &mut Vec<ConceptualOrder>, x: ConceptualOrder, desc: bool)
    ensures
        final(v)@ == insert_ordered(x, old(v)@, desc),
{
    let mut j: usize = 0;
    while j < v.len() && !price_precedes(desc, x.price, v[j].price)
        invariant
            j <= v.len(),
            forall|k: int| 0 <= k < j ==> !precedes(desc, x.price, #[trigger] v@[k].price),
        decreases v.len() - j,
    {
        j = j + 1;
    }
    proof {
        lemma_insert_at(x, v@, desc, j as int);
    }
    v.insert(j, x);
}

/// `pool` sorted stably by price, descending where `desc`.
fn sort_pool(pool: &Vec<ConceptualOrder>, desc: bool) -> (r: Vec<ConceptualOrder>)
    ensures
        r@ == sort_by_price(pool@, desc),
{
    let mut r: Vec<ConceptualOrder> = Vec::new();
    let mut i: usize = 0;
    while i < pool.len()
        invariant
            i <= pool.len(),
            r@ == sort_by_price(pool@.take(i as int), desc),
        decreases pool.len() - i,
    {
        proof {
            lemma_take_last(pool@, i as int);
        }
        insert_by_price(&mut r, pool[i].duplicate(), desc);
        i = i + 1;
    }
    assert(pool@.take(pool.len() as int) =~= pool@);
    r
}

/// Merges the current orders of every strategy into one target set: market
/// orders first, clipped to what is acquired and not yet closed and taken
/// from every budget; then stop and limit orders, each pool sorted by how
/// near its price is for `side` and clipped to the budget left.
pub fn recompute(orders: &Vec<ConceptualOrder>, acquired: u64, closed: u64, side: Side) -> (r: TargetOrderSet)
    ensures
        is_reconciled(r, orders@, acquired, closed, side),
{
    let full: u64 = if acquired > closed { acquired - closed } else { 0 };
    let mut out: Vec<ConceptualOrder> = Vec::new();

    let markets = select_kind(orders, OrderKind::Market);
    let left = clip_into(&markets, full, &mut out);
    let market_total: u64 = full - left;

    let stop_desc = match side {
        Side::Buy => true,
        Side::Sell => false,
    };
    let stops = sort_pool(&select_kind(orders, OrderKind::StopMarket), stop_desc);
    let stop_left = clip_into(&stops, left, &mut out);

    let limits = sort_pool(&select_kind(orders, OrderKind::Limit), !stop_desc);
    let limit_left = clip_into(&limits, left, &mut out);

    TargetOrderSet {
        stop_orders_notional: left - stop_left,
        limit_orders_notional: left - limit_left,
        market_orders_notional: market_total,
        orders: out,
    }
}

proof fn lemma_total_prepend(a: ConceptualOrder, t: Seq<ConceptualOrder>)
    ensures
        total(seq![a] + t) == a.notional + total(t),
    decreases t.len(),
{
    if t.len() > 0 {
        lemma_total_prepend(a, t.drop_last());
        assert((seq![a] + t).drop_last() =~= seq![a] + t.drop_last());
    } else {
        assert((seq![a] + t).drop_last() =~= t);
    }
}

proof fn lemma_insert_total(x: ConceptualOrder, t: Seq<ConceptualOrder>, desc: bool)
    ensures
        total(insert_ordered(x, t, desc)) == total(t) + x.notional,
    decreases t.len(),
{
    if t.len() == 0 {
        lemma_total_prepend(x, t);
    } else {
        assert(t =~= seq![t[0]] + t.drop_first());
        lemma_total_prepend(t[0], t.drop_first());
        if precedes(desc, x.price, t[0].price) {
            lemma_total_prepend(x, t);
        } else {
            lemma_insert_total(x, t.drop_first(), desc);
            lemma_total_prepend(t[0], insert_ordered(x, t.drop_first(), desc));
        }
    }
}

/// Sorting a pool keeps its notional total.
pub proof fn lemma_sort_total(s: Seq<ConceptualOrder>, desc: bool)
    ensures
        total(sort_by_price(s, desc)) == total(s),
    decreases s.len(),
{
    if s.len() > 0 {
        lemma_sort_total(s.drop_last(), desc);
        lemma_insert_total(s.last(), sort_by_price(s.drop_last(), desc), desc);
    }
}

proof fn lemma_total_remove(t: Seq<ConceptualOrder>, j: int)
    requires
        0 <= j < t.len(),
    ensures
        total(t) == total(t.remove(j)) + t[j].notional,
    decreases t.len(),
{
    if j == t.len() - 1 {
        assert(t.remove(j) =~= t.drop_last());
    } else {
        lemma_total_remove(t.drop_last(), j);
        assert(t.remove(j).drop_last() =~= t.drop_last().remove(j));
    }
}

/// Orders that are a rearrangement of one another have the same total.
pub proof fn lemma_total_rearranged(s: Seq<ConceptualOrder>, t: Seq<ConceptualOrder>)
    requires
        s.to_multiset() == t.to_multiset(),
    ensures
        total(s) == total(t),
    decreases s.len(),
{
    broadcast use vstd::seq_lib::group_to_multiset_ensures;
    if s.len() > 0 {
        let x = s.last();
        assert(s =~= s.drop_last().push(x));
        assert(t.to_multiset().count(x) > 0);
        assert(t.contains(x));
        let j = choose|j: int| 0 <= j < t.len() && t[j] == x;
        assert(t.remove(j).to_multiset() =~= s.drop_last().to_multiset());
        lemma_total_rearranged(s.drop_last(), t.remove(j));
        lemma_total_remove(t, j);
    } else {
        assert(t.to_multiset().len() == 0);
    }
}

/// No budget goes negative: the market orders take at most what is acquired
/// and not yet closed, and the stop pool and the limit pool each take at most
/// what the market orders left.
pub proof fn lemma_budgets_never_negative(s: Seq<ConceptualOrder>, acquired: u64, closed: u64, side: Side)
    requires
        closed <= acquired,
    ensures
        total(market_part(s, acquired, closed)) <= acquired - closed,
        total(market_part(s, acquired, closed)) + total(stop_part(s, acquired, closed, side)) <= acquired - closed,
        total(market_part(s, acquired, closed)) + total(limit_part(s, acquired, closed, side)) <= acquired - closed,
{
    let full = full_budget(acquired, closed);
    lemma_clip_total(of_kind(s, OrderKind::Market), full);
    let rest = after_market(s, acquired, closed);
    lemma_clip_total(sort_by_price(of_kind(s, OrderKind::StopMarket), stops_descending(side)), rest);
    lemma_clip_total(sort_by_price(of_kind(s, OrderKind::Limit), limits_descending(side)), rest);
}

/// Clipping is exact: a stop or limit pool whose orders ask for more than the
/// budget left after market orders is given exactly that budget, and one that
/// asks for less is given all it asks for.
pub proof fn lemma_clipping_exact(s: Seq<ConceptualOrder>, acquired: u64, closed: u64, side: Side)
    ensures
        total(of_kind(s, OrderKind::StopMarket)) > after_market(s, acquired, closed)
            ==> total(stop_part(s, acquired, closed, side)) == after_market(s, acquired, closed),
        total(of_kind(s, OrderKind::StopMarket)) <= after_market(s, acquired, closed)
            ==> total(stop_part(s, acquired, closed, side)) == total(of_kind(s, OrderKind::StopMarket)),
        total(of_kind(s, OrderKind::Limit)) > after_market(s, acquired, closed)
            ==> total(limit_part(s, acquired, closed, side)) == after_market(s, acquired, closed),
        total(of_kind(s, OrderKind::Limit)) <= after_market(s, acquired, closed)
            ==> total(limit_part(s, acquired, closed, side)) == total(of_kind(s, OrderKind::Limit)),
{
    let full = full_budget(acquired, closed);
    lemma_clip_total(of_kind(s, OrderKind::Market), full);
    let rest = after_market(s, acquired, closed);
    let stops = of_kind(s, OrderKind::StopMarket);
    let limits = of_kind(s, OrderKind::Limit);
    lemma_sort_total(stops, stops_descending(side));
    lemma_sort_total(limits, limits_descending(side));
    lemma_clip_total(sort_by_price(stops, stops_descending(side)), rest);
    lemma_clip_total(sort_by_price(limits, limits_descending(side)), rest);
}

/// Market orders are taken from the stop and the limit budgets alike, and
/// what they take does not depend on the order in which they are processed.
pub proof fn lemma_market_order_independent(s: Seq<ConceptualOrder>, t: Seq<ConceptualOrder>, acquired: u64, closed: u64)
    requires
        of_kind(s, OrderKind::Market).to_multiset() == of_kind(t, OrderKind::Market).to_multiset(),
    ensures
        after_market(s, acquired, closed) == after_market(t, acquired, closed),
        after_market(s, acquired, closed) == full_budget(acquired, closed) - total(market_part(s, acquired, closed)),
{
    let full = full_budget(acquired, closed);
    lemma_clip_total(of_kind(s, OrderKind::Market), full);
    lemma_clip_total(of_kind(t, OrderKind::Market), full);
    lemma_total_rearranged(of_kind(s, OrderKind::Market), of_kind(t, OrderKind::Market));
}

/// Reconciliation is a function of its inputs: two results on the same
/// inputs are the same target set.
pub proof fn lemma_reconcile_deterministic(
    a: TargetOrderSet,
    b: TargetOrderSet,
    s: Seq<ConceptualOrder>,
    acquired: u64,
    closed: u64,
    side: Side,
)
    requires
        is_reconciled(a, s, acquired, closed, side),
        is_reconciled(b, s, acquired, closed, side),
    ensures
        a.orders@ == b.orders@,
        a.market_orders_notional == b.market_orders_notional,
        a.stop_orders_notional == b.stop_orders_notional,
        a.limit_orders_notional == b.limit_orders_notional,
{
}

/// Whether no order of `t` is preceded in price by an order after it.
pub open spec fn price_ordered(t: Seq<ConceptualOrder>, desc: bool) -> bool {
    forall|i: int, j: int| 0 <= i < j < t.len() ==> !precedes(desc, #[trigger] t[j].price, #[trigger] t[i].price)
}

proof fn lemma_insert_ordered(x: ConceptualOrder, t: Seq<ConceptualOrder>, desc: bool)
    requires
        price_ordered(t, desc),
    ensures
        price_ordered(insert_ordered(x, t, desc), desc),
        forall|k: int| 0 <= k < insert_ordered(x, t, desc).len() ==> #[trigger] insert_ordered(x, t, desc)[k] == x
            || t.contains(insert_ordered(x, t, desc)[k]),
        insert_ordered(x, t, desc).len() == t.len() + 1,
    decreases t.len(),
{
    let r = insert_ordered(x, t, desc);
    if t.len() == 0 {
    } else if precedes(desc, x.price, t[0].price) {
        assert forall|k: int| 0 <= k < r.len() implies #[trigger] r[k] == x || t.contains(r[k]) by {
            if k > 0 {
                assert(r[k] == t[k - 1]);
            }
        }
        assert forall|i: int, j: int| 0 <= i < j < r.len() implies !precedes(desc, #[trigger] r[j].price, #[trigger] r[i].price) by {
            assert(r[j] == t[j - 1]);
            if i > 0 {
                assert(r[i] == t[i - 1]);
            } else if j > 1 {
                assert(!precedes(desc, t[j - 1].price, t[0].price));
            }
        }
    } else {
        let u = t.drop_first();
        assert(price_ordered(u, desc)) by {
            assert forall|i: int, j: int| 0 <= i < j < u.len() implies !precedes(desc, #[trigger] u[j].price, #[trigger] u[i].price) by {
                assert(u[i] == t[i + 1] && u[j] == t[j + 1]);
            }
        }
        lemma_insert_ordered(x, u, desc);
        let v = insert_ordered(x, u, desc);
        assert(r == seq![t[0]] + v);
        assert forall|k: int| 0 <= k < r.len() implies #[trigger] r[k] == x || t.contains(r[k]) by {
            if k == 0 {
                assert(t[0] == r[0]);
            } else {
                assert(r[k] == v[k - 1]);
                if v[k - 1] != x {
                    let m = choose|m: int| 0 <= m < u.len() && u[m] == v[k - 1];
                    assert(t[m + 1] == u[m]);
                }
            }
        }
        assert forall|i: int, j: int| 0 <= i < j < r.len() implies !precedes(desc, #[trigger] r[j].price, #[trigger] r[i].price) by {
            assert(r[j] == v[j - 1]);
            if i > 0 {
                assert(r[i] == v[i - 1]);
            } else {
                assert(v[j - 1] == x || u.contains(v[j - 1]));
                if v[j - 1] != x {
                    let m = choose|m: int| 0 <= m < u.len() && u[m] == v[j - 1];
                    assert(t[m + 1] == u[m]);
                }
            }
        }
    }
}

/// The tie-break order: a sorted pool lists the more favourable prices
/// first, so that clipping keeps them whole and cuts later ones.
pub proof fn lemma_sorted_by_priority(s: Seq<ConceptualOrder>, desc: bool)
    ensures
        price_ordered(sort_by_price(s, desc), desc),
        sort_by_price(s, desc).len() == s.len(),
    decreases s.len(),
{
    if s.len() > 0 {
        lemma_sorted_by_priority(s.drop_last(), desc);
        lemma_insert_ordered(s.last(), sort_by_price(s.drop_last(), desc), desc);
    }
}

} // verus!
