use vstd::prelude::*;
use crate::orders::{ConceptualOrder, OrderKind, Side, total};
use crate::reconcile::{TargetOrderSet, is_reconciled, recompute};

verus! {

/// Weights of protocol orders are in basis points of a strategy's share.
pub const WEIGHT_SCALE: u64 = 10000;

/// Budget-sharing group of a followup strategy.
#[derive(Debug, Clone, Copy, PartialEq, Eq, Structural)]
pub enum ProtocolType {
    Momentum,
}

/// An order as a strategy emits it: sized as `weight_bp` basis points of the
/// notional that the strategy controls.
#[derive(Debug)]
pub struct ProtocolOrder {
    pub id: u128,
    pub kind: OrderKind,
    pub symbol: String,
    pub side: Side,
    pub price: u64,
    pub weight_bp: u64,
}

/// The latest full output of one strategy; it replaces the previous one.
#[derive(Debug)]
pub struct ProtocolOrderBatch {
    pub producer: u64,
    pub orders: Vec<ProtocolOrder>,
}

/// Cumulative notional filled so far on one sub-order.
#[derive(Debug, Clone, Copy, PartialEq, Eq, Structural)]
pub struct FillRecord {
    pub order_id: u128,
    pub filled_notional: u64,
}

/// Sum of the weights of a strategy's orders.
pub open spec fn weight_total(s: Seq<ProtocolOrder>) -> nat
    decreases s.len(),
{
    if s.len() == 0 {
        0
    } else {
        weight_total(s.drop_last()) + s.last().weight_bp as nat
    }
}

/// Whether every order carries at most the whole share and all together too.
pub open spec fn weights_ok(s: Seq<ProtocolOrder>) -> bool {
    &&& weight_total(s) <= WEIGHT_SCALE
    &&& forall|k: int| 0 <= k < s.len() ==> #[trigger] s[k].weight_bp <= WEIGHT_SCALE
}

/// Notional that `weight` basis points of `share` stand for.
pub open spec fn scaled(share: u64, weight: u64) -> int {
    (share as int * weight as int) / (WEIGHT_SCALE as int)
}

/// The latest fill recorded for sub-order `id`, or zero.
pub open spec fn filled_of(fills: Seq<FillRecord>, id: u128) -> int
    decreases fills.len(),
{
    if fills.len() == 0 {
        0
    } else if fills.last().order_id == id {
        fills.last().filled_notional as int
    } else {
        filled_of(fills.drop_last(), id)
    }
}

/// Whether the ledger holds at most one record per sub-order.
pub open spec fn keys_unique(fills: Seq<FillRecord>) -> bool {
    forall|i: int, j: int|
        0 <= i < j < fills.len() ==> #[trigger] fills[i].order_id != #[trigger] fills[j].order_id
}

/// Sum of the fills in the ledger.
pub open spec fn fills_total(fills: Seq<FillRecord>) -> nat
    decreases fills.len(),
{
    if fills.len() == 0 {
        0
    } else {
        fills_total(fills.drop_last()) + fills.last().filled_notional as nat
    }
}

/// The conceptual order that protocol order `o` of `producer` becomes with
/// notional `n`.
pub open spec fn concept(o: ProtocolOrder, producer: u64, n: u64) -> ConceptualOrder {
    ConceptualOrder {
        id: o.id,
        producer: producer,
        kind: o.kind,
        symbol: o.symbol,
        side: o.side,
        price: o.price,
        notional: n,
    }
}

/// Notional of `o` still to be placed: its scaled size less what is filled.
pub open spec fn unfilled(o: ProtocolOrder, fills: Seq<FillRecord>, share: u64) -> int {
    scaled(share, o.weight_bp) - filled_of(fills, o.id)
}

/// A strategy's orders scaled to its share, with fills taken off; sub-orders
/// that are fully filled are dropped.
pub open spec fn unroll(os: Seq<ProtocolOrder>, producer: u64, fills: Seq<FillRecord>, share: u64) -> Seq<ConceptualOrder>
    decreases os.len(),
{
    if os.len() == 0 {
        seq![]
    } else {
        let rest = unroll(os.drop_last(), producer, fills, share);
        let left = unfilled(os.last(), fills, share);
        if left > 0 {
            rest.push(concept(os.last(), producer, left as u64))
        } else {
            rest
        }
    }
}

/// A strategy never controls more than its share: its unrolled orders total
/// at most the share, however its weights are split.
pub proof fn lemma_unroll_within_share(os: Seq<ProtocolOrder>, producer: u64, fills: Seq<FillRecord>, share: u64)
    requires
        weights_ok(os),
    ensures
        total(unroll(os, producer, fills, share)) <= share,
{
    lemma_unroll_scaled(os, producer, fills, share);
    let w = weight_total(os) as int;
    let t = total(unroll(os, producer, fills, share)) as int;
    assert(t <= share) by (nonlinear_arith)
        requires
            t * 10000 <= share as int * w,
            w <= 10000,
            share >= 0,
    ;
}

proof fn lemma_unroll_scaled(os: Seq<ProtocolOrder>, producer: u64, fills: Seq<FillRecord>, share: u64)
    requires
        forall|k: int| 0 <= k < os.len() ==> #[trigger] os[k].weight_bp <= WEIGHT_SCALE,
    ensures
        total(unroll(os, producer, fills, share)) * 10000 <= share as int * weight_total(os) as int,
    decreases os.len(),
{
    if os.len() > 0 {
        let d = os.drop_last();
        assert forall|k: int| 0 <= k < d.len() implies #[trigger] d[k].weight_bp <= WEIGHT_SCALE by {
            assert(d[k] == os[k]);
        }
        lemma_unroll_scaled(d, producer, fills, share);
        let o = os.last();
        let left = unfilled(o, fills, share);
        let t0 = total(unroll(d, producer, fills, share)) as int;
        let w0 = weight_total(d) as int;
        let s = share as int;
        let w = o.weight_bp as int;
        assert(s * w / 10000 * 10000 <= s * w) by (nonlinear_arith)
            requires
                s >= 0,
                w >= 0,
        ;
        assert(s * (w0 + w) == s * w0 + s * w) by (nonlinear_arith);
        if left > 0 {
            let f = filled_of(fills, o.id);
            assert(f >= 0) by {
                lemma_filled_nonneg(fills, o.id);
            }
            assert(left * 10000 <= s * w / 10000 * 10000) by (nonlinear_arith)
                requires
                    left <= s * w / 10000,
            ;
            assert(unroll(os, producer, fills, share) == unroll(d, producer, fills, share).push(
                concept(o, producer, left as u64),
            ));
            let u = unroll(os, producer, fills, share);
            assert(u.drop_last() =~= unroll(d, producer, fills, share));
            assert(s * w / 10000 <= s) by (nonlinear_arith)
                requires
                    s >= 0,
                    0 <= w <= 10000,
            ;
        }
    }
}

proof fn lemma_filled_nonneg(fills: Seq<FillRecord>, id: u128)
    ensures
        filled_of(fills, id) >= 0,
    decreases fills.len(),
{
    if fills.len() > 0 {
        lemma_filled_nonneg(fills.drop_last(), id);
    }
}

proof fn lemma_filled_at(fills: Seq<FillRecord>, j: int)
    requires
        keys_unique(fills),
        0 <= j < fills.len(),
    ensures
        filled_of(fills, fills[j].order_id) == fills[j].filled_notional,
    decreases fills.len(),
{
    if j < fills.len() - 1 {
        let d = fills.drop_last();
        assert(fills[j] == d[j]);
        assert(fills.last().order_id != fills[j].order_id);
        lemma_filled_at(d, j);
    }
}

proof fn lemma_filled_absent(fills: Seq<FillRecord>, id: u128)
    requires
        forall|k: int| 0 <= k < fills.len() ==> #[trigger] fills[k].order_id != id,
    ensures
        filled_of(fills, id) == 0,
    decreases fills.len(),
{
    if fills.len() > 0 {
        let d = fills.drop_last();
        assert forall|k: int| 0 <= k < d.len() implies #[trigger] d[k].order_id != id by {
            assert(d[k] == fills[k]);
        }
        lemma_filled_absent(d, id);
    }
}

proof fn lemma_fills_total_update(fills: Seq<FillRecord>, j: int, r: FillRecord)
    requires
        0 <= j < fills.len(),
    ensures
        fills_total(fills.update(j, r)) + fills[j].filled_notional == fills_total(fills) + r.filled_notional,
    decreases fills.len(),
{
    if j == fills.len() - 1 {
        assert(fills.update(j, r).drop_last() =~= fills.drop_last());
    } else {
        lemma_fills_total_update(fills.drop_last(), j, r);
        assert(fills.update(j, r).drop_last() =~= fills.drop_last().update(j, r));
    }
}

/// The lookup of a sub-order's fill in a ledger with one record per key.
proof fn lemma_lookup(fills: Seq<FillRecord>, id: u128)
    requires
        keys_unique(fills),
    ensures
        (exists|k: int| 0 <= k < fills.len() && fills[k].order_id == id)
            ==> filled_of(fills, id) == fills[choose|k: int| 0 <= k < fills.len() && fills[k].order_id == id].filled_notional,
        !(exists|k: int| 0 <= k < fills.len() && fills[k].order_id == id) ==> filled_of(fills, id) == 0,
{
    if exists|k: int| 0 <= k < fills.len() && fills[k].order_id == id {
        let k = choose|k: int| 0 <= k < fills.len() && fills[k].order_id == id;
        lemma_filled_at(fills, k);
    } else {
        lemma_filled_absent(fills, id);
    }
}

/// Latest fill recorded for sub-order `id`, or zero.
pub fn filled_for(fills: &Vec<FillRecord>, id: u128) -> (r: u64)
    ensures
        r == filled_of(fills@, id),
{
    let mut i: usize = fills.len();
    assert(fills@.take(i as int) =~= fills@);
    while i > 0
        invariant
            i <= fills.len(),
            filled_of(fills@, id) == filled_of(fills@.take(i as int), id),
        decreases i,
    {
        let ghost t = fills@.take(i as int);
        assert(t.drop_last() =~= fills@.take(i - 1));
        if fills[i - 1].order_id == id {
            return fills[i - 1].filled_notional;
        }
        i = i - 1;
    }
    0
}

/// Records the cumulative fill `r` in the ledger, overwriting any earlier
/// record for the same sub-order.
pub fn record_fill(fills: &mut Vec<FillRecord>, r: FillRecord)
    requires
        keys_unique(old(fills)@),
    ensures
        keys_unique(final(fills)@),
        filled_of(final(fills)@, r.order_id) == r.filled_notional,
        forall|id: u128| id != r.order_id ==> filled_of(final(fills)@, id) == filled_of(old(fills)@, id),
        fills_total(final(fills)@) + filled_of(old(fills)@, r.order_id) == fills_total(old(fills)@) + r.filled_notional,
{
    let mut j: usize = 0;
    while j < fills.len()
        invariant
            j <= fills.len(),
            fills@ == old(fills)@,
            keys_unique(fills@),
            forall|k: int| 0 <= k < j ==> #[trigger] fills@[k].order_id != r.order_id,
        decreases fills.len() - j,
    {
        if fills[j].order_id == r.order_id {
            proof {
                lemma_filled_at(fills@, j as int);
                lemma_fills_total_update(fills@, j as int, r);
            }
            let ghost before = fills@;
            fills.set(j, r);
            proof {
                assert(fills@ == before.update(j as int, r));
                assert forall|a: int, b: int| 0 <= a < b < fills@.len() implies #[trigger] fills@[a].order_id
                    != #[trigger] fills@[b].order_id by {
                    if a != j && b != j {
                        assert(before[a].order_id != before[b].order_id);
                    }
                    if a == j {
                        assert(before[a].order_id != before[b].order_id);
                    }
                    if b == j {
                        assert(before[a].order_id != before[b].order_id);
                    }
                }
                lemma_filled_at(fills@, j as int);
                assert forall|id: u128| id != r.order_id implies filled_of(fills@, id) == filled_of(before, id) by {
                    lemma_lookup(fills@, id);
                    lemma_lookup(before, id);
                    if exists|k: int| 0 <= k < before.len() && before[k].order_id == id {
                        let k = choose|k: int| 0 <= k < before.len() && before[k].order_id == id;
                        assert(fills@[k].order_id == id);
                        lemma_filled_at(fills@, k);
                        lemma_filled_at(before, k);
                    } else {
                        assert forall|k: int| 0 <= k < fills@.len() implies #[trigger] fills@[k].order_id != id by {
                            assert(before[k].order_id != id || k == j);
                        }
                        lemma_filled_absent(fills@, id);
                    }
                }
            }
            return;
        }
        j = j + 1;
    }
    proof {
        lemma_filled_absent(fills@, r.order_id);
    }
    let ghost before = fills@;
    fills.push(r);
    proof {
        assert(fills@.drop_last() =~= before);
        assert forall|a: int, b: int| 0 <= a < b < fills@.len() implies #[trigger] fills@[a].order_id
            != #[trigger] fills@[b].order_id by {
            if b < before.len() {
                assert(before[a].order_id != before[b].order_id);
            } else {
                assert(before[a].order_id != r.order_id);
            }
        }
    }
}

/// Appends the orders `os` of `producer`, unrolled against `share` and the
/// ledger, onto `out`.
fn unroll_into(
    os: &Vec<ProtocolOrder>,
    producer: u64,
    fills: &Vec<FillRecord>,
    share: u64,
    out: &mut Vec<ConceptualOrder>,
)
    requires
        forall|k: int| 0 <= k < os@.len() ==> #[trigger] os@[k].weight_bp <= WEIGHT_SCALE,
    ensures
        final(out)@ == old(out)@ + unroll(os@, producer, fills@, share),
{
    let ghost start = out@;
    let mut i: usize = 0;
    while i < os.len()
        invariant
            i <= os.len(),
            forall|k: int| 0 <= k < os@.len() ==> #[trigger] os@[k].weight_bp <= WEIGHT_SCALE,
            out@ == start + unroll(os@.take(i as int), producer, fills@, share),
        decreases os.len() - i,
    {
        let ghost t = os@.take(i as int + 1);
        assert(t.drop_last() =~= os@.take(i as int));
        let o = &os[i];
        let w = o.weight_bp;
        assert(w <= WEIGHT_SCALE);
        assert(share as int * w as int <= 0xffff_ffff_ffff_ffff * 10000) by (nonlinear_arith)
            requires
                share <= 0xffff_ffff_ffff_ffff,
                w <= 10000,
        ;
        let sc: u128 = (share as u128) * (w as u128) / (WEIGHT_SCALE as u128);
        assert(sc == scaled(share, w));
        assert(sc <= share) by (nonlinear_arith)
            requires
                sc == (share as int * w as int) / 10000,
                w <= 10000,
        ;
        let f = filled_for(fills, o.id);
        if (sc as u64) > f {
            out.push(ConceptualOrder {
                id: o.id,
                producer: producer,
                kind: o.kind,
                symbol: o.symbol.clone(),
                side: o.side,
                price: o.price,
                notional: (sc as u64) - f,
            });
        }
        i = i + 1;
        assert(out@ =~= start + unroll(os@.take(i as int), producer, fills@, share));
    }
    assert(os@.take(os.len() as int) =~= os@);
}

proof fn lemma_weight_prefix(s: Seq<ProtocolOrder>, i: int)
    requires
        0 <= i <= s.len(),
    ensures
        weight_total(s.take(i)) <= weight_total(s),
    decreases s.len() - i,
{
    if i < s.len() {
        lemma_weight_prefix(s, i + 1);
        assert(s.take(i + 1).drop_last() =~= s.take(i));
    } else {
        assert(s.take(i) =~= s);
    }
}

/// Whether the weights of `os` stay within one whole share.
pub fn weights_within(os: &Vec<ProtocolOrder>) -> (r: bool)
    ensures
        r == weights_ok(os@),
{
    let mut sum: u64 = 0;
    let mut i: usize = 0;
    while i < os.len()
        invariant
            i <= os.len(),
            sum == weight_total(os@.take(i as int)),
            sum <= WEIGHT_SCALE,
            forall|k: int| 0 <= k < i ==> #[trigger] os@[k].weight_bp <= WEIGHT_SCALE,
        decreases os.len() - i,
    {
        let ghost t = os@.take(i as int + 1);
        assert(t.drop_last() =~= os@.take(i as int));
        let w = os[i].weight_bp;
        if w > WEIGHT_SCALE || sum + w > WEIGHT_SCALE {
            proof {
                lemma_weight_prefix(os@, i as int + 1);
            }
            return false;
        }
        sum = sum + w;
        i = i + 1;
    }
    assert(os@.take(os.len() as int) =~= os@);
    true
}

/// Where in the followup lifecycle a position stands.
#[derive(Debug, Clone, Copy, PartialEq, Eq, Structural)]
pub enum FollowupPhase {
    /// Events are being processed.
    Running,
    /// All acquired notional is closed.
    FullyClosed,
    /// Every strategy queue and the fill source closed before the position
    /// was fully closed: risk may remain open.
    SourcesClosed,
}

/// One attached strategy and its latest orders.
#[derive(Debug)]
pub struct StrategySlot {
    pub producer: u64,
    pub subtype: ProtocolType,
    /// The notional this strategy controls.
    pub share: u64,
    /// Whether its queue still delivers; a closed queue's orders stay frozen.
    pub open: bool,
    pub orders: Vec<ProtocolOrder>,
}

/// What the orchestration loop hands to the state machine.
#[derive(Debug)]
pub enum FollowupEvent {
    Batch(ProtocolOrderBatch),
    Fill(FillRecord),
    QueueClosed(u64),
    FillsClosed,
}

/// The followup of an acquired position: attached strategies, their latest
/// orders, the fill ledger and the current target order set.
#[derive(Debug)]
pub struct PositionFollowup {
    pub side: Side,
    pub acquired_notional: u64,
    pub closed_notional: u64,
    pub strategies: Vec<StrategySlot>,
    pub fills: Vec<FillRecord>,
    pub fills_open: bool,
    pub phase: FollowupPhase,
    pub target: TargetOrderSet,
}

/// Number of strategies of subtype `t`.
pub open spec fn count_subtype(slots: Seq<StrategySlot>, t: ProtocolType) -> nat
    decreases slots.len(),
{
    if slots.len() == 0 {
        0
    } else {
        count_subtype(slots.drop_last(), t) + if slots.last().subtype == t { 1nat } else { 0nat }
    }
}

/// Every strategy's orders, unrolled, strategy by strategy.
pub open spec fn all_orders(slots: Seq<StrategySlot>, fills: Seq<FillRecord>) -> Seq<ConceptualOrder>
    decreases slots.len(),
{
    if slots.len() == 0 {
        seq![]
    } else {
        let l = slots.last();
        all_orders(slots.drop_last(), fills) + unroll(l.orders@, l.producer, fills, l.share)
    }
}

/// Closed notional: what the ledger records as filled, up to what is acquired.
pub open spec fn closed_of(acquired: u64, fills: Seq<FillRecord>) -> u64 {
    if fills_total(fills) < acquired {
        fills_total(fills) as u64
    } else {
        acquired
    }
}

/// Each strategy's entitlement: an equal part of the acquired notional among
/// the strategies of its subtype.
pub open spec fn share_for(acquired: u64, slots: Seq<StrategySlot>, t: ProtocolType) -> int {
    acquired as int / count_subtype(slots, t) as int
}

pub open spec fn producers_unique(slots: Seq<StrategySlot>) -> bool {
    forall|i: int, j: int| 0 <= i < j < slots.len() ==> #[trigger] slots[i].producer != #[trigger] slots[j].producer
}

pub open spec fn all_closed(slots: Seq<StrategySlot>) -> bool {
    forall|k: int| 0 <= k < slots.len() ==> !(#[trigger] slots[k].open)
}

impl PositionFollowup {
    /// Shares are fixed and the target set is the reconciliation of the
    /// current orders and fills.
    pub open spec fn settled(self) -> bool {
        &&& forall|k: int| 0 <= k < self.strategies@.len() ==> #[trigger] self.strategies@[k].share
            == share_for(self.acquired_notional, self.strategies@, self.strategies@[k].subtype)
        &&& is_reconciled(
            self.target,
            all_orders(self.strategies@, self.fills@),
            self.acquired_notional,
            self.closed_notional,
            self.side,
        )
    }

    pub open spec fn wf(self) -> bool {
        &&& producers_unique(self.strategies@)
        &&& forall|k: int| 0 <= k < self.strategies@.len() ==> weights_ok(#[trigger] self.strategies@[k].orders@)
        &&& keys_unique(self.fills@)
        &&& self.closed_notional == closed_of(self.acquired_notional, self.fills@)
        &&& self.settled()
    }
}

/// A strategy to attach: its producer identity and budget-sharing group.
#[derive(Debug, Clone, Copy, PartialEq, Eq, Structural)]
pub struct StrategyEntry {
    pub producer: u64,
    pub subtype: ProtocolType,
}

/// Number of entries of subtype `t`.
pub open spec fn count_in(roster: Seq<StrategyEntry>, t: ProtocolType) -> nat
    decreases roster.len(),
{
    if roster.len() == 0 {
        0
    } else {
        count_in(roster.drop_last(), t) + if roster.last().subtype == t { 1nat } else { 0nat }
    }
}

pub open spec fn roster_unique(roster: Seq<StrategyEntry>) -> bool {
    forall|i: int, j: int| 0 <= i < j < roster.len() ==> #[trigger] roster[i].producer != #[trigger] roster[j].producer
}

proof fn lemma_count_same_subtypes(a: Seq<StrategySlot>, b: Seq<StrategySlot>, t: ProtocolType)
    requires
        a.len() == b.len(),
        forall|k: int| 0 <= k < a.len() ==> #[trigger] a[k].subtype == b[k].subtype,
    ensures
        count_subtype(a, t) == count_subtype(b, t),
    decreases a.len(),
{
    if a.len() > 0 {
        let (da, db) = (a.drop_last(), b.drop_last());
        assert forall|k: int| 0 <= k < da.len() implies #[trigger] da[k].subtype == db[k].subtype by {
            assert(da[k] == a[k] && db[k] == b[k]);
        }
        lemma_count_same_subtypes(da, db, t);
    }
}

proof fn lemma_count_positive(roster: Seq<StrategyEntry>, k: int)
    requires
        0 <= k < roster.len(),
    ensures
        count_in(roster, roster[k].subtype) >= 1,
        count_in(roster, roster[k].subtype) <= roster.len(),
    decreases roster.len(),
{
    lemma_count_bounded(roster, roster[k].subtype);
    if k < roster.len() - 1 {
        assert(roster.drop_last()[k] == roster[k]);
        lemma_count_positive(roster.drop_last(), k);
    }
}

proof fn lemma_count_bounded(roster: Seq<StrategyEntry>, t: ProtocolType)
    ensures
        count_in(roster, t) <= roster.len(),
    decreases roster.len(),
{
    if roster.len() > 0 {
        lemma_count_bounded(roster.drop_last(), t);
    }
}

/// Number of entries of `roster` of subtype `t`.
fn count_of(roster: &Vec<StrategyEntry>, t: ProtocolType) -> (r: usize)
    ensures
        r == count_in(roster@, t),
{
    let mut n: usize = 0;
    let mut i: usize = 0;
    while i < roster.len()
        invariant
            i <= roster.len(),
            n == count_in(roster@.take(i as int), t),
            n <= i,
        decreases roster.len() - i,
    {
        let ghost u = roster@.take(i as int + 1);
        assert(u.drop_last() =~= roster@.take(i as int));
        if roster[i].subtype == t {
            n = n + 1;
        }
        i = i + 1;
    }
    assert(roster@.take(roster.len() as int) =~= roster@);
    n
}

/// Whether two entries of `roster` share a producer.
fn has_duplicate(roster: &Vec<StrategyEntry>) -> (r: bool)
    ensures
        r == !roster_unique(roster@),
{
    let mut i: usize = 0;
    while i < roster.len()
        invariant
            i <= roster.len(),
            forall|a: int, b: int| 0 <= a < b < roster.len() && a < i ==> #[trigger] roster@[a].producer
                != #[trigger] roster@[b].producer,
        decreases roster.len() - i,
    {
        let mut j: usize = i + 1;
        while j < roster.len()
            invariant
                i < roster.len(),
                i + 1 <= j <= roster.len(),
                forall|a: int, b: int| 0 <= a < b < roster.len() && a < i ==> #[trigger] roster@[a].producer
                    != #[trigger] roster@[b].producer,
                forall|b: int| i < b < j ==> roster@[i as int].producer != #[trigger] roster@[b].producer,
            decreases roster.len() - j,
        {
            if roster[i].producer == roster[j].producer {
                return true;
            }
            j = j + 1;
        }
        i = i + 1;
    }
    false
}

/// Capped sum of the ledger: the closed notional.
pub fn closed_from(acquired: u64, fills: &Vec<FillRecord>) -> (r: u64)
    ensures
        r == closed_of(acquired, fills@),
{
    let mut acc: u64 = 0;
    let mut i: usize = 0;
    while i < fills.len()
        invariant
            i <= fills.len(),
            acc == closed_of(acquired, fills@.take(i as int)),
        decreases fills.len() - i,
    {
        let ghost u = fills@.take(i as int + 1);
        assert(u.drop_last() =~= fills@.take(i as int));
        let sum: u128 = acc as u128 + fills[i].filled_notional as u128;
        acc = if sum < acquired as u128 { sum as u64 } else { acquired };
        i = i + 1;
    }
    assert(fills@.take(fills.len() as int) =~= fills@);
    acc
}

/// Every strategy's orders, unrolled against its share and the ledger.
fn collect_orders(slots: &Vec<StrategySlot>, fills: &Vec<FillRecord>) -> (r: Vec<ConceptualOrder>)
    requires
        forall|k: int| 0 <= k < slots@.len() ==> weights_ok(#[trigger] slots@[k].orders@),
    ensures
        r@ == all_orders(slots@, fills@),
{
    let mut r: Vec<ConceptualOrder> = Vec::new();
    let mut i: usize = 0;
    while i < slots.len()
        invariant
            i <= slots.len(),
            forall|k: int| 0 <= k < slots@.len() ==> weights_ok(#[trigger] slots@[k].orders@),
            r@ == all_orders(slots@.take(i as int), fills@),
        decreases slots.len() - i,
    {
        let ghost u = slots@.take(i as int + 1);
        assert(u.drop_last() =~= slots@.take(i as int));
        let sl = &slots[i];
        assert(weights_ok(slots@[i as int].orders@));
        unroll_into(&sl.orders, sl.producer, fills, sl.share, &mut r);
        i = i + 1;
    }
    assert(slots@.take(slots.len() as int) =~= slots@);
    r
}

/// Slot `k` as the roster makes it: entry `k`'s producer and subtype, the
/// share of its subtype, its queue open and no orders yet.
pub open spec fn fresh_slot(sl: StrategySlot, roster: Seq<StrategyEntry>, k: int, acquired: u64) -> bool {
    &&& sl.producer == roster[k].producer
    &&& sl.subtype == roster[k].subtype
    &&& sl.share == acquired as int / count_in(roster, roster[k].subtype) as int
    &&& sl.open
    &&& sl.orders@.len() == 0
}

impl PositionFollowup {
    /// Starts the followup of a position of `acquired` notional on `side`
    /// with the given strategies, each entitled to an equal part of the
    /// acquired notional among those of its subtype. `None` where two
    /// strategies share a producer identity.
    pub fn new(side: Side, acquired: u64, roster: &Vec<StrategyEntry>) -> (r: Option<PositionFollowup>)
        ensures
            r is None <==> !roster_unique(roster@),
            r matches Some(f) ==> {
                &&& f.wf()
                &&& f.side == side
                &&& f.acquired_notional == acquired
                &&& f.fills@.len() == 0
                &&& f.fills_open
                &&& f.phase == FollowupPhase::Running
                &&& f.strategies@.len() == roster@.len()
                &&& forall|k: int| 0 <= k < roster@.len() ==> fresh_slot(#[trigger] f.strategies@[k], roster@, k, acquired)
            },
    {
        if has_duplicate(roster) {
            return None;
        }
        let mut slots: Vec<StrategySlot> = Vec::new();
        let mut i: usize = 0;
        while i < roster.len()
            invariant
                i <= roster.len(),
                roster_unique(roster@),
                slots@.len() == i,
                forall|t: ProtocolType| count_subtype(slots@, t) == count_in(roster@.take(i as int), t),
                forall|k: int| 0 <= k < i ==> fresh_slot(#[trigger] slots@[k], roster@, k, acquired),
            decreases roster.len() - i,
        {
            let ghost u = roster@.take(i as int + 1);
            assert(u.drop_last() =~= roster@.take(i as int));
            let e = roster[i];
            let n = count_of(roster, e.subtype);
            proof {
                lemma_count_positive(roster@, i as int);
            }
            let ghost before = slots@;
            let no_orders: Vec<ProtocolOrder> = Vec::new();
            let slot = StrategySlot {
                producer: e.producer,
                subtype: e.subtype,
                share: acquired / (n as u64),
                open: true,
                orders: no_orders,
            };
            assert(slot.orders@.len() == 0);
            slots.push(slot);
            assert(slots@.drop_last() =~= before);
            assert(slots@[i as int] == slot);
            assert forall|k: int| 0 <= k < i + 1 implies fresh_slot(#[trigger] slots@[k], roster@, k, acquired) by {
                if k < i {
                    assert(slots@.drop_last()[k] == slots@[k]);
                    assert(fresh_slot(before[k], roster@, k, acquired));
                }
            }
            assert forall|t: ProtocolType| count_subtype(slots@, t) == count_in(roster@.take(i as int + 1), t) by {
                assert(count_subtype(before, t) == count_in(roster@.take(i as int), t));
            }
            i = i + 1;
        }
        assert(roster@.take(roster.len() as int) =~= roster@);
        let fills: Vec<FillRecord> = Vec::new();
        assert forall|k: int| 0 <= k < slots@.len() implies weights_ok(#[trigger] slots@[k].orders@) by {
            assert(fresh_slot(slots@[k], roster@, k, acquired));
            assert(slots@[k].orders@ =~= Seq::<ProtocolOrder>::empty());
        }
        let orders = collect_orders(&slots, &fills);
        let closed = closed_from(acquired, &fills);
        let target = recompute(&orders, acquired, closed, side);
        let f = PositionFollowup {
            side,
            acquired_notional: acquired,
            closed_notional: closed,
            strategies: slots,
            fills,
            fills_open: true,
            phase: FollowupPhase::Running,
            target,
        };
        assert forall|a: int, b: int| 0 <= a < b < f.strategies@.len() implies #[trigger] f.strategies@[a].producer
            != #[trigger] f.strategies@[b].producer by {
            assert(roster@[a].producer != roster@[b].producer);
        }
        assert forall|k: int| 0 <= k < f.strategies@.len() implies weights_ok(#[trigger] f.strategies@[k].orders@) by {
            assert(fresh_slot(slots@[k], roster@, k, acquired));
            assert(f.strategies@[k].orders@ =~= Seq::<ProtocolOrder>::empty());
        }
        Some(f)
    }

    /// Position of `producer` among the strategies, if attached.
    pub fn find_slot(&self, producer: u64) -> (r: Option<usize>)
        ensures
            r matches Some(j) ==> j < self.strategies@.len() && self.strategies@[j as int].producer == producer,
            r is None ==> forall|k: int| 0 <= k < self.strategies@.len() ==> #[trigger] self.strategies@[k].producer != producer,
    {
        let mut j: usize = 0;
        while j < self.strategies.len()
            invariant
                j <= self.strategies@.len(),
                forall|k: int| 0 <= k < j ==> #[trigger] self.strategies@[k].producer != producer,
            decreases self.strategies@.len() - j,
        {
            if self.strategies[j].producer == producer {
                return Some(j);
            }
            j = j + 1;
        }
        None
    }

    /// Whether every strategy queue is closed.
    fn queues_closed(&self) -> (r: bool)
        ensures
            r == all_closed(self.strategies@),
    {
        let mut j: usize = 0;
        while j < self.strategies.len()
            invariant
                j <= self.strategies@.len(),
                forall|k: int| 0 <= k < j ==> !(#[trigger] self.strategies@[k].open),
            decreases self.strategies@.len() - j,
        {
            if self.strategies[j].open {
                return false;
            }
            j = j + 1;
        }
        true
    }

    /// Recomputes the closed notional and the target set from the current
    /// orders and ledger.
    fn refresh(&mut self)
        requires
            forall|k: int| 0 <= k < old(self).strategies@.len() ==> weights_ok(#[trigger] old(self).strategies@[k].orders@),
        ensures
            final(self).closed_notional == closed_of(old(self).acquired_notional, old(self).fills@),
            is_reconciled(
                final(self).target,
                all_orders(old(self).strategies@, old(self).fills@),
                old(self).acquired_notional,
                final(self).closed_notional,
                old(self).side,
            ),
            final(self).strategies == old(self).strategies,
            final(self).fills == old(self).fills,
            final(self).side == old(self).side,
            final(self).acquired_notional == old(self).acquired_notional,
            final(self).fills_open == old(self).fills_open,
            final(self).phase == old(self).phase,
    {
        let orders = collect_orders(&self.strategies, &self.fills);
        self.closed_notional = closed_from(self.acquired_notional, &self.fills);
        self.target = recompute(&orders, self.acquired_notional, self.closed_notional, self.side);
    }

    /// Phase after an event: fully closed once all acquired notional is
    /// closed; sources closed once every queue and the fill source closed.
    pub open spec fn next_phase(self) -> FollowupPhase {
        if self.closed_notional == self.acquired_notional {
            FollowupPhase::FullyClosed
        } else if all_closed(self.strategies@) && !self.fills_open {
            FollowupPhase::SourcesClosed
        } else {
            FollowupPhase::Running
        }
    }

    fn settle_phase(&mut self)
        ensures
            final(self).phase == old(self).next_phase(),
            final(self).strategies == old(self).strategies,
            final(self).fills == old(self).fills,
            final(self).side == old(self).side,
            final(self).acquired_notional == old(self).acquired_notional,
            final(self).closed_notional == old(self).closed_notional,
            final(self).fills_open == old(self).fills_open,
            final(self).target == old(self).target,
    {
        if self.closed_notional == self.acquired_notional {
            self.phase = FollowupPhase::FullyClosed;
        } else if self.queues_closed() && !self.fills_open {
            self.phase = FollowupPhase::SourcesClosed;
        } else {
            self.phase = FollowupPhase::Running;
        }
    }

    /// Handles one event of the orchestration loop. A batch replaces the
    /// orders of its strategy; a fill overwrites the ledger's record of its
    /// sub-order; a closed queue freezes its strategy's orders and share.
    /// The target set is then recomputed from scratch. Returns whether the
    /// event was taken: events after the followup ended, batches of unknown
    /// or closed strategies and batches whose weights exceed a whole share
    /// are refused and change nothing.
    pub fn handle(&mut self, ev: FollowupEvent) -> (accepted: bool)
        requires
            old(self).wf(),
        ensures
            final(self).wf(),
            !accepted ==> *final(self) == *old(self),
            accepted ==> stepped(*old(self), *final(self), ev),
            accepted == accepts(*old(self), ev),
    {
        if self.phase != FollowupPhase::Running {
            return false;
        }
        let ghost pre = *self;
        match ev {
            FollowupEvent::Batch(b) => {
                let found = self.find_slot(b.producer);
                let j = match found {
                    Some(j) => j,
                    None => {
                        return false;
                    },
                };
                if !self.strategies[j].open || !weights_within(&b.orders) {
                    proof {
                        assert forall|k: int| 0 <= k < pre.strategies@.len() && #[trigger] pre.strategies@[k].producer
                            == b.producer implies k == j by {
                            if k != j {
                                assert(pre.strategies@[k].producer != pre.strategies@[j as int].producer);
                            }
                        }
                    }
                    return false;
                }
                let slot = StrategySlot {
                    producer: self.strategies[j].producer,
                    subtype: self.strategies[j].subtype,
                    share: self.strategies[j].share,
                    open: true,
                    orders: b.orders,
                };
                self.strategies.set(j, slot);
                proof {
                    self.lemma_slots_kept(pre, j as int);
                }
                self.refresh();
                self.settle_phase();
                proof {
                    assert forall|k: int| 0 <= k < pre.strategies@.len() && #[trigger] pre.strategies@[k].producer
                        == b.producer implies k == j by {
                        if k != j {
                            assert(pre.strategies@[k].producer != pre.strategies@[j as int].producer);
                        }
                    }
                }
                true
            },
            FollowupEvent::Fill(f) => {
                record_fill(&mut self.fills, f);
                self.refresh();
                self.settle_phase();
                true
            },
            FollowupEvent::QueueClosed(p) => {
                let found = self.find_slot(p);
                let j = match found {
                    Some(j) => j,
                    None => {
                        return false;
                    },
                };
                let mut slot = StrategySlot {
                    producer: 0,
                    subtype: ProtocolType::Momentum,
                    share: 0,
                    open: false,
                    orders: Vec::new(),
                };
                self.strategies.set_and_swap(j, &mut slot);
                slot.open = false;
                self.strategies.set_and_swap(j, &mut slot);
                proof {
                    assert(self.strategies@ =~= pre.strategies@.update(j as int, self.strategies@[j as int]));
                    self.lemma_slots_kept(pre, j as int);
                }
                self.refresh();
                self.settle_phase();
                proof {
                    assert forall|k: int| 0 <= k < pre.strategies@.len() && #[trigger] pre.strategies@[k].producer
                        == p implies k == j by {
                        if k != j {
                            assert(pre.strategies@[k].producer != pre.strategies@[j as int].producer);
                        }
                    }
                }
                true
            },
            FollowupEvent::FillsClosed => {
                self.fills_open = false;
                self.settle_phase();
                true
            },
        }
    }

    /// Replacing slot `j` by one of the same producer, subtype and share, with
    /// weights within a share, keeps the producers unique and the shares due.
    proof fn lemma_slots_kept(self, pre: PositionFollowup, j: int)
        requires
            pre.wf(),
            0 <= j < pre.strategies@.len(),
            self.strategies@ == pre.strategies@.update(j, self.strategies@[j]),
            self.strategies@[j].producer == pre.strategies@[j].producer,
            self.strategies@[j].subtype == pre.strategies@[j].subtype,
            self.strategies@[j].share == pre.strategies@[j].share,
            weights_ok(self.strategies@[j].orders@),
            self.acquired_notional == pre.acquired_notional,
        ensures
            producers_unique(self.strategies@),
            forall|k: int| 0 <= k < self.strategies@.len() ==> weights_ok(#[trigger] self.strategies@[k].orders@),
            forall|k: int| 0 <= k < self.strategies@.len() ==> #[trigger] self.strategies@[k].share
                == share_for(self.acquired_notional, self.strategies@, self.strategies@[k].subtype),
    {
        let (a, b) = (self.strategies@, pre.strategies@);
        assert forall|k: int| 0 <= k < a.len() implies #[trigger] a[k].subtype == b[k].subtype by {
            if k != j {
                assert(a[k] == b[k]);
            }
        }
        assert forall|t: ProtocolType| count_subtype(a, t) == count_subtype(b, t) by {
            lemma_count_same_subtypes(a, b, t);
        }
        assert forall|x: int, y: int| 0 <= x < y < a.len() implies #[trigger] a[x].producer != #[trigger] a[y].producer by {
            assert(b[x].producer != b[y].producer);
            if x != j {
                assert(a[x] == b[x]);
            }
            if y != j {
                assert(a[y] == b[y]);
            }
        }
        assert forall|k: int| 0 <= k < a.len() implies weights_ok(#[trigger] a[k].orders@) by {
            if k != j {
                assert(a[k] == b[k]);
            }
        }
        assert forall|k: int| 0 <= k < a.len() implies #[trigger] a[k].share == share_for(
            self.acquired_notional,
            a,
            a[k].subtype,
        ) by {
            assert(b[k].share == share_for(pre.acquired_notional, b, b[k].subtype));
            if k != j {
                assert(a[k] == b[k]);
            }
        }
    }
}

/// Whether `ev` is taken in state `s`.
pub open spec fn accepts(s: PositionFollowup, ev: FollowupEvent) -> bool {
    s.phase == FollowupPhase::Running && match ev {
        FollowupEvent::Batch(b) => exists|k: int|
            0 <= k < s.strategies@.len() && #[trigger] s.strategies@[k].producer == b.producer
                && s.strategies@[k].open && weights_ok(b.orders@),
        FollowupEvent::Fill(_) => true,
        FollowupEvent::QueueClosed(p) => exists|k: int|
            0 <= k < s.strategies@.len() && #[trigger] s.strategies@[k].producer == p,
        FollowupEvent::FillsClosed => true,
    }
}

/// Slot `k` of `post` is slot `k` of `pre`, with its orders replaced where
/// `orders` is given and closed where `close` holds.
pub open spec fn slot_after(pre: StrategySlot, post: StrategySlot, orders: Option<Seq<ProtocolOrder>>, close: bool) -> bool {
    &&& post.producer == pre.producer
    &&& post.subtype == pre.subtype
    &&& post.share == pre.share
    &&& post.open == (pre.open && !close)
    &&& post.orders@ == match orders {
        Some(os) => os,
        None => pre.orders@,
    }
}

/// What a taken event does: the slots and ledger change as the event says,
/// the closed notional and the target set are recomputed from them, and the
/// phase follows.
pub open spec fn stepped(pre: PositionFollowup, post: PositionFollowup, ev: FollowupEvent) -> bool {
    &&& post.side == pre.side
    &&& post.acquired_notional == pre.acquired_notional
    &&& post.strategies@.len() == pre.strategies@.len()
    &&& post.phase == post.next_phase()
    &&& match ev {
        FollowupEvent::Batch(b) => {
            &&& post.fills == pre.fills
            &&& post.fills_open == pre.fills_open
            &&& forall|k: int| 0 <= k < pre.strategies@.len() ==> if pre.strategies@[k].producer == b.producer {
                slot_after(pre.strategies@[k], #[trigger] post.strategies@[k], Some(b.orders@), false)
            } else {
                post.strategies@[k] == pre.strategies@[k]
            }
        },
        FollowupEvent::Fill(f) => {
            &&& post.strategies == pre.strategies
            &&& post.fills_open == pre.fills_open
            &&& filled_of(post.fills@, f.order_id) == f.filled_notional
            &&& forall|id: u128| id != f.order_id ==> filled_of(post.fills@, id) == filled_of(pre.fills@, id)
        },
        FollowupEvent::QueueClosed(p) => {
            &&& post.fills == pre.fills
            &&& post.fills_open == pre.fills_open
            &&& forall|k: int| 0 <= k < pre.strategies@.len() ==> if pre.strategies@[k].producer == p {
                slot_after(pre.strategies@[k], #[trigger] post.strategies@[k], None, true)
            } else {
                post.strategies@[k] == pre.strategies@[k]
            }
        },
        FollowupEvent::FillsClosed => {
            &&& post.strategies == pre.strategies
            &&& post.fills == pre.fills
            &&& !post.fills_open
            &&& post.target == pre.target
            &&& post.closed_notional == pre.closed_notional
        },
    }
}

/// Notional allocated to the strategies of subtype `t`.
pub open spec fn subtype_allocation(slots: Seq<StrategySlot>, fills: Seq<FillRecord>, t: ProtocolType) -> nat
    decreases slots.len(),
{
    if slots.len() == 0 {
        0
    } else {
        let l = slots.last();
        subtype_allocation(slots.drop_last(), fills, t) + if l.subtype == t {
            total(unroll(l.orders@, l.producer, fills, l.share))
        } else {
            0nat
        }
    }
}

proof fn lemma_allocation_bounded(slots: Seq<StrategySlot>, fills: Seq<FillRecord>, t: ProtocolType, share: int)
    requires
        forall|k: int| 0 <= k < slots.len() ==> weights_ok(#[trigger] slots[k].orders@),
        forall|k: int| 0 <= k < slots.len() && #[trigger] slots[k].subtype == t ==> slots[k].share == share,
    ensures
        subtype_allocation(slots, fills, t) <= count_subtype(slots, t) * share,
    decreases slots.len(),
{
    if slots.len() > 0 {
        let d = slots.drop_last();
        assert forall|k: int| 0 <= k < d.len() implies weights_ok(#[trigger] d[k].orders@) by {
            assert(d[k] == slots[k]);
        }
        assert forall|k: int| 0 <= k < d.len() && #[trigger] d[k].subtype == t implies d[k].share == share by {
            assert(d[k] == slots[k]);
        }
        lemma_allocation_bounded(d, fills, t, share);
        let l = slots.last();
        assert(weights_ok(slots[slots.len() - 1].orders@));
        if l.subtype == t {
            assert(slots[slots.len() - 1].subtype == t);
            lemma_unroll_within_share(l.orders@, l.producer, fills, l.share);
        }
        let c = count_subtype(d, t) as int;
        let ad = subtype_allocation(d, fills, t) as int;
        assert(ad <= c * share);
        if l.subtype == t {
            let u = total(unroll(l.orders@, l.producer, fills, l.share)) as int;
            assert(u <= share);
            assert(subtype_allocation(slots, fills, t) == ad + u);
            assert(count_subtype(slots, t) == c + 1);
            assert((c + 1) * share == c * share + share) by (nonlinear_arith);
            assert(subtype_allocation(slots, fills, t) <= count_subtype(slots, t) * share);
        } else {
            assert(subtype_allocation(slots, fills, t) == ad);
            assert(count_subtype(slots, t) == c);
            assert(subtype_allocation(slots, fills, t) <= count_subtype(slots, t) * share);
        }
    } else {
        assert(count_subtype(slots, t) * share == 0) by (nonlinear_arith)
            requires
                count_subtype(slots, t) == 0,
        ;
    }
}

/// Budget splitting: each of the `k` strategies of a subtype controls
/// exactly the acquired notional divided by `k`, and all of them together,
/// whatever orders they hold at once, are allocated no more than the
/// acquired notional.
pub proof fn lemma_budget_split(f: PositionFollowup, t: ProtocolType)
    requires
        f.wf(),
    ensures
        forall|k: int| 0 <= k < f.strategies@.len() && #[trigger] f.strategies@[k].subtype == t
            ==> f.strategies@[k].share == f.acquired_notional as int / count_subtype(f.strategies@, t) as int,
        subtype_allocation(f.strategies@, f.fills@, t) <= f.acquired_notional,
{
    let n = count_subtype(f.strategies@, t) as int;
    let a = f.acquired_notional as int;
    if n == 0 {
        lemma_allocation_bounded(f.strategies@, f.fills@, t, 0);
    } else {
        lemma_allocation_bounded(f.strategies@, f.fills@, t, a / n);
        assert(n * (a / n) <= a) by (nonlinear_arith)
            requires
                n > 0,
                a >= 0,
        ;
    }
}

} // verus!
