use vstd::prelude::*;
use std::sync::Arc;

use crate::commission::{Commission, CommissionModel};
use crate::data::{copy_values, Data, Field};
use crate::error::{BacktestError, BtResult};
use crate::order::{share_tag, standalone_count, standalone_slot, Order, OrderId, OrderSize, OrderTable, TradeId};
use crate::position::Position;
use crate::scalar::Scalar;
use crate::trade::{abs_int, magnitude, Trade};

verus! {

broadcast use vstd::seq_lib::group_filter_ensures;

/// How a broker starts out and behaves.
#[derive(Debug, Clone)]
pub struct BrokerConfig<P, C> {
    pub cash: P,
    pub spread: P,
    pub commission: C,
    /// margin ratio (`1/leverage`), in (`0, 1`]
    pub margin: P,
    pub trade_on_close: bool,
    pub hedging: bool,
    pub exclusive_orders: bool,
}

impl<P: Scalar> Default for BrokerConfig<P, Commission<P>> {
    /// Ten million in cash, no spread, no commission, no leverage, trading on
    /// the close, neither hedging nor exclusive orders.
    fn default() -> (r: Self)
        ensures
            r.trade_on_close,
            !r.hedging,
            !r.exclusive_orders,
    {
        BrokerConfig {
            cash: P::from_i64(10_000_000),
            spread: P::zero(),
            commission: Commission::default(),
            margin: P::one(),
            trade_on_close: true,
            hedging: false,
            exclusive_orders: false,
        }
    }
}

/// A non-fatal event of the simulation, kept for the caller instead of printed.
#[derive(Debug, Clone, Copy)]
pub enum Warning<P> {
    /// A relative-sized order came to zero units and was canceled.
    RelativeOrderCanceled { bar: usize, equity: P, margin_available: P },
    /// An order needed more margin than was available and was canceled.
    OrderCanceled { bar: usize, equity: P, margin_available: P },
    /// A stop or limit order became a trade in the same bar in which its
    /// contingent SL/TP order would also have executed.
    ContingentSameBar,
}

/// A nonzero trade size whose negation is a size too.
pub open spec fn valid_size(size: i64) -> bool {
    size != 0 && size != i64::MIN
}

/// `units` closes (part of) a trade of `size`: nonzero and of the other sign.
pub open spec fn opposed(units: i64, size: i64) -> bool {
    units != 0 && ((units > 0) != (size > 0))
}

/// An order that closes a trade names a trade that exists, in whole units,
/// of the other sign unless that trade is closed already.
pub open spec fn contingent_ok<P>(o: Order<P>, trades: Seq<Trade<P>>) -> bool {
    o.parent_trade matches Some(t) ==> {
        &&& t.0 < trades.len()
        &&& o.size matches OrderSize::Units(u)
        &&& (opposed(u, trades[t.0 as int].size) || trades[t.0 as int].exit_price is Some)
    }
}

/// Whether a trade's id is among `ids`.
pub open spec fn named_in<P>(ids: Seq<TradeId>) -> spec_fn(Trade<P>) -> bool {
    |t: Trade<P>| ids.contains(t.id)
}

/// The trade's SL and TP orders have ids below `next`.
pub open spec fn links_below<P>(t: Trade<P>, next: usize) -> bool {
    &&& t.sl_order matches Some(k) ==> k.0 < next
    &&& t.tp_order matches Some(k) ==> k.0 < next
}

/// The trade's SL and TP orders, while stored, close trade `i`.
pub open spec fn links_back<P>(t: Trade<P>, i: int, table: OrderTable<P>) -> bool {
    &&& t.sl_order matches Some(k) ==> (table.spec_get(k) matches Some(o) ==> o.parent_trade == Some(TradeId(i as usize)))
    &&& t.tp_order matches Some(k) ==> (table.spec_get(k) matches Some(o) ==> o.parent_trade == Some(TradeId(i as usize)))
}

/// `ids` without the ones equal to `id`, in their order.
pub open spec fn order_ids_without(ids: Seq<OrderId>, id: OrderId) -> Seq<OrderId> {
    ids.filter(other_order(id))
}

pub open spec fn other_order(id: OrderId) -> spec_fn(OrderId) -> bool {
    |x: OrderId| x != id
}

pub open spec fn trade_ids_without(ids: Seq<TradeId>, id: TradeId) -> Seq<TradeId> {
    ids.filter(other_trade(id))
}

pub open spec fn other_trade(id: TradeId) -> spec_fn(TradeId) -> bool {
    |x: TradeId| x != id
}

/// What the filter keeps: the other ids, each one among `ids`; and it keeps
/// every other id of `ids`.
pub proof fn lemma_order_ids_without(ids: Seq<OrderId>, id: OrderId)
    ensures
        forall|i: int| 0 <= i < order_ids_without(ids, id).len() ==> {
            &&& #[trigger] order_ids_without(ids, id)[i] != id
            &&& ids.contains(order_ids_without(ids, id)[i])
        },
        forall|i: int| 0 <= i < ids.len() && ids[i] != id ==> #[trigger] order_ids_without(ids, id).contains(ids[i]),
        order_ids_without(ids, id).len() <= ids.len(),
{
    let pred = other_order(id);
    assert(order_ids_without(ids, id) == ids.filter(pred));
    assert forall|i: int| 0 <= i < ids.filter(pred).len() implies {
        &&& #[trigger] ids.filter(pred)[i] != id
        &&& ids.contains(ids.filter(pred)[i])
    } by {
        assert(pred(ids.filter(pred)[i]));
        assert(ids.filter(pred).contains(ids.filter(pred)[i]));
        ids.lemma_filter_contains_rev(pred, ids.filter(pred)[i]);
    }
    assert forall|i: int| 0 <= i < ids.len() && ids[i] != id implies #[trigger] ids.filter(pred).contains(ids[i]) by {
        assert(pred(ids[i]));
    }
}

pub proof fn lemma_trade_ids_without(ids: Seq<TradeId>, id: TradeId)
    ensures
        forall|i: int| 0 <= i < trade_ids_without(ids, id).len() ==> {
            &&& #[trigger] trade_ids_without(ids, id)[i] != id
            &&& ids.contains(trade_ids_without(ids, id)[i])
        },
        forall|i: int| 0 <= i < ids.len() && ids[i] != id ==> #[trigger] trade_ids_without(ids, id).contains(ids[i]),
        !trade_ids_without(ids, id).contains(id),
        trade_ids_without(ids, id).len() <= ids.len(),
{
    let pred = other_trade(id);
    assert(trade_ids_without(ids, id) == ids.filter(pred));
    assert forall|i: int| 0 <= i < ids.filter(pred).len() implies {
        &&& #[trigger] ids.filter(pred)[i] != id
        &&& ids.contains(ids.filter(pred)[i])
    } by {
        assert(pred(ids.filter(pred)[i]));
        assert(ids.filter(pred).contains(ids.filter(pred)[i]));
        ids.lemma_filter_contains_rev(pred, ids.filter(pred)[i]);
    }
    assert forall|i: int| 0 <= i < ids.len() && ids[i] != id implies #[trigger] ids.filter(pred).contains(ids[i]) by {
        assert(pred(ids[i]));
    }
    if ids.filter(pred).contains(id) {
        let w = choose|w: int| 0 <= w < ids.filter(pred).len() && ids.filter(pred)[w] == id;
        assert(pred(ids.filter(pred)[w]));
    }
}

/// Each of the first `n` trade ids is listed exactly once: either among
/// the open ones or among the closed ones, never both, and neither list
/// repeats an id.
pub open spec fn listed_once(active: Seq<TradeId>, closed: Seq<TradeId>, n: nat) -> bool {
    &&& active.no_duplicates()
    &&& closed.no_duplicates()
    &&& forall|t: TradeId|
        #![trigger active.contains(t)]
        #![trigger closed.contains(t)]
        t.0 < n ==> (active.contains(t) != closed.contains(t))
}

/// The open trades have no exit yet; the closed ones have an exit price and
/// an exit bar.
pub open spec fn exits_recorded<P>(trades: Seq<Trade<P>>, active: Seq<TradeId>, closed: Seq<TradeId>) -> bool {
    &&& forall|i: int|
        0 <= i < active.len() ==> (#[trigger] trades[active[i].0 as int]).exit_price is None
            && trades[active[i].0 as int].exit_bar is None
    &&& forall|i: int|
        0 <= i < closed.len() ==> (#[trigger] trades[closed[i].0 as int]).exit_price is Some
            && trades[closed[i].0 as int].exit_bar is Some
}

/// A trade opened under the next id is listed among the open ones only.
pub proof fn lemma_listed_once_open(active: Seq<TradeId>, closed: Seq<TradeId>, n: nat)
    requires
        listed_once(active, closed, n),
        forall|i: int| 0 <= i < active.len() ==> (#[trigger] active[i]).0 < n,
        forall|i: int| 0 <= i < closed.len() ==> (#[trigger] closed[i]).0 < n,
        n < usize::MAX,
    ensures
        listed_once(active.push(TradeId(n as usize)), closed, n + 1),
{
    let id = TradeId(n as usize);
    assert(!active.contains(id)) by {
        if active.contains(id) {
            let w = choose|w: int| 0 <= w < active.len() && active[w] == id;
            assert(active[w].0 < n);
        }
    }
    assert(!closed.contains(id)) by {
        if closed.contains(id) {
            let w = choose|w: int| 0 <= w < closed.len() && closed[w] == id;
            assert(closed[w].0 < n);
        }
    }
    lemma_push_no_duplicates(active, id);
    assert forall|t: TradeId| t.0 < n + 1 implies (#[trigger] active.push(id).contains(t)) != closed.contains(t) by {
        if t == id {
            assert(active.push(id)[active.len() as int] == id);
        } else {
            if active.push(id).contains(t) {
                let w = choose|w: int| 0 <= w < active.push(id).len() && active.push(id)[w] == t;
                assert(active[w] == t);
            }
            if active.contains(t) {
                let w = choose|w: int| 0 <= w < active.len() && active[w] == t;
                assert(active.push(id)[w] == t);
            }
        }
    }
    assert forall|t: TradeId| t.0 < n + 1 implies active.push(id).contains(t) != (#[trigger] closed.contains(t)) by {
        assert(active.push(id).contains(t) != closed.contains(t));
    }
}

/// Leaving out an id that is not listed changes nothing.
pub proof fn lemma_without_absent(ids: Seq<OrderId>, id: OrderId)
    requires
        !ids.contains(id),
    ensures
        order_ids_without(ids, id) == ids,
    decreases ids.len(),
{
    reveal(Seq::filter);
    if ids.len() > 0 {
        let rest = ids.drop_last();
        assert(!rest.contains(id)) by {
            if rest.contains(id) {
                let w = choose|w: int| 0 <= w < rest.len() && rest[w] == id;
                assert(ids[w] == id);
            }
        }
        lemma_without_absent(rest, id);
        assert(ids.last() != id);
        assert(rest.push(ids.last()) == ids);
    }
}

/// The net signed units of the trades named by `ids`.
pub open spec fn net_units<P>(trades: Seq<Trade<P>>, ids: Seq<TradeId>) -> int
    decreases ids.len(),
{
    if ids.len() == 0 {
        0
    } else {
        net_units(trades, ids.drop_last()) + trades[ids.last().0 as int].size
    }
}

/// Naming one more trade adds its units.
pub proof fn lemma_net_push<P>(trades: Seq<Trade<P>>, ids: Seq<TradeId>, id: TradeId)
    ensures
        net_units(trades, ids.push(id)) == net_units(trades, ids) + trades[id.0 as int].size,
{
    assert(ids.push(id).drop_last() == ids);
}

/// The net units depend only on the sizes of the named trades.
pub proof fn lemma_net_same_sizes<P>(a: Seq<Trade<P>>, b: Seq<Trade<P>>, ids: Seq<TradeId>)
    requires
        forall|i: int| 0 <= i < ids.len() ==> #[trigger] a[ids[i].0 as int].size == b[ids[i].0 as int].size,
    ensures
        net_units(a, ids) == net_units(b, ids),
    decreases ids.len(),
{
    if ids.len() > 0 {
        let rest = ids.drop_last();
        assert forall|i: int| 0 <= i < rest.len() implies #[trigger] a[rest[i].0 as int].size == b[rest[i].0 as int].size by {
            assert(rest[i] == ids[i]);
        }
        lemma_net_same_sizes(a, b, rest);
        assert(a[ids[ids.len() - 1].0 as int].size == b[ids[ids.len() - 1].0 as int].size);
    }
}

/// Leaving out a trade that is named once takes its units away.
pub proof fn lemma_net_without<P>(trades: Seq<Trade<P>>, ids: Seq<TradeId>, id: TradeId)
    requires
        ids.no_duplicates(),
        ids.contains(id),
    ensures
        net_units(trades, trade_ids_without(ids, id)) == net_units(trades, ids) - trades[id.0 as int].size,
    decreases ids.len(),
{
    reveal(Seq::filter);
    let rest = ids.drop_last();
    let last = ids.last();
    assert(rest.no_duplicates()) by {
        assert forall|i: int, j: int| 0 <= i < rest.len() && 0 <= j < rest.len() && i != j implies rest[i] != rest[j] by {
            assert(rest[i] == ids[i] && rest[j] == ids[j]);
        }
    }
    assert(ids.filter(other_trade(id)) == if other_trade(id)(last) {
        rest.filter(other_trade(id)).push(last)
    } else {
        rest.filter(other_trade(id))
    });
    if last == id {
        assert(!rest.contains(id)) by {
            if rest.contains(id) {
                let w = choose|w: int| 0 <= w < rest.len() && rest[w] == id;
                assert(ids[w] == ids[ids.len() - 1]);
            }
        }
        lemma_trade_ids_absent(rest, id);
    } else {
        assert(rest.contains(id)) by {
            let w = choose|w: int| 0 <= w < ids.len() && ids[w] == id;
            assert(w != ids.len() - 1);
            assert(rest[w] == id);
        }
        lemma_net_without(trades, rest, id);
        lemma_net_push(trades, trade_ids_without(rest, id), last);
    }
}

/// Leaving out a trade id that is not named changes nothing.
pub proof fn lemma_trade_ids_absent(ids: Seq<TradeId>, id: TradeId)
    requires
        !ids.contains(id),
    ensures
        trade_ids_without(ids, id) == ids,
    decreases ids.len(),
{
    reveal(Seq::filter);
    if ids.len() > 0 {
        let rest = ids.drop_last();
        assert(!rest.contains(id)) by {
            if rest.contains(id) {
                let w = choose|w: int| 0 <= w < rest.len() && rest[w] == id;
                assert(ids[w] == id);
            }
        }
        lemma_trade_ids_absent(rest, id);
        assert(ids.last() != id);
        assert(rest.push(ids.last()) == ids);
    }
}

/// Changing the size of one trade that is named once changes the net by
/// the same amount.
pub proof fn lemma_net_resize<P>(a: Seq<Trade<P>>, b: Seq<Trade<P>>, ids: Seq<TradeId>, id: TradeId)
    requires
        ids.no_duplicates(),
        ids.contains(id),
        forall|i: int| 0 <= i < ids.len() && ids[i] != id ==> #[trigger] a[ids[i].0 as int].size == b[ids[i].0 as int].size,
    ensures
        net_units(b, ids) == net_units(a, ids) + b[id.0 as int].size - a[id.0 as int].size,
    decreases ids.len(),
{
    let rest = ids.drop_last();
    let last = ids.last();
    assert(rest.no_duplicates()) by {
        assert forall|i: int, j: int| 0 <= i < rest.len() && 0 <= j < rest.len() && i != j implies rest[i] != rest[j] by {
            assert(rest[i] == ids[i] && rest[j] == ids[j]);
        }
    }
    if last == id {
        assert forall|i: int| 0 <= i < rest.len() implies #[trigger] a[rest[i].0 as int].size == b[rest[i].0 as int].size by {
            assert(rest[i] == ids[i]);
            assert(ids[i] != ids[ids.len() - 1]);
        }
        lemma_net_same_sizes(a, b, rest);
    } else {
        assert(rest.contains(id)) by {
            let w = choose|w: int| 0 <= w < ids.len() && ids[w] == id;
            assert(w != ids.len() - 1);
            assert(rest[w] == id);
        }
        assert forall|i: int| 0 <= i < rest.len() && rest[i] != id implies #[trigger] a[rest[i].0 as int].size == b[rest[i].0 as int].size by {
            assert(rest[i] == ids[i]);
        }
        lemma_net_resize(a, b, rest, id);
        assert(a[ids[ids.len() - 1].0 as int].size == b[ids[ids.len() - 1].0 as int].size);
    }
}

/// A trade named by the id is on the other side than `is_long`.
pub open spec fn other_side<P>(trades: Seq<Trade<P>>, is_long: bool) -> spec_fn(TradeId) -> bool {
    |t: TradeId| (trades[t.0 as int].size > 0) != is_long
}

/// Of the trades `opposite` (in opening order), an open one is followed only
/// by open ones whose size is still that in `before`: a trade is closed or
/// reduced only once every trade before it is closed.
pub open spec fn oldest_first<P>(
    opposite: Seq<TradeId>,
    before: Seq<Trade<P>>,
    trades: Seq<Trade<P>>,
    active: Seq<TradeId>,
) -> bool {
    forall|k1: int, k2: int|
        0 <= k1 < k2 < opposite.len() && #[trigger] active.contains(opposite[k1]) ==> active.contains(#[trigger] opposite[k2])
            && trades[opposite[k2].0 as int].size == before[opposite[k2].0 as int].size
}

/// Trades of `opposite` that all stay open with the sizes they had are
/// consumed oldest first (none is).
pub proof fn lemma_oldest_first_untouched<P>(opposite: Seq<TradeId>, before: Seq<Trade<P>>, trades: Seq<Trade<P>>, active: Seq<TradeId>)
    requires
        forall|k: int| 0 <= k < opposite.len() ==> #[trigger] active.contains(opposite[k])
            && trades[opposite[k].0 as int].size == before[opposite[k].0 as int].size,
    ensures
        oldest_first(opposite, before, trades, active),
{
}

/// What is consumed oldest first stays so while the trades of `opposite`
/// keep their state.
pub proof fn lemma_oldest_first_kept<P>(
    opposite: Seq<TradeId>,
    before: Seq<Trade<P>>,
    trades: Seq<Trade<P>>,
    active: Seq<TradeId>,
    trades2: Seq<Trade<P>>,
    active2: Seq<TradeId>,
)
    requires
        oldest_first(opposite, before, trades, active),
        forall|k: int| 0 <= k < opposite.len() ==> (#[trigger] active2.contains(opposite[k]) <==> active.contains(opposite[k])),
        forall|k: int| 0 <= k < opposite.len() ==> #[trigger] trades2[opposite[k].0 as int] == trades[opposite[k].0 as int],
    ensures
        oldest_first(opposite, before, trades2, active2),
{
    assert forall|k1: int, k2: int|
        0 <= k1 < k2 < opposite.len() && #[trigger] active2.contains(opposite[k1]) implies active2.contains(#[trigger] opposite[k2])
            && trades2[opposite[k2].0 as int].size == before[opposite[k2].0 as int].size by {
        assert(active.contains(opposite[k1]));
        assert(active.contains(opposite[k2]));
        assert(trades2[opposite[k2].0 as int] == trades[opposite[k2].0 as int]);
    }
}

/// From `before` to `after`, no recorded entry or exit bar changes, the
/// trades of `before` that close record bar `b` as their exit, and every
/// added trade entered at bar `b` or left at bar `b`.
pub open spec fn bars_recorded<P>(before: Seq<Trade<P>>, after: Seq<Trade<P>>, b: usize) -> bool {
    &&& after.len() >= before.len()
    &&& forall|i: int|
        0 <= i < before.len() ==> {
            &&& #[trigger] after[i].entry_bar == before[i].entry_bar
            &&& before[i].exit_bar is Some ==> after[i].exit_bar == before[i].exit_bar
            &&& before[i].exit_bar is None && after[i].exit_bar is Some ==> after[i].exit_bar == Some(b)
        }
    &&& forall|i: int| before.len() <= i < after.len() ==> #[trigger] after[i].entry_bar == b || after[i].exit_bar == Some(b)
}

pub proof fn lemma_bars_recorded_trans<P>(a: Seq<Trade<P>>, m: Seq<Trade<P>>, z: Seq<Trade<P>>, b: usize)
    requires
        bars_recorded(a, m, b),
        bars_recorded(m, z, b),
    ensures
        bars_recorded(a, z, b),
{
    assert forall|i: int| 0 <= i < a.len() implies {
        &&& #[trigger] z[i].entry_bar == a[i].entry_bar
        &&& a[i].exit_bar is Some ==> z[i].exit_bar == a[i].exit_bar
        &&& a[i].exit_bar is None && z[i].exit_bar is Some ==> z[i].exit_bar == Some(b)
    } by {
        assert(m[i].entry_bar == a[i].entry_bar);
        assert(z[i].entry_bar == m[i].entry_bar);
    }
    assert forall|i: int| a.len() <= i < z.len() implies #[trigger] z[i].entry_bar == b || z[i].exit_bar == Some(b) by {
        if i < m.len() {
            assert(a.len() <= i < m.len());
            assert(m[i].entry_bar == b || m[i].exit_bar == Some(b));
            assert(z[i].entry_bar == m[i].entry_bar);
            assert(m[i].exit_bar is Some ==> z[i].exit_bar == m[i].exit_bar);
        } else {
            assert(m.len() <= i < z.len());
        }
    }
    assert(z.len() >= a.len());
}

/// `total` is the sum, in the order of `ids`, of the profit or loss at
/// `last` of the trades with those ids, each added with the number type's
/// addition to the sum of those before it (zero for none).
pub open spec fn pl_total<P: Scalar>(trades: Seq<Trade<P>>, ids: Seq<TradeId>, last: P, total: P) -> bool
    decreases ids.len(),
{
    if ids.len() == 0 {
        call_ensures(P::zero, (), total)
    } else {
        exists|before: P, pl: P|
            #![trigger call_ensures(P::plus, (before, pl), total)]
            pl_total(trades, ids.drop_last(), last, before) && call_ensures(
                Trade::<P>::pl,
                (&trades[ids.last().0 as int], last),
                pl,
            ) && call_ensures(P::plus, (before, pl), total)
    }
}

/// `appc` is the price at which an order is sized: the fill `price` moved
/// by the spread against the order's side (`is_long`), plus the commission
/// on the order's signed size `raw` at `price`, per unit (divided by `|raw|`).
spec fn sizing_price<P: Scalar, C: CommissionModel<P>, I: Clone>(
    b: Broker<P, C>,
    data: Data<P, I>,
    order: Order<P>,
    raw: P,
    price: P,
    is_long: bool,
    adj: P,
    fee: P,
    raw_abs: P,
    fee_per_unit: P,
    appc: P,
) -> bool {
    &&& call_ensures(Order::<P>::is_long, (&order,), is_long)
    &&& call_ensures(Broker::<P, C>::adjusted_price::<I>, (&b, is_long, &data, Some(price)), adj)
    &&& call_ensures(C::compute, (&b.commission_model(), raw, price), fee)
    &&& call_ensures(P::abs, (raw,), raw_abs)
    &&& call_ensures(P::divided_by, (fee, raw_abs), fee_per_unit)
    &&& call_ensures(P::plus, (adj, fee_per_unit), appc)
}

/// `n` is the number of units an order for fraction `f` of the margin
/// opens: `floor(margin_available * leverage * |f| / appc)`, negated when `f`
/// is negative, as a whole number (`-i64::MAX` for `i64::MIN`).
spec fn fraction_units<P: Scalar, C: CommissionModel<P>, I: Clone>(
    b: Broker<P, C>,
    data: Data<P, I>,
    f: P,
    appc: P,
    margin: P,
    levered: P,
    f_abs: P,
    budget: P,
    quotient: P,
    units: P,
    z: P,
    nonneg: bool,
    signed: P,
    k: i64,
    n: i64,
) -> bool {
    &&& call_ensures(Broker::<P, C>::margin_available::<I>, (&b, &data), margin)
    &&& call_ensures(P::times, (margin, b.leverage_value()), levered)
    &&& call_ensures(P::abs, (f,), f_abs)
    &&& call_ensures(P::times, (levered, f_abs), budget)
    &&& call_ensures(P::divided_by, (budget, appc), quotient)
    &&& call_ensures(P::floor, (quotient,), units)
    &&& call_ensures(P::zero, (), z)
    &&& call_ensures(P::ge, (f, z), nonneg)
    &&& nonneg ==> signed == units
    &&& !nonneg ==> call_ensures(P::negated, (units,), signed)
    &&& call_ensures(P::to_i64, (signed,), k)
    &&& k == i64::MIN ==> n == -i64::MAX
    &&& k != i64::MIN ==> n == k
}

/// `p` is the price at which limit order `o` fills on a bar that opens at
/// `open`: the lower of the two for a buy (`long`), the higher for a sell.
pub open spec fn limit_fill<P: Scalar>(o: Order<P>, open: P, long: bool, p: P) -> bool {
    &&& call_ensures(Order::<P>::is_long, (&o,), long)
    &&& long ==> call_ensures(P::minimum, (open, o.limit->0), p)
    &&& !long ==> call_ensures(P::maximum, (open, o.limit->0), p)
}

/// `p` is the price at which a market order of its own fills on the last
/// visible bar of `data`, which opens at `open`: the previous close when
/// trading on the close (`on_close`) and that close is a number, else `open`.
pub open spec fn market_fill<P: Scalar, I: Clone>(data: Data<P, I>, on_close: bool, open: P, p: P) -> bool {
    &&& !on_close ==> p == open
    &&& on_close ==> exists|prev: P, gap: bool|
        #![trigger call_ensures(P::is_nan, (prev,), gap)]
        (data.visible() >= 2 ==> prev == data.column(Field::Close)[data.visible() - 2]) && call_ensures(
            P::is_nan,
            (prev,),
            gap,
        ) && (!gap ==> p == prev) && (gap ==> p == open)
}

/// `entry` is fill price `p` of order `o` moved by `b`'s spread against the
/// order's side (`long`).
spec fn spread_fill<P: Scalar, C: CommissionModel<P>, I: Clone>(
    b: Broker<P, C>,
    data: Data<P, I>,
    o: Order<P>,
    p: P,
    long: bool,
    entry: P,
) -> bool {
    &&& call_ensures(Order::<P>::is_long, (&o,), long)
    &&& call_ensures(Broker::<P, C>::adjusted_price::<I>, (&b, long, &data, Some(p)), entry)
}

/// `total` is the margin that the trades with ids `ids` use at `last`: the
/// sum, in order and from zero, of each trade's value divided by `leverage`.
pub open spec fn margin_total<P: Scalar>(trades: Seq<Trade<P>>, ids: Seq<TradeId>, last: P, leverage: P, total: P) -> bool
    decreases ids.len(),
{
    if ids.len() == 0 {
        call_ensures(P::zero, (), total)
    } else {
        exists|before: P, value: P, share: P|
            #[trigger] margin_step(trades[ids.last().0 as int], last, leverage, before, value, share, total)
                && margin_total(trades, ids.drop_last(), last, leverage, before)
    }
}

/// One trade's margin `share` (its `value` at `last` over `leverage`) added
/// to `before`, giving `total`.
pub open spec fn margin_step<P: Scalar>(t: Trade<P>, last: P, leverage: P, before: P, value: P, share: P, total: P) -> bool {
    &&& call_ensures(Trade::<P>::value, (&t, last), value)
    &&& call_ensures(P::divided_by, (value, leverage), share)
    &&& call_ensures(P::plus, (before, share), total)
}

/// Leaving an id out keeps a list free of repeats.
pub proof fn lemma_without_no_duplicates(ids: Seq<TradeId>, id: TradeId)
    requires
        ids.no_duplicates(),
    ensures
        trade_ids_without(ids, id).no_duplicates(),
    decreases ids.len(),
{
    reveal(Seq::filter);
    if ids.len() > 0 {
        let rest = ids.drop_last();
        assert(rest.no_duplicates()) by {
            assert forall|i: int, j: int| 0 <= i < rest.len() && 0 <= j < rest.len() && i != j implies rest[i] != rest[j] by {
                assert(rest[i] == ids[i] && rest[j] == ids[j]);
            }
        }
        lemma_without_no_duplicates(rest, id);
        lemma_trade_ids_without(rest, id);
        let last = ids.last();
        assert(!rest.contains(last)) by {
            if rest.contains(last) {
                let w = choose|w: int| 0 <= w < rest.len() && rest[w] == last;
                assert(ids[w] == ids[ids.len() - 1]);
            }
        }
        assert(!trade_ids_without(rest, id).contains(last)) by {
            if trade_ids_without(rest, id).contains(last) {
                let w = choose|w: int| 0 <= w < trade_ids_without(rest, id).len() && trade_ids_without(rest, id)[w] == last;
                assert(rest.contains(trade_ids_without(rest, id)[w]));
            }
        }
        assert(ids.filter(other_trade(id)) == if other_trade(id)(last) {
            rest.filter(other_trade(id)).push(last)
        } else {
            rest.filter(other_trade(id))
        });
        let f = rest.filter(other_trade(id));
        if other_trade(id)(last) {
            assert forall|i: int, j: int| 0 <= i < f.push(last).len() && 0 <= j < f.push(last).len() && i != j implies f.push(last)[i] != f.push(last)[j] by {
                if i < f.len() && j < f.len() {
                } else if i == f.len() {
                    assert(f.push(last)[j] == f[j]);
                    assert(f.contains(f[j]));
                } else {
                    assert(f.push(last)[i] == f[i]);
                    assert(f.contains(f[i]));
                }
            }
        }
    }
}

/// Adding an id that is not listed keeps a list free of repeats.
pub proof fn lemma_push_no_duplicates(ids: Seq<TradeId>, id: TradeId)
    requires
        ids.no_duplicates(),
        !ids.contains(id),
    ensures
        ids.push(id).no_duplicates(),
{
    assert forall|i: int, j: int| 0 <= i < ids.push(id).len() && 0 <= j < ids.push(id).len() && i != j implies ids.push(id)[i] != ids.push(id)[j] by {
        if i < ids.len() && j < ids.len() {
        } else if i == ids.len() {
            assert(ids.contains(ids.push(id)[j]));
        } else {
            assert(ids.contains(ids.push(id)[i]));
        }
    }
}

fn without_order_id(ids: &Vec<OrderId>, id: OrderId) -> (r: Vec<OrderId>)
    ensures
        r@ == order_ids_without(ids@, id),
{
    let mut r: Vec<OrderId> = Vec::new();
    let mut i: usize = 0;
    while i < ids.len()
        invariant
            i <= ids@.len(),
            r@ == order_ids_without(ids@.subrange(0, i as int), id),
        decreases ids@.len() - i,
    {
        proof {
            reveal(Seq::filter);
            assert(ids@.subrange(0, i + 1).drop_last() == ids@.subrange(0, i as int));
        }
        if ids[i] != id {
            r.push(ids[i]);
        }
        i = i + 1;
    }
    proof {
        assert(ids@.subrange(0, ids@.len() as int) == ids@);
    }
    r
}

fn without_trade_id(ids: &Vec<TradeId>, id: TradeId) -> (r: Vec<TradeId>)
    ensures
        r@ == trade_ids_without(ids@, id),
{
    let mut r: Vec<TradeId> = Vec::new();
    let mut i: usize = 0;
    while i < ids.len()
        invariant
            i <= ids@.len(),
            r@ == trade_ids_without(ids@.subrange(0, i as int), id),
        decreases ids@.len() - i,
    {
        proof {
            reveal(Seq::filter);
            assert(ids@.subrange(0, i + 1).drop_last() == ids@.subrange(0, i as int));
        }
        if ids[i] != id {
            r.push(ids[i]);
        }
        i = i + 1;
    }
    proof {
        assert(ids@.subrange(0, ids@.len() as int) == ids@);
    }
    r
}

fn contains_trade_id(ids: &Vec<TradeId>, id: TradeId) -> (r: bool)
    ensures
        r == ids@.contains(id),
{
    let mut i: usize = 0;
    while i < ids.len()
        invariant
            i <= ids@.len(),
            forall|k: int| 0 <= k < i ==> ids@[k] != id,
        decreases ids@.len() - i,
    {
        if ids[i] == id {
            return true;
        }
        i = i + 1;
    }
    false
}

/// Simulates an account at a broker: pending orders, open and closed trades,
/// cash, and the equity at each bar.
pub struct Broker<P, C> {
    cash: P,
    commission: C,
    spread: P,
    leverage: P,
    trade_on_close: bool,
    hedging: bool,
    exclusive_orders: bool,
    orders_by_id: OrderTable<P>,
    /// Pending orders, in the order in which they are matched. SL orders are
    /// inserted at the front so that they are matched before other queued
    /// orders within the same bar.
    order_queue: Vec<OrderId>,
    trades_by_id: Vec<Trade<P>>,
    active_trade_ids: Vec<TradeId>,
    closed_trade_ids: Vec<TradeId>,
    /// The equity at the end of each bar, once the bar has been simulated.
    equity_curve: Vec<Option<P>>,
    next_order_id: OrderId,
    next_trade_id: TradeId,
    current_bar: usize,
    /// Non-fatal runtime warnings (insufficient margin, canceled orders,
    /// dubious same-bar SL/TP fills, ...), collected instead of printed so
    /// library consumers can decide what to do with them.
    pub warnings: Vec<Warning<P>>,
}

impl<P: Scalar, C: CommissionModel<P>> Broker<P, C> {
    /// The pending orders' ids, in matching order.
    pub closed spec fn pending(self) -> Seq<OrderId> {
        self.order_queue@
    }

    /// The pending order with id `id`, if there is one.
    pub closed spec fn order_at(self, id: OrderId) -> Option<Order<P>> {
        self.orders_by_id.spec_get(id)
    }

    /// Every trade ever opened, by id.
    pub closed spec fn all_trades(self) -> Seq<Trade<P>> {
        self.trades_by_id@
    }

    /// The ids of the open trades, in the order in which they opened.
    pub closed spec fn active(self) -> Seq<TradeId> {
        self.active_trade_ids@
    }

    /// The ids of the closed trades, in the order in which they closed.
    pub closed spec fn closed_ids(self) -> Seq<TradeId> {
        self.closed_trade_ids@
    }

    /// The equity recorded for each bar (`None` for a bar not simulated yet).
    pub closed spec fn curve(self) -> Seq<Option<P>> {
        self.equity_curve@
    }

    /// The id that the next order will get.
    pub closed spec fn next_order(self) -> usize {
        self.next_order_id.0
    }

    pub closed spec fn cash_value(self) -> P {
        self.cash
    }

    pub closed spec fn exclusive(self) -> bool {
        self.exclusive_orders
    }

    pub closed spec fn hedges(self) -> bool {
        self.hedging
    }

    pub closed spec fn commission_model(self) -> C {
        self.commission
    }

    pub closed spec fn leverage_value(self) -> P {
        self.leverage
    }

    /// Market orders that close no SL or TP fill at the previous bar's close.
    pub closed spec fn on_close(self) -> bool {
        self.trade_on_close
    }

    /// The bar at which a market order that is no SL or TP order fills: the
    /// previous one (none before the first) when trading on the close, else
    /// the current one.
    pub closed spec fn market_bar(self) -> usize {
        if self.trade_on_close && self.current_bar >= 1 {
            (self.current_bar - 1) as usize
        } else {
            self.current_bar
        }
    }

    /// This broker with its current bar set to `bar`.
    pub closed spec fn with_bar(self, bar: usize) -> Self {
        Broker { current_bar: bar, ..self }
    }

    /// The only pending order is an order of its own with no stop, SL or TP
    /// price, and no trade is open.
    pub closed spec fn lone_order(self) -> bool {
        &&& self.order_queue@.len() == 1
        &&& self.orders_by_id.spec_get(self.order_queue@[0]) matches Some(o) && {
            &&& o.parent_trade is None
            &&& o.stop is None
            &&& o.sl is None
            &&& o.tp is None
        }
        &&& self.active_trade_ids@.len() == 0
    }

    /// `entry` is where the lone order of `self` opens a trade on the last
    /// visible bar of `data`, moved by the spread: a limit order at the lower
    /// (buy) or the higher (sell) of the bar's open and its limit price; a
    /// market order at the bar's open, or at the previous close when trading
    /// on the close and that close is a number.
    pub closed spec fn lone_entry<I: Clone>(self, data: Data<P, I>, entry: P) -> bool {
        let o = self.orders_by_id.spec_get(self.order_queue@[0])->0;
        let open = data.column(Field::Open)[data.visible() - 1];
        if o.limit is Some {
            exists|long: bool, p: P, long2: bool|
                #[trigger] limit_fill(o, open, long, p) && #[trigger] spread_fill(self, data, o, p, long2, entry)
        } else {
            exists|p: P, long2: bool|
                #[trigger] market_fill(data, self.trade_on_close, open, p) && #[trigger] spread_fill(self, data, o, p, long2, entry)
        }
    }

    /// Every pending order is a market order of its own without SL and TP,
    /// or a close request.
    pub closed spec fn only_market_orders(self) -> bool {
        forall|q: OrderId|
            #![trigger self.order_queue@.contains(q)]
            self.order_queue@.contains(q) ==> (self.market_own(q) && self.orders_by_id.spec_get(q)->0.sl is None
                && self.orders_by_id.spec_get(q)->0.tp is None) || self.close_request(q)
    }

    /// The warnings recorded so far.
    pub closed spec fn notes(self) -> Seq<Warning<P>> {
        self.warnings@
    }

    /// The number of stored orders that close no trade.
    pub closed spec fn standalone_orders(self) -> nat {
        standalone_count(self.orders_by_id@)
    }

    /// The bar being simulated.
    pub closed spec fn bar(self) -> usize {
        self.current_bar
    }

    /// The broker's bookkeeping is consistent: every queued order is stored,
    /// trades are stored under their ids, every trade has a valid size, the
    /// open and closed ids name stored trades, and every order that closes a
    /// trade does so in whole units of the other sign.
    pub closed spec fn wf(self) -> bool {
        &&& forall|i: int|
            0 <= i < self.order_queue@.len() ==> #[trigger] self.orders_by_id.spec_get(
                self.order_queue@[i],
            ) is Some
        &&& self.next_trade_id.0 == self.trades_by_id@.len()
        &&& forall|i: int|
            0 <= i < self.trades_by_id@.len() ==> (#[trigger] self.trades_by_id@[i]).id == TradeId(
                i as usize,
            )
        &&& forall|i: int|
            0 <= i < self.trades_by_id@.len() ==> valid_size(#[trigger] self.trades_by_id@[i].size)
        &&& forall|i: int|
            0 <= i < self.active_trade_ids@.len() ==> (#[trigger] self.active_trade_ids@[i]).0
                < self.trades_by_id@.len()
        &&& forall|i: int|
            0 <= i < self.closed_trade_ids@.len() ==> (#[trigger] self.closed_trade_ids@[i]).0
                < self.trades_by_id@.len()
        &&& forall|k: OrderId|
            #[trigger] self.orders_by_id.spec_get(k) matches Some(o) ==> contingent_ok(
                o,
                self.trades_by_id@,
            )
        &&& forall|k: OrderId| #[trigger] self.orders_by_id.spec_get(k) is Some ==> k.0 < self.next_order_id.0
        &&& forall|k: OrderId| #[trigger] self.orders_by_id.spec_get(k) matches Some(o) ==> o.id == k
        &&& forall|i: int|
            0 <= i < self.trades_by_id@.len() ==> links_below(#[trigger] self.trades_by_id@[i], self.next_order_id.0)
        &&& forall|i: int|
            0 <= i < self.trades_by_id@.len() ==> links_back(#[trigger] self.trades_by_id@[i], i, self.orders_by_id)
        &&& listed_once(self.active_trade_ids@, self.closed_trade_ids@, self.trades_by_id@.len())
        &&& exits_recorded(self.trades_by_id@, self.active_trade_ids@, self.closed_trade_ids@)
    }

    /// Every trade that the broker has opened is either open or closed,
    /// never both, and neither list names a trade twice; an open trade has
    /// no exit yet, and a closed one has an exit price and an exit bar.
    pub proof fn lemma_open_or_closed(self, t: TradeId)
        requires
            self.wf(),
            t.0 < self.all_trades().len(),
        ensures
            self.active().contains(t) != self.closed_ids().contains(t),
            self.active().no_duplicates(),
            self.closed_ids().no_duplicates(),
            self.active().contains(t) ==> self.all_trades()[t.0 as int].exit_price is None
                && self.all_trades()[t.0 as int].exit_bar is None,
            self.closed_ids().contains(t) ==> self.all_trades()[t.0 as int].exit_price is Some
                && self.all_trades()[t.0 as int].exit_bar is Some,
            self.all_trades()[t.0 as int].id == t,
    {
        assert(self.active_trade_ids@.contains(t) != self.closed_trade_ids@.contains(t));
        if self.active_trade_ids@.contains(t) {
            let w = choose|w: int| 0 <= w < self.active_trade_ids@.len() && self.active_trade_ids@[w] == t;
            assert(self.trades_by_id@[self.active_trade_ids@[w].0 as int].exit_price is None);
        }
        if self.closed_trade_ids@.contains(t) {
            let w = choose|w: int| 0 <= w < self.closed_trade_ids@.len() && self.closed_trade_ids@[w] == t;
            assert(self.trades_by_id@[self.closed_trade_ids@[w].0 as int].exit_price is Some);
        }
    }

    /// Every pending order is stored, every stored order is stored under its
    /// own id, and that id is below the next one to be handed out; so a new
    /// order never takes the id of one that is stored.
    pub proof fn lemma_order_ids(self, k: OrderId)
        requires
            self.wf(),
        ensures
            self.pending().contains(k) ==> self.order_at(k) is Some,
            self.order_at(k) matches Some(o) ==> o.id == k && k.0 < self.next_order(),
            self.order_at(OrderId(self.next_order())) is None,
    {
        if self.order_queue@.contains(k) {
            let w = choose|w: int| 0 <= w < self.order_queue@.len() && self.order_queue@[w] == k;
            assert(self.orders_by_id.spec_get(self.order_queue@[w]) is Some);
        }
        assert(self.orders_by_id.spec_get(OrderId(self.next_order_id.0)) is None);
    }

    /// The `k`-th open trade is stored under its id.
    pub(crate) proof fn lemma_active_ids(self, k: int)
        requires
            self.wf(),
            0 <= k < self.active().len(),
        ensures
            self.active()[k].0 < self.all_trades().len(),
            self.all_trades()[self.active()[k].0 as int].id == self.active()[k],
    {
        assert(self.active_trade_ids@[k].0 < self.trades_by_id@.len());
        assert(self.trades_by_id@[self.active_trade_ids@[k].0 as int].id == TradeId(self.active_trade_ids@[k].0));
    }

    /// Canceling the order that was just placed undoes the placement: when
    /// `placed` is `self` after an order got the next id and was queued last,
    /// and `canceled` is `placed` after that order was canceled, the pending
    /// orders and the stored orders are those of `self` again.
    pub proof fn lemma_cancel_undoes_placement(self, placed: Self, canceled: Self, id: OrderId)
        requires
            self.wf(),
            id == OrderId(self.next_order()),
            placed.pending() == self.pending().push(id),
            forall|k: OrderId| k != id ==> #[trigger] placed.order_at(k) == self.order_at(k),
            canceled.pending() == order_ids_without(placed.pending(), id),
            forall|k: OrderId| #[trigger] canceled.order_at(k) == if k == id {
                None
            } else {
                placed.order_at(k)
            },
        ensures
            canceled.pending() == self.pending(),
            forall|k: OrderId| #[trigger] canceled.order_at(k) == self.order_at(k),
    {
        assert(!self.order_queue@.contains(id)) by {
            if self.order_queue@.contains(id) {
                let w = choose|w: int| 0 <= w < self.order_queue@.len() && self.order_queue@[w] == id;
                assert(self.orders_by_id.spec_get(self.order_queue@[w]) is Some);
            }
        }
        lemma_without_absent(self.order_queue@, id);
        assert(self.order_queue@.push(id).filter(other_order(id)) == self.order_queue@.filter(other_order(id))) by {
            reveal(Seq::filter);
            assert(self.order_queue@.push(id).drop_last() == self.order_queue@);
        }
        assert forall|k: OrderId| #[trigger] canceled.order_at(k) == self.order_at(k) by {
            if k == id {
                assert(self.orders_by_id.spec_get(id) is None);
            }
        }
    }

    /// A broker with the configured cash and no orders or trades, recording
    /// the equity of `n_bars` bars. Refused when the cash is not positive or
    /// the margin is outside `(0, 1]`.
    pub fn new(config: BrokerConfig<P, C>, n_bars: usize) -> (r: BtResult<Self>)
        ensures
            r matches Ok(b) ==> {
                &&& b.wf()
                &&& b.pending().len() == 0
                &&& b.all_trades().len() == 0
                &&& b.active().len() == 0
                &&& b.closed_ids().len() == 0
                &&& b.curve().len() == n_bars
                &&& forall|i: int| 0 <= i < n_bars ==> #[trigger] b.curve()[i] is None
                &&& b.next_order() == 0
                &&& b.cash_value() == config.cash
                &&& b.exclusive() == config.exclusive_orders
                &&& b.hedges() == config.hedging
                &&& b.notes().len() == 0
            },
            r matches Err(e) ==> e is InvalidParameter,
    {
        if config.cash.le(P::zero()) {
            return Err(
                BacktestError::InvalidParameter(
                    "cash should be > 0, got ".to_owned().concat(config.cash.to_text().as_str()),
                ),
            );
        }
        if !(P::zero().lt(config.margin) && config.margin.le(P::one())) {
            return Err(
                BacktestError::InvalidParameter(
                    "margin should be between 0 and 1, got ".to_owned().concat(
                        config.margin.to_text().as_str(),
                    ),
                ),
            );
        }
        let mut equity_curve: Vec<Option<P>> = Vec::with_capacity(n_bars);
        let mut i: usize = 0;
        while i < n_bars
            invariant
                i <= n_bars,
                equity_curve@.len() == i,
                forall|k: int| 0 <= k < i ==> #[trigger] equity_curve@[k] is None,
            decreases n_bars - i,
        {
            equity_curve.push(None);
            i = i + 1;
        }
        Ok(Broker {
            cash: config.cash,
            commission: config.commission,
            spread: config.spread,
            leverage: P::one().divided_by(config.margin),
            trade_on_close: config.trade_on_close,
            hedging: config.hedging,
            exclusive_orders: config.exclusive_orders,
            orders_by_id: OrderTable::with_capacity(n_bars),
            order_queue: Vec::new(),
            trades_by_id: Vec::new(),
            active_trade_ids: Vec::new(),
            closed_trade_ids: Vec::new(),
            equity_curve,
            next_order_id: OrderId(0),
            next_trade_id: TradeId(0),
            current_bar: 0,
            warnings: Vec::new(),
        })
    }

    pub fn cash(&self) -> (r: P)
        ensures
            r == self.cash_value(),
    {
        self.cash
    }

    /// The pending orders, in matching order.
    pub fn orders(&self) -> (r: Vec<Order<P>>)
        requires
            self.wf(),
        ensures
            r@.len() == self.pending().len(),
            forall|i: int|
                0 <= i < r@.len() ==> Some(#[trigger] r@[i]) == self.order_at(self.pending()[i]),
    {
        let mut r: Vec<Order<P>> = Vec::new();
        let mut i: usize = 0;
        while i < self.order_queue.len()
            invariant
                self.wf(),
                i <= self.order_queue@.len(),
                r@.len() == i,
                forall|k: int|
                    0 <= k < i ==> Some(#[trigger] r@[k]) == self.orders_by_id.spec_get(
                        self.order_queue@[k],
                    ),
            decreases self.order_queue@.len() - i,
        {
            let id = self.order_queue[i];
            assert(self.orders_by_id.spec_get(self.order_queue@[i as int]) is Some);
            match self.orders_by_id.get(id) {
                Some(o) => {
                    r.push(o.duplicate());
                },
                None => {},
            }
            i = i + 1;
        }
        r
    }

    fn trades_named(&self, ids: &Vec<TradeId>) -> (r: Vec<Trade<P>>)
        requires
            forall|i: int| 0 <= i < ids@.len() ==> (#[trigger] ids@[i]).0 < self.trades_by_id@.len(),
        ensures
            r@.len() == ids@.len(),
            forall|i: int|
                0 <= i < r@.len() ==> #[trigger] r@[i] == self.trades_by_id@[ids@[i].0 as int],
    {
        let mut r: Vec<Trade<P>> = Vec::new();
        let mut i: usize = 0;
        while i < ids.len()
            invariant
                forall|k: int| 0 <= k < ids@.len() ==> (#[trigger] ids@[k]).0 < self.trades_by_id@.len(),
                i <= ids@.len(),
                r@.len() == i,
                forall|k: int|
                    0 <= k < i ==> #[trigger] r@[k] == self.trades_by_id@[ids@[k].0 as int],
            decreases ids@.len() - i,
        {
            r.push(self.trades_by_id[ids[i].0].duplicate());
            i = i + 1;
        }
        r
    }

    /// The open trades, in the order in which they opened.
    pub fn trades(&self) -> (r: Vec<Trade<P>>)
        requires
            self.wf(),
        ensures
            r@.len() == self.active().len(),
            forall|i: int|
                0 <= i < r@.len() ==> #[trigger] r@[i] == self.all_trades()[self.active()[i].0 as int],
    {
        self.trades_named(&self.active_trade_ids)
    }

    /// The closed trades, in the order in which they closed.
    pub fn closed_trades(&self) -> (r: Vec<Trade<P>>)
        requires
            self.wf(),
        ensures
            r@.len() == self.closed_ids().len(),
            forall|i: int|
                0 <= i < r@.len() ==> #[trigger] r@[i] == self.all_trades()[self.closed_ids()[i].0 as int],
    {
        self.trades_named(&self.closed_trade_ids)
    }

    /// Moves the closed trades out of the broker, in the order of their ids;
    /// the broker keeps no trade afterwards.
    pub fn take_closed_trades(&mut self) -> (r: Vec<Trade<P>>)
        requires
            old(self).wf(),
        ensures
            r@ == old(self).all_trades().filter(named_in(old(self).closed_ids())),
            forall|i: int| 0 <= i < r@.len() ==> (#[trigger] r@[i]).exit_price is Some && r@[i].exit_bar is Some,
            final(self).all_trades().len() == 0,
            final(self).cash_value() == old(self).cash_value(),
            final(self).curve() == old(self).curve(),
            final(self).notes() == old(self).notes(),
    {
        let n = self.trades_by_id.len();
        let mut is_closed: Vec<bool> = Vec::with_capacity(n);
        let mut i: usize = 0;
        while i < n
            invariant
                n == self.trades_by_id@.len(),
                i <= n,
                is_closed@.len() == i,
                forall|k: int| 0 <= k < i ==> !#[trigger] is_closed@[k],
            decreases n - i,
        {
            is_closed.push(false);
            i = i + 1;
        }
        let mut j: usize = 0;
        while j < self.closed_trade_ids.len()
            invariant
                self.wf(),
                n == self.trades_by_id@.len(),
                j <= self.closed_trade_ids@.len(),
                is_closed@.len() == n,
                forall|k: int|
                    0 <= k < n ==> (#[trigger] is_closed@[k] <==> self.closed_trade_ids@.subrange(
                        0,
                        j as int,
                    ).contains(TradeId(k as usize))),
            decreases self.closed_trade_ids@.len() - j,
        {
            let id = self.closed_trade_ids[j];
            assert(id.0 < n);
            is_closed.set(id.0, true);
            assert forall|k: int| 0 <= k < n implies (#[trigger] is_closed@[k]
                <==> self.closed_trade_ids@.subrange(0, j + 1).contains(TradeId(k as usize))) by {
                let prev = self.closed_trade_ids@.subrange(0, j as int);
                assert(self.closed_trade_ids@.subrange(0, j + 1) == prev.push(id));
                if k == id.0 {
                    assert(prev.push(id)[j as int] == TradeId(k as usize));
                } else {
                    if prev.push(id).contains(TradeId(k as usize)) {
                        let w = choose|w: int| 0 <= w < prev.push(id).len() && prev.push(id)[w] == TradeId(k as usize);
                        assert(w < j);
                        assert(prev[w] == TradeId(k as usize));
                    }
                    if prev.contains(TradeId(k as usize)) {
                        let w = choose|w: int| 0 <= w < prev.len() && prev[w] == TradeId(k as usize);
                        assert(prev.push(id)[w] == TradeId(k as usize));
                    }
                }
            }
            j = j + 1;
        }
        assert(self.closed_trade_ids@.subrange(0, j as int) == self.closed_trade_ids@);
        let ghost all = self.trades_by_id@;
        let ghost closed = self.closed_trade_ids@;
        let ghost keep = named_in::<P>(closed);
        let mut all_trades: Vec<Trade<P>> = Vec::new();
        std::mem::swap(&mut all_trades, &mut self.trades_by_id);
        self.next_trade_id = TradeId(0);
        let mut r: Vec<Trade<P>> = Vec::new();
        let mut k: usize = 0;
        while k < n
            invariant
                all_trades@ == all,
                n == all.len(),
                k <= n,
                is_closed@.len() == n,
                forall|m: int| 0 <= m < n ==> (#[trigger] is_closed@[m] <==> closed.contains(TradeId(m as usize))),
                forall|m: int| 0 <= m < n ==> (#[trigger] all[m]).id == TradeId(m as usize),
                keep == named_in::<P>(closed),
                r@ == all.subrange(0, k as int).filter(keep),
                forall|w: int| 0 <= w < closed.len() ==> (#[trigger] all[closed[w].0 as int]).exit_price is Some
                    && all[closed[w].0 as int].exit_bar is Some,
                forall|m: int| 0 <= m < r@.len() ==> (#[trigger] r@[m]).exit_price is Some && r@[m].exit_bar is Some,
            decreases n - k,
        {
            proof {
                reveal(Seq::filter);
                assert(all.subrange(0, k + 1).drop_last() == all.subrange(0, k as int));
                assert(all[k as int].id == TradeId(k as usize));
                assert(all.subrange(0, k + 1).last() == all[k as int]);
                assert(is_closed@[k as int] <==> closed.contains(TradeId(k)));
            }
            if is_closed[k] {
                proof {
                    let w = choose|w: int| 0 <= w < closed.len() && closed[w] == TradeId(k);
                    assert(all[closed[w].0 as int].exit_price is Some);
                }
                r.push(all_trades[k].duplicate());
            }
            k = k + 1;
        }
        assert(all.subrange(0, n as int) == all);
        r
    }

    pub fn equity_curve(&self) -> (r: &[Option<P>])
        ensures
            r@ == self.curve(),
    {
        self.equity_curve.as_slice()
    }

    /// Moves the recorded equity out of the broker.
    pub fn take_equity_curve(&mut self) -> (r: Vec<Option<P>>)
        ensures
            r@ == old(self).curve(),
            final(self).curve().len() == 0,
            final(self).wf() == old(self).wf(),
            final(self).cash_value() == old(self).cash_value(),
            final(self).all_trades() == old(self).all_trades(),
            final(self).active() == old(self).active(),
            final(self).closed_ids() == old(self).closed_ids(),
            final(self).notes() == old(self).notes(),
    {
        let mut r: Vec<Option<P>> = Vec::new();
        std::mem::swap(&mut r, &mut self.equity_curve);
        proof {
            self.lemma_wf_without_records(*old(self));
        }
        r
    }

    /// Well-formedness does not depend on the equity record or the warnings.
    proof fn lemma_wf_without_records(self, other: Self)
        requires
            self.orders_by_id == other.orders_by_id,
            self.order_queue@ == other.order_queue@,
            self.trades_by_id@ == other.trades_by_id@,
            self.active_trade_ids@ == other.active_trade_ids@,
            self.closed_trade_ids@ == other.closed_trade_ids@,
            self.next_order_id == other.next_order_id,
            self.next_trade_id == other.next_trade_id,
        ensures
            self.wf() == other.wf(),
    {
    }

    /// The warnings recorded so far, as held in the `warnings` field.
    pub fn recorded_warnings(&self) -> (r: &[Warning<P>])
        ensures
            r@ == self.notes(),
    {
        self.warnings.as_slice()
    }

    /// Moves the recorded warnings out of the broker.
    pub fn take_warnings(&mut self) -> (r: Vec<Warning<P>>)
        ensures
            r@ == old(self).notes(),
            final(self).notes().len() == 0,
            final(self).wf() == old(self).wf(),
            final(self).cash_value() == old(self).cash_value(),
            final(self).all_trades() == old(self).all_trades(),
            final(self).closed_ids() == old(self).closed_ids(),
    {
        let mut r: Vec<Warning<P>> = Vec::new();
        std::mem::swap(&mut r, &mut self.warnings);
        proof {
            self.lemma_wf_without_records(*old(self));
        }
        r
    }

    /// The net of the open trades at the last visible close.
    pub fn position<I: Clone>(&self, data: &Data<P, I>) -> Position<P>
        requires
            self.wf(),
            data.wf(),
    {
        let last_price = self.last_price(data);
        Position::from_trades(&self.trades_by_id, &self.active_trade_ids, last_price)
    }

    /// The last visible close (not a number when no bar is visible).
    pub fn last_price<I: Clone>(&self, data: &Data<P, I>) -> (r: P)
        requires
            data.wf(),
        ensures
            data.visible() > 0 ==> r == data.column(Field::Close)[data.visible() - 1],
    {
        match data.at(Field::Close, -1) {
            Some(p) => p,
            None => P::nan(),
        }
    }

    /// `price` (or the last close) moved by the spread against the trader.
    fn adjusted_price<I: Clone>(&self, is_long: bool, data: &Data<P, I>, price: Option<P>) -> (r: P)
        requires
            data.wf(),
        ensures
            exists|spread: P, one: P, factor: P, base: P|
                #![trigger call_ensures(P::plus, (one, spread), factor), call_ensures(P::times, (base, factor), r)]
                (is_long ==> spread == self.spread) && (!is_long ==> call_ensures(P::negated, (self.spread,), spread))
                    && (price matches Some(p) ==> base == p) && (price is None && data.visible() > 0 ==> base
                    == data.column(Field::Close)[data.visible() - 1]) && call_ensures(P::one, (), one)
                    && call_ensures(P::plus, (one, spread), factor) && call_ensures(P::times, (base, factor), r),
    {
        let negate = P::negated;
        let unit = P::one;
        let sum_of = P::plus;
        let product = P::times;
        let spread = if is_long {
            self.spread
        } else {
            negate(self.spread)
        };
        let base = match price {
            Some(p) => p,
            None => self.last_price(data),
        };
        let one = unit();
        let factor = sum_of(one, spread);
        product(base, factor)
    }

    /// Cash plus the profit or loss of the open trades at the last close.
    pub fn equity<I: Clone>(&self, data: &Data<P, I>) -> (r: P)
        requires
            self.wf(),
            data.wf(),
        ensures
            exists|last: P, total: P|
                (data.visible() > 0 ==> last == data.column(Field::Close)[data.visible() - 1]) && #[trigger] pl_total(
                    self.all_trades(),
                    self.active(),
                    last,
                    total,
                ) && call_ensures(P::plus, (self.cash_value(), total), r),
    {
        let last = self.last_price(data);
        let zero = P::zero;
        let plus = P::plus;
        let pl_at = Trade::<P>::pl;
        let mut sum = zero();
        let mut i: usize = 0;
        while i < self.active_trade_ids.len()
            invariant
                self.wf(),
                i <= self.active_trade_ids@.len(),
                pl_total(self.trades_by_id@, self.active_trade_ids@.take(i as int), last, sum),
            decreases self.active_trade_ids@.len() - i,
        {
            let id = self.active_trade_ids[i];
            let ghost before = sum;
            let pl = pl_at(&self.trades_by_id[id.0], last);
            sum = plus(sum, pl);
            proof {
                let ids = self.active_trade_ids@.take(i + 1);
                assert(ids.drop_last() == self.active_trade_ids@.take(i as int));
                assert(ids.last() == id);
                assert(pl_total(self.trades_by_id@, ids, last, sum));
            }
            i = i + 1;
        }
        proof {
            assert(self.active_trade_ids@.take(i as int) == self.active_trade_ids@);
            assert(pl_total(self.all_trades(), self.active(), last, sum));
        }
        plus(self.cash, sum)
    }

    /// Equity less the margin that the open trades use, and at least zero.
    pub fn margin_available<I: Clone>(&self, data: &Data<P, I>) -> (r: P)
        requires
            self.wf(),
            data.wf(),
        ensures
            exists|last: P, used: P, equity: P, free: P, z: P|
                #![trigger margin_total(self.all_trades(), self.active(), last, self.leverage_value(), used), call_ensures(P::minus, (equity, used), free), call_ensures(P::maximum, (free, z), r)]
                (data.visible() > 0 ==> last == data.column(Field::Close)[data.visible() - 1]) && margin_total(
                    self.all_trades(),
                    self.active(),
                    last,
                    self.leverage_value(),
                    used,
                ) && call_ensures(Broker::<P, C>::equity::<I>, (self, data), equity) && call_ensures(
                    P::minus,
                    (equity, used),
                    free,
                ) && call_ensures(P::zero, (), z) && call_ensures(P::maximum, (free, z), r),
    {
        let last = self.last_price(data);
        let zero = P::zero;
        let divide = P::divided_by;
        let sum_of = P::plus;
        let subtract = P::minus;
        let larger = P::maximum;
        let value_at = Trade::<P>::value;
        let equity_of = Self::equity::<I>;
        let mut margin_used = zero();
        let mut i: usize = 0;
        while i < self.active_trade_ids.len()
            invariant
                self.wf(),
                i <= self.active_trade_ids@.len(),
                margin_total(self.trades_by_id@, self.active_trade_ids@.take(i as int), last, self.leverage, margin_used),
            decreases self.active_trade_ids@.len() - i,
        {
            let id = self.active_trade_ids[i];
            let ghost before = margin_used;
            let value = value_at(&self.trades_by_id[id.0], last);
            let share = divide(value, self.leverage);
            margin_used = sum_of(margin_used, share);
            proof {
                let ids = self.active_trade_ids@.take(i + 1);
                assert(ids.drop_last() == self.active_trade_ids@.take(i as int));
                assert(ids.last() == id);
                assert(margin_step(self.trades_by_id@[id.0 as int], last, self.leverage, before, value, share, margin_used));
            }
            i = i + 1;
        }
        proof {
            assert(self.active_trade_ids@.take(i as int) == self.active_trade_ids@);
        }
        let equity = equity_of(self, data);
        let free = subtract(equity, margin_used);
        let z = zero();
        let r = larger(free, z);
        proof {
            assert(margin_total(self.all_trades(), self.active(), last, self.leverage_value(), margin_used));
        }
        r
    }

    /// A request to close (part of) trade `t`, a trade of `size` units, is
    /// pending: in whole units of the other sign.
    pub closed spec fn closing_pending(self, t: TradeId, size: i64) -> bool {
        exists|q: OrderId|
            #![trigger self.close_request(q)]
            self.close_request(q) && self.orders_by_id.spec_get(q)->0.parent_trade == Some(t)
                && (self.orders_by_id.spec_get(q)->0.size matches OrderSize::Units(u) && opposed(u, size))
    }

    /// A close request stays pending while the queue only grows and the
    /// queued orders and the trades stay as they are.
    proof fn lemma_closing_kept(self, before: Self, t: TradeId, size: i64)
        requires
            before.closing_pending(t, size),
            forall|q: OrderId| #[trigger] before.order_queue@.contains(q) ==> self.order_queue@.contains(q)
                && self.orders_by_id.spec_get(q) == before.orders_by_id.spec_get(q),
            self.trades_by_id@ == before.trades_by_id@,
        ensures
            self.closing_pending(t, size),
    {
        let q = choose|q: OrderId|
            #![trigger before.close_request(q)]
            before.close_request(q) && before.orders_by_id.spec_get(q)->0.parent_trade == Some(t)
                && (before.orders_by_id.spec_get(q)->0.size matches OrderSize::Units(u) && opposed(u, size));
        assert(before.order_queue@.contains(q));
        assert(self.order_queue@.contains(q));
        assert(self.close_request(q));
    }

    /// A pending request to close trade `t` is a close request, one that a
    /// successful `advance` settles (`close_taken`), in whole units of the
    /// other sign than `size`.
    pub proof fn lemma_closing_is_request(self, t: TradeId, size: i64)
        requires
            self.closing_pending(t, size),
        ensures
            exists|q: OrderId|
                #[trigger] self.close_request(q) && (self.order_at(q) matches Some(o) && o.parent_trade == Some(t)
                    && (o.size matches OrderSize::Units(u) && opposed(u, size))),
    {
        let q = choose|q: OrderId|
            #![trigger self.close_request(q)]
            self.close_request(q) && self.orders_by_id.spec_get(q)->0.parent_trade == Some(t)
                && (self.orders_by_id.spec_get(q)->0.size matches OrderSize::Units(u) && opposed(u, size));
        assert(self.close_request(q));
    }

    /// Whether `order_id` is the SL or TP order of the trade that it closes.
    pub closed spec fn is_bracket(self, order_id: OrderId) -> bool {
        self.orders_by_id.spec_get(order_id) matches Some(o) && o.parent_trade matches Some(t)
            && t.0 < self.trades_by_id@.len() && (self.trades_by_id@[t.0 as int].sl_order == Some(
            order_id,
        ) || self.trades_by_id@[t.0 as int].tp_order == Some(order_id))
    }

    fn order_is_contingent(&self, order_id: OrderId) -> (r: bool)
        ensures
            r == self.is_bracket(order_id),
    {
        match self.orders_by_id.get(order_id) {
            Some(o) => match o.parent_trade {
                Some(tid) => {
                    if tid.0 < self.trades_by_id.len() {
                        let t = &self.trades_by_id[tid.0];
                        t.sl_order == Some(order_id) || t.tp_order == Some(order_id)
                    } else {
                        false
                    }
                },
                None => false,
            },
            None => false,
        }
    }
}

/// `t` with its link to order `id` (as SL order, else as TP order) removed.
pub open spec fn unlink<P>(t: Trade<P>, id: OrderId) -> Trade<P> {
    if t.sl_order == Some(id) {
        Trade { sl_order: None, ..t }
    } else if t.tp_order == Some(id) {
        Trade { tp_order: None, ..t }
    } else {
        t
    }
}

impl<P: Scalar, C: CommissionModel<P>> Broker<P, C> {
    /// The trades, their open and closed ids and the trade counter are those
    /// of `other`.
    pub closed spec fn same_trades(self, other: Self) -> bool {
        &&& self.trades_by_id@ == other.trades_by_id@
        &&& self.active_trade_ids@ == other.active_trade_ids@
        &&& self.closed_trade_ids@ == other.closed_trade_ids@
        &&& self.next_trade_id == other.next_trade_id
    }

    /// The broker's settings and current bar are those of `other`.
    pub closed spec fn same_config(self, other: Self) -> bool {
        &&& self.commission == other.commission
        &&& self.spread == other.spread
        &&& self.leverage == other.leverage
        &&& self.trade_on_close == other.trade_on_close
        &&& self.hedging == other.hedging
        &&& self.exclusive_orders == other.exclusive_orders
        &&& self.current_bar == other.current_bar
    }

    /// Every stored order that closes no trade in `before` is still stored
    /// and still closes no trade, and there are as many such orders.
    pub closed spec fn keeps_standalone(self, before: Self) -> bool {
        &&& forall|k: OrderId|
            #![trigger self.orders_by_id.spec_get(k)]
            standalone_slot(before.orders_by_id.spec_get(k)) == 1 ==> standalone_slot(
                self.orders_by_id.spec_get(k),
            ) == 1
        &&& standalone_count(self.orders_by_id@) == standalone_count(before.orders_by_id@)
    }

    /// Orders are never brought back and orders of their own are never
    /// changed: an id that was handed out but held no order still holds none,
    /// and an order that closes no trade is still stored as it was, or gone.
    pub closed spec fn keeps_own_orders(self, before: Self) -> bool {
        &&& self.next_order_id.0 >= before.next_order_id.0
        &&& forall|q: OrderId|
            #![trigger self.orders_by_id.spec_get(q)]
            (before.orders_by_id.spec_get(q) is None && q.0 < before.next_order_id.0
                ==> self.orders_by_id.spec_get(q) is None) && (before.orders_by_id.spec_get(q) matches Some(o)
                && o.parent_trade is None ==> (self.orders_by_id.spec_get(q) is None
                || self.orders_by_id.spec_get(q) == before.orders_by_id.spec_get(q)))
        &&& forall|q: OrderId|
            #![trigger self.orders_by_id.spec_get(q)]
            self.orders_by_id.spec_get(q) is Some && (q.0 >= before.next_order_id.0 || (
            before.orders_by_id.spec_get(q) is Some && before.orders_by_id.spec_get(q)->0.parent_trade is Some))
                ==> self.orders_by_id.spec_get(q)->0.parent_trade is Some
    }

    /// Order `q` is stored and closes a trade of which it is neither the SL
    /// nor the TP order (a request to close that trade).
    pub closed spec fn closes_apart(self, q: OrderId) -> bool {
        &&& self.orders_by_id.spec_get(q) matches Some(o) && o.parent_trade matches Some(t) && {
            &&& t.0 < self.trades_by_id@.len()
            &&& self.trades_by_id@[t.0 as int].sl_order != Some(q)
            &&& self.trades_by_id@[t.0 as int].tp_order != Some(q)
        }
    }

    /// No trade of `before` grows or opens again: one that is open is one that
    /// was open then, with at most as many units.
    pub closed spec fn no_growth(self, before: Self) -> bool {
        &&& self.trades_by_id@.len() >= before.trades_by_id@.len()
        &&& forall|t: TradeId|
            #![trigger self.active_trade_ids@.contains(t)]
            t.0 < before.trades_by_id@.len() && self.active_trade_ids@.contains(t) ==> before.active_trade_ids@.contains(t)
                && abs_int(self.trades_by_id@[t.0 as int].size as int) <= abs_int(before.trades_by_id@[t.0 as int].size as int)
    }

    /// SL and TP orders stay, still linked to their trade, while that trade
    /// is open.
    pub closed spec fn keeps_brackets(self, before: Self) -> bool {
        forall|q: OrderId|
            #![trigger before.is_bracket(q)]
            before.is_bracket(q) ==> {
                let t = before.orders_by_id.spec_get(q)->0.parent_trade->0;
                (self.is_bracket(q) && self.orders_by_id.spec_get(q)->0.parent_trade == Some(t))
                    || !self.active_trade_ids@.contains(t)
            }
    }

    proof fn lemma_keeps_brackets_trans(self, mid: Self, before: Self)
        requires
            before.wf(),
            mid.keeps_brackets(before),
            mid.no_growth(before),
            self.keeps_brackets(mid),
            self.no_growth(mid),
        ensures
            self.keeps_brackets(before),
    {
        assert forall|q: OrderId| #![trigger before.is_bracket(q)] before.is_bracket(q) implies {
            let t = before.orders_by_id.spec_get(q)->0.parent_trade->0;
            (self.is_bracket(q) && self.orders_by_id.spec_get(q)->0.parent_trade == Some(t))
                || !self.active_trade_ids@.contains(t)
        } by {
            let t = before.orders_by_id.spec_get(q)->0.parent_trade->0;
            if mid.is_bracket(q) && mid.orders_by_id.spec_get(q)->0.parent_trade == Some(t) {
            } else {
                assert(!mid.active_trade_ids@.contains(t));
                if self.active_trade_ids@.contains(t) {
                    assert(mid.active_trade_ids@.contains(t));
                }
            }
        }
    }

    /// A step that changes no trade but trade `changed` (keeping its SL and TP
    /// links), keeps every stored order but the SL and TP orders of `changed`,
    /// and keeps those stored, for the same trade, while `changed` is open,
    /// keeps the SL and TP orders.
    proof fn lemma_keeps_brackets_frame(self, before: Self, changed: int)
        requires
            before.wf(),
            self.trades_by_id@.len() >= before.trades_by_id@.len(),
            forall|j: int| 0 <= j < before.trades_by_id@.len() && j != changed ==> #[trigger] self.trades_by_id@[j]
                == before.trades_by_id@[j],
            0 <= changed < before.trades_by_id@.len() ==> {
                &&& self.trades_by_id@[changed].sl_order == before.trades_by_id@[changed].sl_order
                &&& self.trades_by_id@[changed].tp_order == before.trades_by_id@[changed].tp_order
            },
            forall|q: OrderId|
                before.orders_by_id.spec_get(q) is Some && !(0 <= changed < before.trades_by_id@.len() && (
                before.trades_by_id@[changed].sl_order == Some(q) || before.trades_by_id@[changed].tp_order == Some(q)))
                    ==> #[trigger] self.orders_by_id.spec_get(q) == before.orders_by_id.spec_get(q),
            0 <= changed < before.trades_by_id@.len() && self.active_trade_ids@.contains(TradeId(changed as usize)) ==> forall|q: OrderId|
                before.orders_by_id.spec_get(q) is Some && (before.trades_by_id@[changed].sl_order == Some(q)
                    || before.trades_by_id@[changed].tp_order == Some(q)) ==> #[trigger] self.orders_by_id.spec_get(q) is Some
                    && self.orders_by_id.spec_get(q)->0.parent_trade == before.orders_by_id.spec_get(q)->0.parent_trade,
        ensures
            self.keeps_brackets(before),
    {
        assert forall|q: OrderId| #![trigger before.is_bracket(q)] before.is_bracket(q) implies {
            let t = before.orders_by_id.spec_get(q)->0.parent_trade->0;
            (self.is_bracket(q) && self.orders_by_id.spec_get(q)->0.parent_trade == Some(t))
                || !self.active_trade_ids@.contains(t)
        } by {
            let t = before.orders_by_id.spec_get(q)->0.parent_trade->0;
            if 0 <= changed < before.trades_by_id@.len() && (before.trades_by_id@[changed].sl_order == Some(q)
                || before.trades_by_id@[changed].tp_order == Some(q)) {
                assert(links_back(before.trades_by_id@[changed], changed, before.orders_by_id));
                assert(t.0 == changed);
                let _ = self.orders_by_id.spec_get(q);
            } else {
                assert(self.orders_by_id.spec_get(q) == before.orders_by_id.spec_get(q));
                if t.0 != changed {
                    assert(self.trades_by_id@[t.0 as int] == before.trades_by_id@[t.0 as int]);
                }
            }
        }
    }

    /// A step that changes stored order `id` only, and no trade, where `id`
    /// stays stored for the same trade if it is an SL or TP order, keeps the
    /// SL and TP orders.
    proof fn lemma_keeps_brackets_one(self, before: Self, id: OrderId)
        requires
            forall|q: OrderId| q != id ==> #[trigger] self.orders_by_id.spec_get(q) == before.orders_by_id.spec_get(q),
            self.trades_by_id@ == before.trades_by_id@,
            self.active_trade_ids@ == before.active_trade_ids@,
            before.is_bracket(id) ==> self.orders_by_id.spec_get(id) is Some && self.orders_by_id.spec_get(id)->0.parent_trade
                == before.orders_by_id.spec_get(id)->0.parent_trade,
        ensures
            self.keeps_brackets(before),
            self.no_growth(before),
    {
        assert forall|q: OrderId| #![trigger before.is_bracket(q)] before.is_bracket(q) implies {
            let t = before.orders_by_id.spec_get(q)->0.parent_trade->0;
            (self.is_bracket(q) && self.orders_by_id.spec_get(q)->0.parent_trade == Some(t))
                || !self.active_trade_ids@.contains(t)
        } by {
            if q != id {
                assert(self.orders_by_id.spec_get(q) == before.orders_by_id.spec_get(q));
            }
        }
    }

    /// The open trades are all long or all short.
    pub closed spec fn one_side(self) -> bool {
        forall|t1: TradeId, t2: TradeId|
            #![trigger self.active_trade_ids@.contains(t1), self.active_trade_ids@.contains(t2)]
            self.active_trade_ids@.contains(t1) && self.active_trade_ids@.contains(t2) ==> (self.trades_by_id@[t1.0 as int].size
                > 0) == (self.trades_by_id@[t2.0 as int].size > 0)
    }

    /// Every open trade was open in `before`, on the same side.
    spec fn side_kept(self, before: Self) -> bool {
        forall|t: TradeId|
            #![trigger self.active_trade_ids@.contains(t)]
            self.active_trade_ids@.contains(t) ==> t.0 < before.trades_by_id@.len() && before.active_trade_ids@.contains(t)
                && (self.trades_by_id@[t.0 as int].size > 0) == (before.trades_by_id@[t.0 as int].size > 0)
    }

    /// Requests to close a trade are kept as they were, and no trade grows or
    /// opens again.
    pub closed spec fn keeps_closing(self, before: Self) -> bool {
        &&& forall|q: OrderId|
            #![trigger self.orders_by_id.spec_get(q)]
            before.closes_apart(q) ==> self.orders_by_id.spec_get(q) == before.orders_by_id.spec_get(q)
                && self.closes_apart(q)
        &&& self.no_growth(before)
    }

    proof fn lemma_keeps_closing_refl(self)
        ensures
            self.keeps_closing(self),
    {
    }

    proof fn lemma_no_growth_trans(self, mid: Self, before: Self)
        requires
            mid.no_growth(before),
            self.no_growth(mid),
        ensures
            self.no_growth(before),
    {
        assert forall|t: TradeId| #![trigger self.active_trade_ids@.contains(t)]
            t.0 < before.trades_by_id@.len() && self.active_trade_ids@.contains(t) implies before.active_trade_ids@.contains(t)
                && abs_int(self.trades_by_id@[t.0 as int].size as int) <= abs_int(before.trades_by_id@[t.0 as int].size as int) by {
            assert(mid.active_trade_ids@.contains(t));
        }
    }

    proof fn lemma_keeps_closing_trans(self, mid: Self, before: Self)
        requires
            mid.keeps_closing(before),
            self.keeps_closing(mid),
        ensures
            self.keeps_closing(before),
    {
        assert forall|q: OrderId| #![trigger self.orders_by_id.spec_get(q)] before.closes_apart(q) implies
            self.orders_by_id.spec_get(q) == before.orders_by_id.spec_get(q) && self.closes_apart(q) by {
            assert(mid.orders_by_id.spec_get(q) == before.orders_by_id.spec_get(q) && mid.closes_apart(q));
        }
        self.lemma_no_growth_trans(mid, before);
    }

    /// A step that changes no trade but trade `changed` (keeping its SL and TP
    /// links and not growing it), may append trades, keeps every stored order
    /// but the SL and TP orders of `changed`, and opens no trade of `before`
    /// again, keeps the requests to close a trade.
    proof fn lemma_keeps_closing_frame(self, before: Self, changed: int)
        requires
            before.wf(),
            self.trades_by_id@.len() >= before.trades_by_id@.len(),
            forall|j: int| 0 <= j < before.trades_by_id@.len() && j != changed ==> #[trigger] self.trades_by_id@[j]
                == before.trades_by_id@[j],
            0 <= changed < before.trades_by_id@.len() ==> {
                &&& self.trades_by_id@[changed].sl_order == before.trades_by_id@[changed].sl_order
                &&& self.trades_by_id@[changed].tp_order == before.trades_by_id@[changed].tp_order
                &&& abs_int(self.trades_by_id@[changed].size as int) <= abs_int(before.trades_by_id@[changed].size as int)
            },
            forall|q: OrderId|
                before.orders_by_id.spec_get(q) is Some && !(0 <= changed < before.trades_by_id@.len() && (
                before.trades_by_id@[changed].sl_order == Some(q) || before.trades_by_id@[changed].tp_order == Some(q)))
                    ==> #[trigger] self.orders_by_id.spec_get(q) == before.orders_by_id.spec_get(q),
            forall|t: TradeId|
                t.0 < before.trades_by_id@.len() && #[trigger] self.active_trade_ids@.contains(t) ==> before.active_trade_ids@.contains(t),
        ensures
            self.keeps_closing(before),
    {
        assert forall|q: OrderId| #![trigger self.orders_by_id.spec_get(q)] before.closes_apart(q) implies
            self.orders_by_id.spec_get(q) == before.orders_by_id.spec_get(q) && self.closes_apart(q) by {
            let t = before.orders_by_id.spec_get(q)->0.parent_trade->0;
            if 0 <= changed < before.trades_by_id@.len() && (before.trades_by_id@[changed].sl_order == Some(q)
                || before.trades_by_id@[changed].tp_order == Some(q)) {
                assert(links_back(before.trades_by_id@[changed], changed, before.orders_by_id));
                assert(t.0 == changed);
            }
            assert(self.orders_by_id.spec_get(q) == before.orders_by_id.spec_get(q));
            if t.0 != changed {
                assert(self.trades_by_id@[t.0 as int] == before.trades_by_id@[t.0 as int]);
            }
        }
        assert forall|t: TradeId| #![trigger self.active_trade_ids@.contains(t)]
            t.0 < before.trades_by_id@.len() && self.active_trade_ids@.contains(t) implies before.active_trade_ids@.contains(t)
                && abs_int(self.trades_by_id@[t.0 as int].size as int) <= abs_int(before.trades_by_id@[t.0 as int].size as int) by {
            if t.0 != changed {
                assert(self.trades_by_id@[t.0 as int] == before.trades_by_id@[t.0 as int]);
            }
        }
    }

    /// Order `q` is pending, closes no trade, and has neither a limit nor a
    /// stop price: a market order of its own.
    pub closed spec fn market_own(self, q: OrderId) -> bool {
        &&& self.order_queue@.contains(q)
        &&& self.orders_by_id.spec_get(q) is Some
        &&& self.orders_by_id.spec_get(q)->0.parent_trade is None
        &&& self.orders_by_id.spec_get(q)->0.limit is None
        &&& self.orders_by_id.spec_get(q)->0.stop is None
    }

    /// The market orders of their own that were pending in `start` are
    /// gone or, while `untouched`, stored as they were; those among the first
    /// `k` ids of `snap` are gone.
    #[verifier::opaque]
    spec fn market_settled(self, start: Self, untouched: bool, snap: Seq<OrderId>, k: int) -> bool {
        &&& forall|q: OrderId|
            #![trigger start.market_own(q)]
            start.market_own(q) ==> (self.orders_by_id.spec_get(q) is None || (untouched
                && self.orders_by_id.spec_get(q) == start.orders_by_id.spec_get(q)))
        &&& forall|j: int|
            0 <= j < k && j < snap.len() ==> (start.market_own(#[trigger] snap[j])
                ==> self.orders_by_id.spec_get(snap[j]) is None)
    }

    /// Order `q` is pending and asks to close its trade at the market: a
    /// whole number of units, no limit, stop, SL or TP price, and not the
    /// trade's SL or TP order (as `close_trade` and `close_position` place).
    pub closed spec fn close_request(self, q: OrderId) -> bool {
        &&& self.order_queue@.contains(q)
        &&& self.closes_apart(q)
        &&& self.orders_by_id.spec_get(q)->0.limit is None
        &&& self.orders_by_id.spec_get(q)->0.stop is None
        &&& self.orders_by_id.spec_get(q)->0.sl is None
        &&& self.orders_by_id.spec_get(q)->0.tp is None
        &&& self.orders_by_id.spec_get(q)->0.size is Units
    }

    /// The trade that request `q` of `start` closes is closed, or has at most
    /// its units in `start` less the units that `q` names.
    pub closed spec fn close_taken(self, start: Self, q: OrderId) -> bool {
        let o = start.orders_by_id.spec_get(q)->0;
        let t = o.parent_trade->0;
        !self.active_trade_ids@.contains(t) || abs_int(self.trades_by_id@[t.0 as int].size as int) + abs_int(
            o.size->Units_0 as int,
        ) <= abs_int(start.trades_by_id@[t.0 as int].size as int)
    }

    /// The close requests that were pending in `start` are gone and have
    /// taken effect, or, while `untouched`, are stored as they were; those
    /// among the first `k` ids of `snap` are gone.
    #[verifier::opaque]
    spec fn close_settled(self, start: Self, untouched: bool, snap: Seq<OrderId>, k: int) -> bool {
        &&& self.no_growth(start)
        &&& forall|q: OrderId|
            #![trigger start.close_request(q)]
            start.close_request(q) ==> (self.orders_by_id.spec_get(q) is Some ==> untouched
                && self.orders_by_id.spec_get(q) == start.orders_by_id.spec_get(q) && self.closes_apart(q)) && (
            self.orders_by_id.spec_get(q) is None ==> self.close_taken(start, q))
        &&& forall|j: int|
            0 <= j < k && j < snap.len() ==> (start.close_request(#[trigger] snap[j])
                ==> self.orders_by_id.spec_get(snap[j]) is None)
    }

    proof fn lemma_close_settled_enter(self, start: Self, untouched: bool, snap: Seq<OrderId>)
        requires
            (untouched && self == start) || self.close_settled(start, false, Seq::empty(), 0),
        ensures
            self.close_settled(start, untouched, snap, 0),
    {
        reveal(Broker::close_settled);
        if !(untouched && self == start) {
            assert forall|q: OrderId| #![trigger start.close_request(q)] start.close_request(q) implies (
            self.orders_by_id.spec_get(q) is Some ==> untouched && self.orders_by_id.spec_get(q)
                == start.orders_by_id.spec_get(q) && self.closes_apart(q)) && (self.orders_by_id.spec_get(q) is None
                ==> self.close_taken(start, q)) by {
            }
        }
    }

    proof fn lemma_close_settled_at(self, start: Self, untouched: bool, snap: Seq<OrderId>, k: int, q: OrderId)
        requires
            self.close_settled(start, untouched, snap, k),
            start.close_request(q),
            self.orders_by_id.spec_get(q) is Some,
        ensures
            untouched,
            self.orders_by_id.spec_get(q) == start.orders_by_id.spec_get(q),
            self.closes_apart(q),
    {
        reveal(Broker::close_settled);
    }

    proof fn lemma_close_settled_kept(self, before: Self, start: Self, untouched: bool, snap: Seq<OrderId>, k: int)
        requires
            start.wf(),
            before.close_settled(start, untouched, snap, k),
            self.keeps_closing(before),
            self.keeps_own_orders(before),
            before.next_order_id.0 >= start.next_order_id.0,
        ensures
            self.close_settled(start, untouched, snap, k),
    {
        reveal(Broker::close_settled);
        self.lemma_no_growth_trans(before, start);
        assert forall|q: OrderId| #![trigger start.close_request(q)] start.close_request(q) implies (
        self.orders_by_id.spec_get(q) is Some ==> untouched && self.orders_by_id.spec_get(q)
            == start.orders_by_id.spec_get(q) && self.closes_apart(q)) && (self.orders_by_id.spec_get(q) is None
            ==> self.close_taken(start, q)) by {
            assert(q.0 < start.next_order_id.0);
            let _ = self.orders_by_id.spec_get(q);
            if before.orders_by_id.spec_get(q) is Some {
                assert(before.closes_apart(q));
            } else {
                let t = start.orders_by_id.spec_get(q)->0.parent_trade->0;
                assert(before.close_taken(start, q));
                if self.active_trade_ids@.contains(t) {
                    assert(before.active_trade_ids@.contains(t));
                }
            }
        }
        assert forall|j: int| 0 <= j < k && j < snap.len() implies (start.close_request(#[trigger] snap[j])
            ==> self.orders_by_id.spec_get(snap[j]) is None) by {
            if start.close_request(snap[j]) {
                assert(snap[j].0 < start.next_order_id.0);
                assert(before.orders_by_id.spec_get(snap[j]) is None);
                let _ = self.orders_by_id.spec_get(snap[j]);
            }
        }
    }

    /// A step that changes the stored order `id` only, and no trade, where
    /// `id` is no close request of `start` that is still stored.
    proof fn lemma_close_settled_one(self, before: Self, start: Self, untouched: bool, snap: Seq<OrderId>, k: int, id: OrderId)
        requires
            before.close_settled(start, untouched, snap, k),
            start.close_request(id) ==> before.orders_by_id.spec_get(id) is None && self.orders_by_id.spec_get(id) is None,
            forall|q: OrderId| q != id ==> #[trigger] self.orders_by_id.spec_get(q) == before.orders_by_id.spec_get(q),
            self.trades_by_id@ == before.trades_by_id@,
            self.active_trade_ids@ == before.active_trade_ids@,
        ensures
            self.close_settled(start, untouched, snap, k),
    {
        reveal(Broker::close_settled);
        assert forall|q: OrderId| #![trigger start.close_request(q)] start.close_request(q) implies (
        self.orders_by_id.spec_get(q) is Some ==> untouched && self.orders_by_id.spec_get(q)
            == start.orders_by_id.spec_get(q) && self.closes_apart(q)) && (self.orders_by_id.spec_get(q) is None
            ==> self.close_taken(start, q)) by {
            if q != id {
                assert(self.orders_by_id.spec_get(q) == before.orders_by_id.spec_get(q));
            }
        }
        assert forall|j: int| 0 <= j < k && j < snap.len() implies (start.close_request(#[trigger] snap[j])
            ==> self.orders_by_id.spec_get(snap[j]) is None) by {
            if snap[j] != id {
                assert(self.orders_by_id.spec_get(snap[j]) == before.orders_by_id.spec_get(snap[j]));
            }
        }
    }

    /// Settling request `id` of `start`, still stored as it was.
    proof fn lemma_close_settled_settle(
        self,
        before: Self,
        start: Self,
        untouched: bool,
        snap: Seq<OrderId>,
        k: int,
        id: OrderId,
    )
        requires
            start.wf(),
            before.close_settled(start, untouched, snap, k),
            before.orders_by_id.spec_get(id) is Some,
            self.keeps_own_orders(before),
            self.no_growth(before),
            before.next_order_id.0 >= start.next_order_id.0,
            forall|q: OrderId|
                q != id && before.closes_apart(q) ==> #[trigger] self.orders_by_id.spec_get(q)
                    == before.orders_by_id.spec_get(q) && self.closes_apart(q),
            before.closes_apart(id) ==> self.orders_by_id.spec_get(id) is None,
            ({
                let o = before.orders_by_id.spec_get(id)->0;
                let t = o.parent_trade->0;
                o.size matches OrderSize::Units(u) ==> !self.active_trade_ids@.contains(t) || abs_int(
                    self.trades_by_id@[t.0 as int].size as int,
                ) + abs_int(u as int) <= abs_int(before.trades_by_id@[t.0 as int].size as int)
            }),
        ensures
            self.close_settled(start, untouched, snap, k),
            start.close_request(id) ==> self.orders_by_id.spec_get(id) is None,
    {
        reveal(Broker::close_settled);
        self.lemma_no_growth_trans(before, start);
        assert forall|q: OrderId| #![trigger start.close_request(q)] start.close_request(q) implies (
        self.orders_by_id.spec_get(q) is Some ==> untouched && self.orders_by_id.spec_get(q)
            == start.orders_by_id.spec_get(q) && self.closes_apart(q)) && (self.orders_by_id.spec_get(q) is None
            ==> self.close_taken(start, q)) by {
            assert(q.0 < start.next_order_id.0);
            let _ = self.orders_by_id.spec_get(q);
            let t = start.orders_by_id.spec_get(q)->0.parent_trade->0;
            if before.orders_by_id.spec_get(q) is Some {
                assert(before.closes_apart(q));
                if q == id {
                    if self.active_trade_ids@.contains(t) {
                        assert(before.active_trade_ids@.contains(t));
                    }
                }
            } else {
                assert(before.close_taken(start, q));
                if self.active_trade_ids@.contains(t) {
                    assert(before.active_trade_ids@.contains(t));
                }
            }
        }
        assert forall|j: int| 0 <= j < k && j < snap.len() implies (start.close_request(#[trigger] snap[j])
            ==> self.orders_by_id.spec_get(snap[j]) is None) by {
            if start.close_request(snap[j]) {
                assert(snap[j].0 < start.next_order_id.0);
                assert(before.orders_by_id.spec_get(snap[j]) is None);
                let _ = self.orders_by_id.spec_get(snap[j]);
            }
        }
        if start.close_request(id) {
            assert(before.closes_apart(id));
        }
    }

    proof fn lemma_close_settled_step(self, start: Self, untouched: bool, snap: Seq<OrderId>, k: int)
        requires
            self.close_settled(start, untouched, snap, k),
            0 <= k < snap.len(),
            start.close_request(snap[k]) ==> self.orders_by_id.spec_get(snap[k]) is None,
        ensures
            self.close_settled(start, untouched, snap, k + 1),
    {
        reveal(Broker::close_settled);
        assert forall|j: int| 0 <= j < k + 1 && j < snap.len() implies (start.close_request(#[trigger] snap[j])
            ==> self.orders_by_id.spec_get(snap[j]) is None) by {
            if j < k {
                assert(start.close_request(snap[j]) ==> self.orders_by_id.spec_get(snap[j]) is None);
            }
        }
    }

    proof fn lemma_close_settled_done(self, start: Self, untouched: bool, snap: Seq<OrderId>)
        requires
            self.close_settled(start, untouched, snap, snap.len() as int),
            untouched ==> snap == start.order_queue@,
        ensures
            self.close_settled(start, false, Seq::empty(), 0),
    {
        reveal(Broker::close_settled);
        assert forall|q: OrderId| #![trigger start.close_request(q)] start.close_request(q) implies (
        self.orders_by_id.spec_get(q) is Some ==> false && self.orders_by_id.spec_get(q)
            == start.orders_by_id.spec_get(q) && self.closes_apart(q)) && (self.orders_by_id.spec_get(q) is None
            ==> self.close_taken(start, q)) by {
            if untouched {
                let j = choose|j: int| 0 <= j < snap.len() && snap[j] == q;
                assert(start.close_request(snap[j]));
            }
        }
    }

    proof fn lemma_close_settled_gone(self, start: Self, q: OrderId)
        requires
            self.close_settled(start, false, Seq::empty(), 0),
            start.close_request(q),
        ensures
            self.orders_by_id.spec_get(q) is None,
            self.close_taken(start, q),
    {
        reveal(Broker::close_settled);
    }

    proof fn lemma_market_settled_kept(self, before: Self, start: Self, untouched: bool, snap: Seq<OrderId>, k: int)
        requires
            start.wf(),
            before.market_settled(start, untouched, snap, k),
            self.keeps_own_orders(before),
            before.next_order_id.0 >= start.next_order_id.0,
        ensures
            self.market_settled(start, untouched, snap, k),
    {
        reveal(Broker::market_settled);
        assert forall|q: OrderId| #![trigger start.market_own(q)] start.market_own(q) implies (
        self.orders_by_id.spec_get(q) is None || (untouched && self.orders_by_id.spec_get(q)
            == start.orders_by_id.spec_get(q))) by {
            assert(q.0 < start.next_order_id.0);
            let _ = self.orders_by_id.spec_get(q);
            if before.orders_by_id.spec_get(q) is None {
                assert(self.orders_by_id.spec_get(q) is None);
            }
        }
        assert forall|j: int| 0 <= j < k && j < snap.len() implies (start.market_own(#[trigger] snap[j])
            ==> self.orders_by_id.spec_get(snap[j]) is None) by {
            if start.market_own(snap[j]) {
                assert(snap[j].0 < start.next_order_id.0);
                assert(before.orders_by_id.spec_get(snap[j]) is None);
                assert(self.orders_by_id.spec_get(snap[j]) is None);
            }
        }
    }

    proof fn lemma_market_settled_replace(
        self,
        before: Self,
        start: Self,
        untouched: bool,
        snap: Seq<OrderId>,
        k: int,
        id: OrderId,
    )
        requires
            before.market_settled(start, untouched, snap, k),
            !start.market_own(id),
            forall|q: OrderId| q != id ==> #[trigger] self.orders_by_id.spec_get(q) == before.orders_by_id.spec_get(q),
        ensures
            self.market_settled(start, untouched, snap, k),
    {
        reveal(Broker::market_settled);
        assert forall|q: OrderId| #![trigger start.market_own(q)] start.market_own(q) implies (
        self.orders_by_id.spec_get(q) is None || (untouched && self.orders_by_id.spec_get(q)
            == start.orders_by_id.spec_get(q))) by {
            assert(self.orders_by_id.spec_get(q) == before.orders_by_id.spec_get(q));
        }
        assert forall|j: int| 0 <= j < k && j < snap.len() implies (start.market_own(#[trigger] snap[j])
            ==> self.orders_by_id.spec_get(snap[j]) is None) by {
            if start.market_own(snap[j]) {
                assert(self.orders_by_id.spec_get(snap[j]) == before.orders_by_id.spec_get(snap[j]));
            }
        }
    }

    proof fn lemma_market_settled_gone(self, start: Self, q: OrderId)
        requires
            self.market_settled(start, false, Seq::empty(), 0),
            start.market_own(q),
        ensures
            self.orders_by_id.spec_get(q) is None,
    {
        reveal(Broker::market_settled);
    }

    proof fn lemma_market_settled_at(self, start: Self, untouched: bool, snap: Seq<OrderId>, k: int, q: OrderId)
        requires
            self.market_settled(start, untouched, snap, k),
            start.market_own(q),
            self.orders_by_id.spec_get(q) is Some,
        ensures
            untouched,
            self.orders_by_id.spec_get(q) == start.orders_by_id.spec_get(q),
    {
        reveal(Broker::market_settled);
    }

    proof fn lemma_market_settled_same(self, other: Self, start: Self, untouched: bool, snap: Seq<OrderId>, k: int)
        requires
            other.market_settled(start, untouched, snap, k),
            self.orders_by_id == other.orders_by_id,
        ensures
            self.market_settled(start, untouched, snap, k),
    {
        reveal(Broker::market_settled);
    }

    proof fn lemma_market_settled_step(self, start: Self, untouched: bool, snap: Seq<OrderId>, k: int)
        requires
            self.market_settled(start, untouched, snap, k),
            0 <= k < snap.len(),
            start.market_own(snap[k]) ==> self.orders_by_id.spec_get(snap[k]) is None,
        ensures
            self.market_settled(start, untouched, snap, k + 1),
    {
        reveal(Broker::market_settled);
        assert forall|j: int| 0 <= j < k + 1 && j < snap.len() implies (start.market_own(#[trigger] snap[j])
            ==> self.orders_by_id.spec_get(snap[j]) is None) by {
            if j < k {
                assert(start.market_own(snap[j]) ==> self.orders_by_id.spec_get(snap[j]) is None);
            }
        }
    }

    proof fn lemma_market_settled_enter(self, start: Self, untouched: bool, snap: Seq<OrderId>)
        requires
            (untouched && self == start) || self.market_settled(start, false, Seq::empty(), 0),
        ensures
            self.market_settled(start, untouched, snap, 0),
    {
        reveal(Broker::market_settled);
        assert forall|q: OrderId| #![trigger start.market_own(q)] start.market_own(q) implies (
        self.orders_by_id.spec_get(q) is None || (untouched && self.orders_by_id.spec_get(q)
            == start.orders_by_id.spec_get(q))) by {
            if !(untouched && self == start) {
                assert(self.market_settled(start, false, Seq::empty(), 0));
            }
        }
    }

    proof fn lemma_market_settled_done(self, start: Self, untouched: bool, snap: Seq<OrderId>)
        requires
            self.market_settled(start, untouched, snap, snap.len() as int),
            untouched ==> snap == start.order_queue@,
        ensures
            self.market_settled(start, false, Seq::empty(), 0),
    {
        reveal(Broker::market_settled);
        assert forall|q: OrderId| #![trigger start.market_own(q)] start.market_own(q) implies
            self.orders_by_id.spec_get(q) is None by {
            if untouched {
                let j = choose|j: int| 0 <= j < snap.len() && snap[j] == q;
                assert(start.market_own(snap[j]));
            }
        }
    }

    /// No stored order of its own (one that closes no trade) carries an SL or
    /// a TP price.
    #[verifier::opaque]
    pub closed spec fn own_orders_plain(self) -> bool {
        forall|q: OrderId|
            #![trigger self.orders_by_id.spec_get(q)]
            self.orders_by_id.spec_get(q) is Some && self.orders_by_id.spec_get(q)->0.parent_trade is None
                ==> self.orders_by_id.spec_get(q)->0.sl is None && self.orders_by_id.spec_get(q)->0.tp is None
    }

    proof fn lemma_plain_kept(self, before: Self)
        requires
            before.wf(),
            self.keeps_own_orders(before),
        ensures
            before.own_orders_plain() ==> self.own_orders_plain(),
    {
        reveal(Broker::own_orders_plain);
        if before.own_orders_plain() {
            assert forall|q: OrderId| #![trigger self.orders_by_id.spec_get(q)]
                self.orders_by_id.spec_get(q) is Some && self.orders_by_id.spec_get(q)->0.parent_trade is None
                    implies self.orders_by_id.spec_get(q)->0.sl is None && self.orders_by_id.spec_get(q)->0.tp is None by {
                if q.0 < before.next_order_id.0 {
                    if before.orders_by_id.spec_get(q) is None {
                        assert(self.orders_by_id.spec_get(q) is None);
                    } else if before.orders_by_id.spec_get(q)->0.parent_trade is None {
                        assert(self.orders_by_id.spec_get(q) == before.orders_by_id.spec_get(q));
                    }
                }
            }
        }
    }

    proof fn lemma_plain_same(self, other: Self)
        requires
            self.orders_by_id == other.orders_by_id,
        ensures
            other.own_orders_plain() ==> self.own_orders_plain(),
    {
        reveal(Broker::own_orders_plain);
    }

    proof fn lemma_plain_at(self, q: OrderId)
        requires
            self.own_orders_plain(),
            self.orders_by_id.spec_get(q) is Some,
            self.orders_by_id.spec_get(q)->0.parent_trade is None,
        ensures
            self.orders_by_id.spec_get(q)->0.sl is None && self.orders_by_id.spec_get(q)->0.tp is None,
    {
        reveal(Broker::own_orders_plain);
    }

    proof fn lemma_plain_replace(self, before: Self, id: OrderId)
        requires
            forall|q: OrderId| q != id ==> #[trigger] self.orders_by_id.spec_get(q) == before.orders_by_id.spec_get(q),
            self.orders_by_id.spec_get(id) is Some,
            before.orders_by_id.spec_get(id) is Some,
            self.orders_by_id.spec_get(id)->0.sl == before.orders_by_id.spec_get(id)->0.sl,
            self.orders_by_id.spec_get(id)->0.tp == before.orders_by_id.spec_get(id)->0.tp,
            self.orders_by_id.spec_get(id)->0.parent_trade == before.orders_by_id.spec_get(id)->0.parent_trade,
        ensures
            before.own_orders_plain() ==> self.own_orders_plain(),
    {
        reveal(Broker::own_orders_plain);
        if before.own_orders_plain() {
            assert forall|q: OrderId| #![trigger self.orders_by_id.spec_get(q)]
                self.orders_by_id.spec_get(q) is Some && self.orders_by_id.spec_get(q)->0.parent_trade is None
                    implies self.orders_by_id.spec_get(q)->0.sl is None && self.orders_by_id.spec_get(q)->0.tp is None by {
                if q != id {
                    assert(self.orders_by_id.spec_get(q) == before.orders_by_id.spec_get(q));
                } else {
                    assert(before.orders_by_id.spec_get(id) is Some);
                }
            }
        }
    }

    proof fn lemma_keeps_own_orders_refl(self)
        requires
            self.wf(),
        ensures
            self.keeps_own_orders(self),
    {
    }

    proof fn lemma_keeps_own_orders_trans(self, mid: Self, before: Self)
        requires
            before.wf(),
            mid.keeps_own_orders(before),
            self.keeps_own_orders(mid),
        ensures
            self.keeps_own_orders(before),
    {
        assert forall|q: OrderId| #![trigger self.orders_by_id.spec_get(q)]
            (before.orders_by_id.spec_get(q) is None && q.0 < before.next_order_id.0
                ==> self.orders_by_id.spec_get(q) is None) && (before.orders_by_id.spec_get(q) matches Some(o)
                && o.parent_trade is None ==> (self.orders_by_id.spec_get(q) is None
                || self.orders_by_id.spec_get(q) == before.orders_by_id.spec_get(q))) by {
            if before.orders_by_id.spec_get(q) is None && q.0 < before.next_order_id.0 {
                assert(mid.orders_by_id.spec_get(q) is None);
            }
            if before.orders_by_id.spec_get(q) is Some && before.orders_by_id.spec_get(q)->0.parent_trade is None {
                assert(q.0 < before.next_order_id.0);
                if mid.orders_by_id.spec_get(q) is Some {
                    assert(mid.orders_by_id.spec_get(q) == before.orders_by_id.spec_get(q));
                }
            }
        }
        assert forall|q: OrderId| #![trigger self.orders_by_id.spec_get(q)]
            self.orders_by_id.spec_get(q) is Some && (q.0 >= before.next_order_id.0 || (
            before.orders_by_id.spec_get(q) is Some && before.orders_by_id.spec_get(q)->0.parent_trade is Some))
                implies self.orders_by_id.spec_get(q)->0.parent_trade is Some by {
            if q.0 >= mid.next_order_id.0 {
            } else if mid.orders_by_id.spec_get(q) is None {
                assert(self.orders_by_id.spec_get(q) is None);
            } else if q.0 >= before.next_order_id.0 {
                assert(mid.orders_by_id.spec_get(q)->0.parent_trade is Some);
            } else {
                assert(before.orders_by_id.spec_get(q) is Some) by {
                    if before.orders_by_id.spec_get(q) is None {
                        assert(mid.orders_by_id.spec_get(q) is None);
                    }
                }
                if before.orders_by_id.spec_get(q)->0.parent_trade is None {
                    assert(mid.orders_by_id.spec_get(q) == before.orders_by_id.spec_get(q));
                }
            }
        }
    }

    /// Trades other than trade `i` are as in `before`, and trade `i` keeps
    /// its id, size, entry and tag.
    pub closed spec fn trades_kept_but(self, before: Self, i: int) -> bool {
        &&& self.trades_by_id@.len() == before.trades_by_id@.len()
        &&& forall|j: int|
            0 <= j < before.trades_by_id@.len() && j != i ==> #[trigger] self.trades_by_id@[j]
                == before.trades_by_id@[j]
        &&& 0 <= i < before.trades_by_id@.len() ==> {
            &&& self.trades_by_id@[i].id == before.trades_by_id@[i].id
            &&& self.trades_by_id@[i].size == before.trades_by_id@[i].size
            &&& self.trades_by_id@[i].entry_price == before.trades_by_id@[i].entry_price
            &&& self.trades_by_id@[i].entry_bar == before.trades_by_id@[i].entry_bar
            &&& self.trades_by_id@[i].exit_price == before.trades_by_id@[i].exit_price
            &&& self.trades_by_id@[i].exit_bar == before.trades_by_id@[i].exit_bar
            &&& self.trades_by_id@[i].commission == before.trades_by_id@[i].commission
            &&& self.trades_by_id@[i].tag == before.trades_by_id@[i].tag
            &&& self.trades_by_id@[i].open_sl == before.trades_by_id@[i].open_sl
        }
    }

    /// Keeping the trades but one's links keeps the net units of the open trades.
    proof fn lemma_net_kept(self, before: Self, i: int)
        requires
            before.wf(),
            self.trades_kept_but(before, i),
            self.active_trade_ids@ == before.active_trade_ids@,
        ensures
            net_units(self.trades_by_id@, self.active_trade_ids@) == net_units(
                before.trades_by_id@,
                before.active_trade_ids@,
            ),
    {
        assert forall|k: int| 0 <= k < before.active_trade_ids@.len() implies #[trigger] before.trades_by_id@[(
            before.active_trade_ids@[k].0 as int)].size == self.trades_by_id@[(before.active_trade_ids@[k].0 as int)].size by {
            assert(before.active_trade_ids@[k].0 < before.trades_by_id@.len());
        }
        lemma_net_same_sizes(before.trades_by_id@, self.trades_by_id@, before.active_trade_ids@);
    }

    /// Everything but the orders and the order counter is as in `other`.
    pub closed spec fn same_account(self, other: Self) -> bool {
        &&& self.same_trades(other)
        &&& self.cash == other.cash
        &&& self.commission == other.commission
        &&& self.spread == other.spread
        &&& self.leverage == other.leverage
        &&& self.trade_on_close == other.trade_on_close
        &&& self.hedging == other.hedging
        &&& self.exclusive_orders == other.exclusive_orders
        &&& self.equity_curve@ == other.equity_curve@
        &&& self.current_bar == other.current_bar
        &&& self.warnings@ == other.warnings@
    }

    /// Hands out the next order id.
    fn alloc_order_id(&mut self) -> (r: OrderId)
        requires
            old(self).wf(),
        ensures
            final(self).keeps_own_orders(*old(self)),
            final(self).wf(),
            r == old(self).next_order_id,
            final(self).next_order_id.0 == old(self).next_order_id.0 + 1,
            final(self).orders_by_id@.len() > r.0,
            forall|k: OrderId| #![trigger final(self).orders_by_id.spec_get(k)]
                final(self).orders_by_id.spec_get(k) == old(self).orders_by_id.spec_get(k),
            final(self).order_queue@ == old(self).order_queue@,
            final(self).same_account(*old(self)),
            final(self).orders_by_id.spec_get(r) is None,
            forall|i: int| 0 <= i < final(self).trades_by_id@.len() ==> links_below(#[trigger] final(self).trades_by_id@[i], r.0),
            standalone_count(final(self).orders_by_id@) == standalone_count(old(self).orders_by_id@),
    {
        self.orders_by_id.make_room(self.next_order_id);
        let id = self.next_order_id;
        self.next_order_id = OrderId(id.0 + 1);
        proof {
            assert forall|k: OrderId| #[trigger] self.orders_by_id.spec_get(k) is Some implies k.0 < self.next_order_id.0 by {
                assert(old(self).orders_by_id.spec_get(k) is Some);
            }
            assert forall|i: int| 0 <= i < self.order_queue@.len() implies
                #[trigger] self.orders_by_id.spec_get(self.order_queue@[i]) is Some by {
                assert(old(self).orders_by_id.spec_get(old(self).order_queue@[i]) is Some);
            }
            assert forall|k: OrderId| #[trigger] self.orders_by_id.spec_get(k) is Some implies
                contingent_ok(self.orders_by_id.spec_get(k)->0, self.trades_by_id@) by {
                assert(old(self).orders_by_id.spec_get(k) is Some);
            }
            assert forall|i: int| 0 <= i < self.trades_by_id@.len() implies
                links_back(#[trigger] self.trades_by_id@[i], i, self.orders_by_id) by {
                assert(links_back(old(self).trades_by_id@[i], i, old(self).orders_by_id));
            }
            assert forall|i: int| 0 <= i < self.trades_by_id@.len() implies
                links_below(#[trigger] self.trades_by_id@[i], id.0) by {
                assert(links_below(old(self).trades_by_id@[i], id.0));
            }
            if old(self).orders_by_id.spec_get(id) is Some {
                assert(id.0 < old(self).next_order_id.0);
            }
        }
        id
    }

    /// Stores `order` and queues it last.
    fn enqueue_order(&mut self, order: Order<P>) -> (r: OrderId)
        requires
            old(self).wf(),
            contingent_ok(order, old(self).trades_by_id@),
            order.id.0 < old(self).next_order_id.0,
            old(self).orders_by_id.spec_get(order.id) is None,
            forall|i: int| 0 <= i < old(self).trades_by_id@.len() ==> links_below(#[trigger] old(self).trades_by_id@[i], order.id.0),
        ensures
            r == order.id,
            standalone_count(final(self).orders_by_id@) == standalone_count(old(self).orders_by_id@)
                + standalone_slot(Some(order)),
            final(self).wf(),
            final(self).order_queue@ == old(self).order_queue@.push(order.id),
            forall|k: OrderId| #![trigger final(self).orders_by_id.spec_get(k)]
                final(self).orders_by_id.spec_get(k) == if k == order.id {
                    Some(order)
                } else {
                    old(self).orders_by_id.spec_get(k)
                },
            final(self).next_order_id == old(self).next_order_id,
            final(self).same_account(*old(self)),
    {
        let id = order.id;
        self.orders_by_id.insert(id, order);
        self.order_queue.push(id);
        proof {
            assert forall|i: int| 0 <= i < self.trades_by_id@.len() implies
                links_back(#[trigger] self.trades_by_id@[i], i, self.orders_by_id) by {
                assert(links_back(old(self).trades_by_id@[i], i, old(self).orders_by_id));
                assert(links_below(old(self).trades_by_id@[i], id.0));
            }
            assert forall|i: int| 0 <= i < self.order_queue@.len() implies
                #[trigger] self.orders_by_id.spec_get(self.order_queue@[i]) is Some by {
                if i < old(self).order_queue@.len() {
                    assert(old(self).orders_by_id.spec_get(old(self).order_queue@[i]) is Some);
                }
            }
        }
        id
    }

    /// Drops a pending order: from the queue and from the table.
    fn remove_order(&mut self, order_id: OrderId)
        requires
            old(self).wf(),
        ensures
            final(self).keeps_own_orders(*old(self)),
            final(self).wf(),
            final(self).order_queue@ == order_ids_without(old(self).order_queue@, order_id),
            forall|k: OrderId| #![trigger final(self).orders_by_id.spec_get(k)]
                final(self).orders_by_id.spec_get(k) == if k == order_id {
                    None
                } else {
                    old(self).orders_by_id.spec_get(k)
                },
            final(self).next_order_id == old(self).next_order_id,
            final(self).same_account(*old(self)),
            standalone_count(final(self).orders_by_id@) + standalone_slot(old(self).orders_by_id.spec_get(order_id))
                == standalone_count(old(self).orders_by_id@),
    {
        self.order_queue = without_order_id(&self.order_queue, order_id);
        self.orders_by_id.remove(order_id);
        proof {
            assert forall|i: int| 0 <= i < self.trades_by_id@.len() implies
                links_back(#[trigger] self.trades_by_id@[i], i, self.orders_by_id) by {
                assert(links_back(old(self).trades_by_id@[i], i, old(self).orders_by_id));
            }
            lemma_order_ids_without(old(self).order_queue@, order_id);
            assert forall|i: int| 0 <= i < self.order_queue@.len() implies
                #[trigger] self.orders_by_id.spec_get(self.order_queue@[i]) is Some by {
                let x = self.order_queue@[i];
                assert(old(self).order_queue@.contains(x));
                let j = choose|j: int| 0 <= j < old(self).order_queue@.len() && old(self).order_queue@[j] == x;
                assert(old(self).orders_by_id.spec_get(old(self).order_queue@[j]) is Some);
            }
        }
    }

    /// Cancels a pending order; when it is a trade's SL (else TP) order, the
    /// trade no longer has one.
    pub fn cancel_order(&mut self, order_id: OrderId)
        requires
            old(self).wf(),
        ensures
            final(self).keeps_own_orders(*old(self)),
            final(self).wf(),
            final(self).pending() == order_ids_without(old(self).pending(), order_id),
            forall|k: OrderId| #![trigger final(self).order_at(k)]
                final(self).order_at(k) == if k == order_id {
                    None
                } else {
                    old(self).order_at(k)
                },
            final(self).all_trades() == match old(self).order_at(order_id) {
                Some(o) => match o.parent_trade {
                    Some(t) => if t.0 < old(self).all_trades().len() {
                        old(self).all_trades().update(t.0 as int, unlink(old(self).all_trades()[t.0 as int], order_id))
                    } else {
                        old(self).all_trades()
                    },
                    None => old(self).all_trades(),
                },
                None => old(self).all_trades(),
            },
            final(self).active() == old(self).active(),
            final(self).closed_ids() == old(self).closed_ids(),
            final(self).next_order() == old(self).next_order(),
            final(self).cash_value() == old(self).cash_value(),
            final(self).curve() == old(self).curve(),
            final(self).notes() == old(self).notes(),
            final(self).exclusive() == old(self).exclusive(),
            final(self).hedges() == old(self).hedges(),
            final(self).standalone_orders() + standalone_slot(old(self).order_at(order_id))
                == old(self).standalone_orders(),
            final(self).same_config(*old(self)),
    {
        self.order_queue = without_order_id(&self.order_queue, order_id);
        let removed = self.orders_by_id.remove(order_id);
        proof {
            assert forall|i: int| 0 <= i < self.trades_by_id@.len() implies
                links_back(#[trigger] self.trades_by_id@[i], i, self.orders_by_id) by {
                assert(links_back(old(self).trades_by_id@[i], i, old(self).orders_by_id));
            }
            lemma_order_ids_without(old(self).order_queue@, order_id);
            assert forall|i: int| 0 <= i < self.order_queue@.len() implies
                #[trigger] self.orders_by_id.spec_get(self.order_queue@[i]) is Some by {
                let x = self.order_queue@[i];
                assert(old(self).order_queue@.contains(x));
                let j = choose|j: int| 0 <= j < old(self).order_queue@.len() && old(self).order_queue@[j] == x;
                assert(old(self).orders_by_id.spec_get(old(self).order_queue@[j]) is Some);
            }
        }
        if let Some(order) = removed {
            if let Some(tid) = order.parent_trade {
                if tid.0 < self.trades_by_id.len() {
                    let ghost before = self.trades_by_id@;
                    let mut t = self.trades_by_id[tid.0].duplicate();
                    if t.sl_order == Some(order_id) {
                        t.sl_order = None;
                    } else if t.tp_order == Some(order_id) {
                        t.tp_order = None;
                    }
                    self.trades_by_id.set(tid.0, t);
                    proof {
                        assert(self.trades_by_id@ == before.update(tid.0 as int, unlink(before[tid.0 as int], order_id)));
                        assert forall|k: OrderId| #[trigger] self.orders_by_id.spec_get(k) is Some implies
                            contingent_ok(self.orders_by_id.spec_get(k)->0, self.trades_by_id@) by {
                            assert(contingent_ok(self.orders_by_id.spec_get(k)->0, before));
                        }
                        assert forall|i: int| 0 <= i < self.trades_by_id@.len() implies
                            (#[trigger] self.trades_by_id@[i]).id == TradeId(i as usize) by {
                            assert(before[i].id == TradeId(i as usize));
                        }
                        assert forall|i: int| 0 <= i < self.trades_by_id@.len() implies
                            valid_size(#[trigger] self.trades_by_id@[i].size) by {
                            assert(valid_size(before[i].size));
                        }
                        assert forall|i: int| 0 <= i < self.trades_by_id@.len() implies
                            links_below(#[trigger] self.trades_by_id@[i], self.next_order_id.0) by {
                            assert(links_below(before[i], self.next_order_id.0));
                        }
                        assert forall|i: int| 0 <= i < self.trades_by_id@.len() implies
                            links_back(#[trigger] self.trades_by_id@[i], i, self.orders_by_id) by {
                            let t0 = old(self).trades_by_id@[i];
                            assert(before[i] == t0);
                            assert(links_back(t0, i, old(self).orders_by_id));
                            let t1 = self.trades_by_id@[i];
                            if let Some(k) = t1.sl_order {
                                assert(t0.sl_order == Some(k));
                                assert(self.orders_by_id.spec_get(k) == if k == order_id { None } else { old(self).orders_by_id.spec_get(k) });
                            }
                            if let Some(k) = t1.tp_order {
                                assert(t0.tp_order == Some(k));
                                assert(self.orders_by_id.spec_get(k) == if k == order_id { None } else { old(self).orders_by_id.spec_get(k) });
                            }
                        }
                    }
                }
            }
        }
    }

    /// Places an order that closes `portion` of trade `trade_id` at the next
    /// market price: at least one unit, of the other sign than the trade.
    /// Refused when the portion is outside `(0, 1]` or the trade is unknown.
    pub fn request_trade_close(&mut self, trade_id: TradeId, portion: P) -> (r: BtResult<OrderId>)
        requires
            old(self).wf(),
        ensures
            final(self).wf(),
            final(self).curve() == old(self).curve(),
            final(self).all_trades() == old(self).all_trades(),
            final(self).active() == old(self).active(),
            trade_id.0 >= old(self).all_trades().len() ==> r is Err,
            trade_id.0 < old(self).all_trades().len() ==> (r matches Err(e) ==> e is InvalidParameter),
            r is Err ==> *final(self) == *old(self),
            r matches Err(e) ==> (e is InvalidParameter || e is Other),
            r matches Ok(id) ==> {
                &&& trade_id.0 < old(self).all_trades().len()
                &&& id == OrderId(old(self).next_order())
                &&& final(self).close_request(id)
                &&& final(self).next_order() == old(self).next_order() + 1
                &&& final(self).pending() == old(self).pending().push(id)
                &&& final(self).order_at(id) matches Some(o) && {
                    &&& o.id == id
                    &&& o.parent_trade == Some(trade_id)
                    &&& o.size matches OrderSize::Units(u) && opposed(u, old(self).all_trades()[trade_id.0 as int].size)
                    &&& o.limit is None && o.stop is None && o.sl is None && o.tp is None
                    &&& o.tag == old(self).all_trades()[trade_id.0 as int].tag
                }
                &&& forall|k: OrderId| k != id ==> #[trigger] final(self).order_at(k) == old(self).order_at(k)
                &&& final(self).same_account(*old(self))
                &&& final(self).closing_pending(trade_id, old(self).all_trades()[trade_id.0 as int].size)
                &&& forall|t: TradeId, size: i64|
                    #[trigger] old(self).closing_pending(t, size) ==> final(self).closing_pending(t, size)
            },
    {
        if !(P::zero().lt(portion) && portion.le(P::one())) {
            return Err(
                BacktestError::InvalidParameter(
                    "portion must be between 0 and 1, got ".to_owned().concat(portion.to_text().as_str()),
                ),
            );
        }
        if trade_id.0 >= self.trades_by_id.len() {
            return Err(BacktestError::Other("unknown trade id".to_owned()));
        }
        Ok(self.place_close_request(trade_id, portion))
    }

    /// Places an order that closes `portion` of trade `trade_id`, which
    /// exists, at the next market price: at least one unit, of the other sign
    /// than the trade.
    fn place_close_request(&mut self, trade_id: TradeId, portion: P) -> (r: OrderId)
        requires
            old(self).wf(),
            trade_id.0 < old(self).all_trades().len(),
        ensures
            final(self).wf(),
            final(self).curve() == old(self).curve(),
            final(self).all_trades() == old(self).all_trades(),
            final(self).active() == old(self).active(),
            r == OrderId(old(self).next_order()),
            final(self).close_request(r),
            final(self).next_order() == old(self).next_order() + 1,
            final(self).pending() == old(self).pending().push(r),
            final(self).order_at(r) matches Some(o) && {
                &&& o.id == r
                &&& o.parent_trade == Some(trade_id)
                &&& o.size matches OrderSize::Units(u) && opposed(u, old(self).all_trades()[trade_id.0 as int].size)
                &&& o.limit is None && o.stop is None && o.sl is None && o.tp is None
                &&& o.tag == old(self).all_trades()[trade_id.0 as int].tag
            },
            forall|k: OrderId| k != r ==> #[trigger] final(self).order_at(k) == old(self).order_at(k),
            final(self).same_account(*old(self)),
            final(self).closing_pending(trade_id, old(self).all_trades()[trade_id.0 as int].size),
            forall|t: TradeId, size: i64|
                #[trigger] old(self).closing_pending(t, size) ==> final(self).closing_pending(t, size),
    {
        let trade_size = self.trades_by_id[trade_id.0].size;
        let tag = share_tag(&self.trades_by_id[trade_id.0].tag);
        let rounded = P::from_u64(magnitude(trade_size)).times(portion).round().to_i64();
        let mag: i64 = if rounded > 1 {
            rounded
        } else {
            1
        };
        let size = if trade_size > 0 {
            -mag
        } else {
            mag
        };
        let id = self.alloc_order_id();
        let order = Order {
            id,
            size: OrderSize::Units(size),
            limit: None,
            stop: None,
            sl: None,
            tp: None,
            parent_trade: Some(trade_id),
            tag,
        };
        proof {
            assert(valid_size(self.trades_by_id@[trade_id.0 as int].size));
        }
        let ghost before = *self;
        let r = self.enqueue_order(order);
        proof {
            assert(self.order_queue@[self.order_queue@.len() - 1] == id);
            assert(self.order_queue@.contains(id));
            assert forall|q: OrderId| #[trigger] before.order_queue@.contains(q) implies self.order_queue@.contains(q)
                && self.orders_by_id.spec_get(q) == before.orders_by_id.spec_get(q) by {
                let w = choose|w: int| 0 <= w < before.order_queue@.len() && before.order_queue@[w] == q;
                assert(self.order_queue@[w] == q);
                assert(before.orders_by_id.spec_get(before.order_queue@[w]) is Some);
            }
            assert(links_below(before.trades_by_id@[trade_id.0 as int], before.next_order_id.0));
            assert(self.trades_by_id@[trade_id.0 as int] == before.trades_by_id@[trade_id.0 as int]);
            assert(self.closes_apart(id));
            assert(self.close_request(id));
            assert forall|t: TradeId, size: i64| #[trigger] old(self).closing_pending(t, size) implies self.closing_pending(t, size) by {
                before.lemma_closing_kept(*old(self), t, size);
                self.lemma_closing_kept(before, t, size);
            }
        }
        r
    }

    /// Places an order of `size` (with optional limit and stop prices, and
    /// SL and TP prices for the trade it opens). With `trade`, the order
    /// closes or reduces that trade; such an order with a stop price (an SL
    /// order) is matched first, any other order last. Without `trade` and
    /// with exclusive orders, every pending order that is not a trade's SL
    /// or TP order is canceled and every open trade is closed first.
    /// Refused for a size of zero, or when the limit (else stop, else the
    /// adjusted last price) is not strictly between SL and TP.
    pub fn new_order<I: Clone>(
        &mut self,
        data: &Data<P, I>,
        size: OrderSize<P>,
        limit: Option<P>,
        stop: Option<P>,
        sl: Option<P>,
        tp: Option<P>,
        tag: Option<Arc<str>>,
        trade: Option<TradeId>,
    ) -> (r: BtResult<OrderId>)
        requires
            old(self).wf(),
            data.wf(),
            trade matches Some(t) ==> {
                &&& t.0 < old(self).all_trades().len()
                &&& size matches OrderSize::Units(u)
                &&& (u == 0 || opposed(u, old(self).all_trades()[t.0 as int].size) || old(self).all_trades()[
                    t.0 as int].exit_price is Some)
            },
        ensures
            final(self).wf(),
            final(self).curve() == old(self).curve(),
            final(self).next_order() >= old(self).next_order(),
            size matches OrderSize::Units(u) && u == 0 ==> r is Err && *final(self) == *old(self),
            r matches Err(e) ==> e is InvalidOrder,
            r is Err ==> *final(self) == *old(self),
            final(self).all_trades() == old(self).all_trades(),
            final(self).active() == old(self).active(),
            r matches Ok(id) ==> forall|i: int, j: int|
                0 <= i < final(self).pending().len() && 0 <= j < final(self).pending().len() && #[trigger] final(self).pending()[i]
                    == id && #[trigger] final(self).pending()[j] == id ==> i == j,
            r matches Ok(id) ==> {
                &&& id == OrderId(old(self).next_order())
                &&& final(self).order_at(id) == Some(
                    Order { id, size, limit, stop, sl, tp, parent_trade: trade, tag },
                )
                &&& trade is Some && stop is Some ==> final(self).pending() == seq![id] + old(self).pending()
                &&& trade is Some && stop is None ==> final(self).pending() == old(self).pending().push(id)
                &&& trade is None && !old(self).exclusive() ==> final(self).pending() == old(self).pending().push(id)
                &&& trade is None && old(self).exclusive() ==> {
                    &&& final(self).pending().last() == id
                    &&& final(self).pending().len() > 0
                    &&& final(self).active() == old(self).active()
                    &&& forall|k: OrderId|
                        old(self).pending().contains(k) && old(self).is_bracket(k) ==> #[trigger] final(self).pending().contains(k)
                            && final(self).order_at(k) == old(self).order_at(k)
                    &&& forall|k: OrderId|
                        old(self).pending().contains(k) && !old(self).is_bracket(k)
                            ==> #[trigger] final(self).order_at(k) is None
                    &&& final(self).all_trades() == old(self).all_trades()
                    &&& forall|t: TradeId|
                        #[trigger] old(self).active().contains(t) ==> final(self).closing_pending(
                            t,
                            old(self).all_trades()[t.0 as int].size,
                        )
                }
                &&& trade is Some ==> final(self).keeps_standalone(*old(self))
                &&& !(trade is None && old(self).exclusive()) ==> {
                    &&& final(self).next_order() == old(self).next_order() + 1
                    &&& forall|k: OrderId| k != id ==> #[trigger] final(self).order_at(k) == old(self).order_at(k)
                    &&& final(self).same_account(*old(self))
                }
            },
    {
        let is_zero = match size {
            OrderSize::Fraction(f) => f.equals(P::zero()),
            OrderSize::Units(u) => u == 0,
        };
        if is_zero {
            return Err(BacktestError::InvalidOrder("size must be nonzero".to_owned()));
        }
        let is_long = size.is_long();
        let adjusted_price = self.adjusted_price(is_long, data, None);
        let ref_price = match limit {
            Some(l) => l,
            None => match stop {
                Some(s) => s,
                None => adjusted_price,
            },
        };
        if is_long {
            let low = match sl {
                Some(v) => v,
                None => P::neg_infinity(),
            };
            let high = match tp {
                Some(v) => v,
                None => P::infinity(),
            };
            if !(low.lt(ref_price) && ref_price.lt(high)) {
                return Err(
                    BacktestError::InvalidOrder(
                        "Long orders require: SL (".to_owned().concat(describe(sl).as_str()).concat(
                            ") < LIMIT (",
                        ).concat(ref_price.to_text().as_str()).concat(") < TP (").concat(
                            describe(tp).as_str(),
                        ).concat(")"),
                    ),
                );
            }
        } else {
            let low = match tp {
                Some(v) => v,
                None => P::neg_infinity(),
            };
            let high = match sl {
                Some(v) => v,
                None => P::infinity(),
            };
            if !(low.lt(ref_price) && ref_price.lt(high)) {
                return Err(
                    BacktestError::InvalidOrder(
                        "Short orders require: TP (".to_owned().concat(describe(tp).as_str()).concat(
                            ") < LIMIT (",
                        ).concat(ref_price.to_text().as_str()).concat(") < SL (").concat(
                            describe(sl).as_str(),
                        ).concat(")"),
                    ),
                );
            }
        }
        let ghost start = *self;
        let id = self.alloc_order_id();
        let order = Order { id, size, limit, stop, sl, tp, parent_trade: trade, tag };
        if trade.is_none() && self.exclusive_orders {
            // auto-close previous orders and position
            let ghost before = *self;
            let queued = copy_values(&self.order_queue);
            let mut to_cancel: Vec<OrderId> = Vec::new();
            let mut i: usize = 0;
            while i < queued.len()
                invariant
                    *self == before,
                    queued@ == before.order_queue@,
                    i <= queued@.len(),
                    forall|j: int| 0 <= j < to_cancel@.len() ==> queued@.contains(#[trigger] to_cancel@[j]),
                    forall|j: int| 0 <= j < to_cancel@.len() ==> !before.is_bracket(#[trigger] to_cancel@[j]),
                    forall|j: int| 0 <= j < i && !before.is_bracket(#[trigger] queued@[j]) ==> to_cancel@.contains(queued@[j]),
                decreases queued@.len() - i,
            {
                let oid = queued[i];
                let ghost prev = to_cancel@;
                if !self.order_is_contingent(oid) {
                    to_cancel.push(oid);
                }
                proof {
                    assert forall|j: int| 0 <= j < i + 1 && !before.is_bracket(#[trigger] queued@[j]) implies to_cancel@.contains(queued@[j]) by {
                        if j < i {
                            let w = choose|w: int| 0 <= w < prev.len() && prev[w] == queued@[j];
                            assert(to_cancel@[w] == queued@[j]);
                        } else {
                            assert(to_cancel@[to_cancel@.len() - 1] == oid);
                        }
                    }
                    assert forall|j: int| 0 <= j < to_cancel@.len() implies queued@.contains(#[trigger] to_cancel@[j]) by {
                        if j < prev.len() {
                            assert(to_cancel@[j] == prev[j]);
                        } else {
                            assert(queued@[i as int] == oid);
                        }
                    }
                }
                i = i + 1;
            }
            let mut j: usize = 0;
            while j < to_cancel.len()
                invariant
                    self.wf(),
                    j <= to_cancel@.len(),
                    self.same_trades(before),
                    self.equity_curve@ == old(self).equity_curve@,
                    self.next_order_id == before.next_order_id,
                    self.exclusive_orders == before.exclusive_orders,
                    forall|m: int| 0 <= m < to_cancel@.len() ==> !before.is_bracket(#[trigger] to_cancel@[m]),
                    !(size matches OrderSize::Units(u) && u == 0),
                    trade is None,
                    before.exclusive_orders,
                    before.exclusive_orders == old(self).exclusive_orders,
                    forall|k: OrderId| #![trigger self.order_at(k)]
                        !to_cancel@.subrange(0, j as int).contains(k) ==> self.order_at(k) == before.order_at(k),
                    forall|m: int| 0 <= m < j ==> #[trigger] self.order_at(to_cancel@[m]) is None,
                    self.active_trade_ids@ == before.active_trade_ids@,
                    forall|q: OrderId|
                        before.order_queue@.contains(q) && before.is_bracket(q) ==> #[trigger] self.order_queue@.contains(q)
                            && self.orders_by_id.spec_get(q) == before.orders_by_id.spec_get(q),
                decreases to_cancel@.len() - j,
            {
                let oid = to_cancel[j];
                proof {
                    if !to_cancel@.subrange(0, j as int).contains(oid) {
                        assert(self.order_at(oid) == before.order_at(oid));
                    } else {
                        let w = choose|w: int| 0 <= w < j && to_cancel@.subrange(0, j as int)[w] == oid;
                        assert(to_cancel@[w] == oid);
                    }
                    assert(!before.is_bracket(oid));
                }
                let ghost mid = *self;
                self.cancel_order(oid);
                proof {
                    lemma_order_ids_without(mid.order_queue@, oid);
                    assert forall|q: OrderId|
                        before.order_queue@.contains(q) && before.is_bracket(q) implies #[trigger] self.order_queue@.contains(q)
                            && self.orders_by_id.spec_get(q) == before.orders_by_id.spec_get(q) by {
                        assert(mid.order_queue@.contains(q));
                        assert(mid.orders_by_id.spec_get(q) == before.orders_by_id.spec_get(q));
                        assert(q != oid);
                        let w = choose|w: int| 0 <= w < mid.order_queue@.len() && mid.order_queue@[w] == q;
                        assert(order_ids_without(mid.order_queue@, oid).contains(mid.order_queue@[w]));
                        assert(self.order_at(q) == mid.order_at(q));
                    }
                    assert(self.trades_by_id@ == mid.trades_by_id@);
                    assert forall|k: OrderId| #![trigger self.order_at(k)]
                        !to_cancel@.subrange(0, j + 1).contains(k) implies self.order_at(k) == before.order_at(k) by {
                        assert(to_cancel@.subrange(0, j + 1) == to_cancel@.subrange(0, j as int).push(oid));
                        if to_cancel@.subrange(0, j as int).contains(k) {
                            let w = choose|w: int| 0 <= w < j && to_cancel@.subrange(0, j as int)[w] == k;
                            assert(to_cancel@.subrange(0, j + 1)[w] == k);
                        }
                        if k == oid {
                            assert(to_cancel@.subrange(0, j + 1)[j as int] == oid);
                            assert(to_cancel@.subrange(0, j + 1).contains(k));
                        }
                        assert(mid.order_at(k) == before.order_at(k));
                    }
                    assert forall|m: int| 0 <= m < j + 1 implies #[trigger] self.order_at(to_cancel@[m]) is None by {
                        if m < j {
                            assert(mid.order_at(to_cancel@[m]) is None);
                        }
                    }
                }
                j = j + 1;
            }
            let ghost cancelled = *self;
            proof {
                assert(before.order_at(id) is None);
                if to_cancel@.contains(id) {
                    let m = choose|m: int| 0 <= m < to_cancel@.len() && to_cancel@[m] == id;
                    assert(queued@.contains(id));
                    let w = choose|w: int| 0 <= w < queued@.len() && queued@[w] == id;
                    assert(before.orders_by_id.spec_get(before.order_queue@[w]) is Some);
                }
                assert(!to_cancel@.subrange(0, to_cancel@.len() as int).contains(id)) by {
                    assert(to_cancel@.subrange(0, to_cancel@.len() as int) == to_cancel@);
                }
                assert(self.order_at(id) is None);
            }
            let to_close = copy_values(&self.active_trade_ids);
            let mut k: usize = 0;
            while k < to_close.len()
                invariant
                    self.wf(),
                    k <= to_close@.len(),
                    to_close@ == before.active_trade_ids@,
                    before.wf(),
                    before.trades_by_id@ == old(self).trades_by_id@,
                    before.active_trade_ids@ == old(self).active_trade_ids@,
                    self.equity_curve@ == old(self).equity_curve@,
                    self.trades_by_id@ == before.trades_by_id@,
                    self.order_at(id) is None,
                    id.0 < before.next_order_id.0,
                    self.next_order_id.0 >= before.next_order_id.0,
                    before.next_order_id.0 >= old(self).next_order_id.0,
                    self.exclusive_orders == before.exclusive_orders,
                    forall|m: int| 0 <= m < to_close@.len() ==> (#[trigger] to_close@[m]).0 < self.trades_by_id@.len(),
                    !(size matches OrderSize::Units(u) && u == 0),
                    trade is None,
                    before.exclusive_orders,
                    before.exclusive_orders == old(self).exclusive_orders,
                    forall|q: OrderId| #![trigger self.order_at(q)]
                        q.0 < before.next_order_id.0 ==> self.order_at(q) == cancelled.order_at(q),
                    self.active_trade_ids@ == before.active_trade_ids@,
                    forall|q: OrderId|
                        before.order_queue@.contains(q) && before.is_bracket(q) ==> #[trigger] self.order_queue@.contains(q)
                            && self.orders_by_id.spec_get(q) == before.orders_by_id.spec_get(q),
                    forall|m: int| 0 <= m < k ==> self.closing_pending(
                        #[trigger] to_close@[m],
                        before.trades_by_id@[to_close@[m].0 as int].size,
                    ),
                decreases to_close@.len() - k,
            {
                let ghost mid = *self;
                let nid = self.place_close_request(to_close[k], P::one());
                proof {
                    assert(nid.0 >= before.next_order_id.0);
                    assert(self.order_at(id) == mid.order_at(id));
                    assert forall|q: OrderId| #![trigger self.order_at(q)]
                        q.0 < before.next_order_id.0 implies self.order_at(q) == cancelled.order_at(q) by {
                        assert(mid.order_at(q) == cancelled.order_at(q));
                    }
                    assert forall|q: OrderId|
                        before.order_queue@.contains(q) && before.is_bracket(q) implies #[trigger] self.order_queue@.contains(q)
                            && self.orders_by_id.spec_get(q) == before.orders_by_id.spec_get(q) by {
                        assert(mid.order_queue@.contains(q));
                        assert(mid.orders_by_id.spec_get(q) == before.orders_by_id.spec_get(q));
                        let w = choose|w: int| 0 <= w < mid.order_queue@.len() && mid.order_queue@[w] == q;
                        assert(self.order_queue@[w] == q);
                        assert(mid.orders_by_id.spec_get(mid.order_queue@[w]) is Some);
                        assert(before.orders_by_id.spec_get(q) is Some);
                        assert(q != nid);
                        assert(self.order_at(q) == mid.order_at(q));
                    }
                    assert forall|q: OrderId| #[trigger] mid.order_queue@.contains(q) implies self.order_queue@.contains(q)
                        && self.orders_by_id.spec_get(q) == mid.orders_by_id.spec_get(q) by {
                        let w = choose|w: int| 0 <= w < mid.order_queue@.len() && mid.order_queue@[w] == q;
                        assert(self.order_queue@[w] == q);
                        assert(mid.orders_by_id.spec_get(mid.order_queue@[w]) is Some);
                        assert(q != nid);
                        assert(self.order_at(q) == mid.order_at(q));
                    }
                    assert forall|m: int| 0 <= m < k + 1 implies self.closing_pending(
                        #[trigger] to_close@[m],
                        before.trades_by_id@[to_close@[m].0 as int].size,
                    ) by {
                        if m < k {
                            self.lemma_closing_kept(mid, to_close@[m], before.trades_by_id@[to_close@[m].0 as int].size);
                        } else {
                            assert(self.order_queue@[self.order_queue@.len() - 1] == nid);
                            assert(self.order_queue@.contains(nid));
                        }
                    }
                }
                k = k + 1;
            }
            let ghost closing = *self;
            proof {
                assert forall|i: int| 0 <= i < self.trades_by_id@.len() implies
                    links_below(#[trigger] self.trades_by_id@[i], id.0) by {
                    assert(self.trades_by_id@[i] == before.trades_by_id@[i]);
                }
                assert forall|q: OrderId|
                    before.order_queue@.contains(q) && !before.is_bracket(q) implies #[trigger] self.order_at(q) is None by {
                    let w = choose|w: int| 0 <= w < before.order_queue@.len() && before.order_queue@[w] == q;
                    assert(queued@[w] == q);
                    assert(to_cancel@.contains(q));
                    let m = choose|m: int| 0 <= m < to_cancel@.len() && to_cancel@[m] == q;
                    assert(cancelled.order_at(to_cancel@[m]) is None);
                    assert(before.orders_by_id.spec_get(q) is Some);
                    assert(q.0 < before.next_order_id.0);
                }
            }
            let r = self.enqueue_order(order);
            proof {
                assert forall|q: OrderId| #[trigger] closing.order_queue@.contains(q) implies self.order_queue@.contains(q)
                    && self.orders_by_id.spec_get(q) == closing.orders_by_id.spec_get(q) by {
                    let w = choose|w: int| 0 <= w < closing.order_queue@.len() && closing.order_queue@[w] == q;
                    assert(self.order_queue@[w] == q);
                    assert(closing.orders_by_id.spec_get(closing.order_queue@[w]) is Some);
                }
                assert forall|t: TradeId| #[trigger] start.active_trade_ids@.contains(t) implies self.closing_pending(
                    t,
                    start.trades_by_id@[t.0 as int].size,
                ) by {
                    let m = choose|m: int| 0 <= m < to_close@.len() && to_close@[m] == t;
                    assert(closing.closing_pending(to_close@[m], before.trades_by_id@[to_close@[m].0 as int].size));
                    self.lemma_closing_kept(closing, t, start.trades_by_id@[t.0 as int].size);
                }
                assert forall|q: OrderId|
                    start.order_queue@.contains(q) && !start.is_bracket(q) implies #[trigger] self.order_at(q) is None by {
                    assert(before.order_queue@ == start.order_queue@);
                    assert(before.orders_by_id.spec_get(q) == start.orders_by_id.spec_get(q));
                    assert(before.is_bracket(q) == start.is_bracket(q));
                    assert(closing.order_at(q) is None);
                    assert(q.0 < start.next_order_id.0) by {
                        let w = choose|w: int| 0 <= w < start.order_queue@.len() && start.order_queue@[w] == q;
                        assert(start.orders_by_id.spec_get(start.order_queue@[w]) is Some);
                    }
                }
                assert forall|q: OrderId|
                    start.order_queue@.contains(q) && start.is_bracket(q) implies #[trigger] self.order_queue@.contains(q)
                        && self.order_at(q) == start.order_at(q) by {
                    assert(before.order_queue@ == start.order_queue@);
                    assert(before.orders_by_id.spec_get(q) == start.orders_by_id.spec_get(q));
                    assert(before.is_bracket(q) == start.is_bracket(q));
                    assert(before.order_queue@.contains(q));
                    assert(closing.order_queue@.contains(q));
                    assert(closing.orders_by_id.spec_get(q) == before.orders_by_id.spec_get(q));
                    assert(q != id);
                }
                assert(self.order_queue@.len() > 0);
                assert(self.active_trade_ids@ == start.active_trade_ids@);
            }
            return Ok(r);
        }
        let is_sl_order = trade.is_some() && stop.is_some();
        let ghost allocated = *self;
        if is_sl_order {
            self.orders_by_id.insert(id, order);
            self.order_queue.insert(0, id);
            proof {
                assert(self.order_queue@ == seq![id] + start.order_queue@);
                assert forall|i: int| 0 <= i < self.order_queue@.len() implies
                    #[trigger] self.orders_by_id.spec_get(self.order_queue@[i]) is Some by {
                    if i > 0 {
                        assert(start.orders_by_id.spec_get(start.order_queue@[i - 1]) is Some);
                    }
                }
                assert forall|k: OrderId| #[trigger] self.orders_by_id.spec_get(k) is Some implies
                    contingent_ok(self.orders_by_id.spec_get(k)->0, self.trades_by_id@) by {
                    if k != id {
                        assert(start.orders_by_id.spec_get(k) is Some);
                    }
                }
                assert forall|k: OrderId| #[trigger] self.orders_by_id.spec_get(k) is Some implies k.0 < self.next_order_id.0 by {
                    if k != id {
                        assert(start.orders_by_id.spec_get(k) is Some);
                    }
                }
                assert forall|i: int| 0 <= i < self.trades_by_id@.len() implies
                    links_back(#[trigger] self.trades_by_id@[i], i, self.orders_by_id) by {
                    assert(links_back(allocated.trades_by_id@[i], i, allocated.orders_by_id));
                    assert(links_below(allocated.trades_by_id@[i], id.0));
                }
                assert forall|k: OrderId| #![trigger self.orders_by_id.spec_get(k)]
                    standalone_slot(start.orders_by_id.spec_get(k)) == 1 implies standalone_slot(self.orders_by_id.spec_get(k)) == 1 by {
                    if k == id {
                        assert(allocated.orders_by_id.spec_get(id) is None);
                    }
                }
            }
            Ok(id)
        } else {
            let r = self.enqueue_order(order);
            proof {
                assert forall|k: OrderId| #![trigger self.orders_by_id.spec_get(k)]
                    standalone_slot(start.orders_by_id.spec_get(k)) == 1 implies standalone_slot(self.orders_by_id.spec_get(k)) == 1 by {
                    if k == id {
                        assert(allocated.orders_by_id.spec_get(id) is None);
                    }
                }
            }
            Ok(r)
        }
    }
}

impl<P: Scalar, C: CommissionModel<P>> Broker<P, C> {
    /// Sets, replaces or (with `None`) removes the SL (`is_sl`) or TP order
    /// of trade `trade_id`: a stop (SL) or limit (TP) order at `price` that
    /// closes the whole trade. Refused when the price is outside `(0, inf)`,
    /// the trade is unknown, or the order cannot be placed.
    #[verifier::spinoff_prover]
    #[verifier::rlimit(60)]
    fn set_contingent<I: Clone>(&mut self, data: &Data<P, I>, trade_id: TradeId, price: Option<P>, is_sl: bool) -> (r: BtResult<()>)
        requires
            old(self).wf(),
            data.wf(),
        ensures
            r matches Err(BacktestError::InvalidParameter(_)) ==> price is Some,
            price is None && trade_id.0 >= old(self).all_trades().len() ==> r matches Err(BacktestError::Other(_)),
            r matches Err(BacktestError::Other(_)) ==> trade_id.0 >= old(self).all_trades().len(),
            final(self).keeps_own_orders(*old(self)),
            forall|q: OrderId|
                old(self).order_at(q) is Some && !(trade_id.0 < old(self).all_trades().len() && (if is_sl { old(self).all_trades()[trade_id.0 as int].sl_order } else { old(self).all_trades()[trade_id.0 as int].tp_order }) == Some(q))
                    ==> #[trigger] final(self).order_at(q) == old(self).order_at(q),
            trade_id.0 < old(self).all_trades().len() && (old(self).all_trades()[trade_id.0 as int].sl_order is None || old(self).all_trades()[trade_id.0 as int].sl_order != old(self).all_trades()[trade_id.0 as int].tp_order)
                ==> (if is_sl { final(self).all_trades()[trade_id.0 as int].tp_order == old(self).all_trades()[trade_id.0 as int].tp_order } else { final(self).all_trades()[trade_id.0 as int].sl_order == old(self).all_trades()[trade_id.0 as int].sl_order }),
            final(self).wf(),
            trade_id.0 >= old(self).all_trades().len() ==> r is Err,
            price is None && trade_id.0 < old(self).all_trades().len() ==> r is Ok,
            r matches Err(e) && !(e is InvalidOrder) ==> *final(self) == *old(self),
            final(self).all_trades().len() == old(self).all_trades().len(),
            final(self).active() == old(self).active(),
            final(self).closed_ids() == old(self).closed_ids(),
            final(self).cash_value() == old(self).cash_value(),
            final(self).curve() == old(self).curve(),
            final(self).notes() == old(self).notes(),
            final(self).exclusive() == old(self).exclusive(),
            final(self).hedges() == old(self).hedges(),
            final(self).same_config(*old(self)),
            final(self).keeps_standalone(*old(self)),
            final(self).trades_kept_but(*old(self), trade_id.0 as int),
            final(self).next_order() >= old(self).next_order(),
            r matches Err(e) ==> !(e is OutOfMoney),
            r is Ok ==> {
                let before = old(self).all_trades()[trade_id.0 as int];
                let after = final(self).all_trades()[trade_id.0 as int];
                let link = if is_sl { after.sl_order } else { after.tp_order };
                let old_link = if is_sl { before.sl_order } else { before.tp_order };
                &&& trade_id.0 < old(self).all_trades().len()
                &&& after.size == before.size
                &&& after.entry_price == before.entry_price
                &&& after.tag == before.tag
                &&& old_link matches Some(oid) ==> final(self).order_at(oid) is None
                &&& match price {
                    Some(p) => {
                        &&& link matches Some(nid)
                        &&& final(self).order_at(nid) == Some(
                            Order {
                                id: nid,
                                size: OrderSize::Units((-before.size) as i64),
                                limit: if is_sl { None } else { Some(p) },
                                stop: if is_sl { Some(p) } else { None },
                                sl: None,
                                tp: None,
                                parent_trade: Some(trade_id),
                                tag: before.tag,
                            },
                        )
                        &&& is_sl ==> final(self).pending()[0] == nid
                        &&& !is_sl ==> final(self).pending().last() == nid
                    },
                    None => link is None,
                }
            },
    {
        if let Some(p) = price {
            if !(P::zero().lt(p) && p.lt(P::infinity())) {
                return Err(
                    BacktestError::InvalidParameter(
                        "Make sure 0 < price < inf! price: ".to_owned().concat(p.to_text().as_str()),
                    ),
                );
            }
        }
        if trade_id.0 >= self.trades_by_id.len() {
            return Err(BacktestError::Other("unknown trade id".to_owned()));
        }
        let existing = if is_sl {
            self.trades_by_id[trade_id.0].sl_order
        } else {
            self.trades_by_id[trade_id.0].tp_order
        };
        let ghost start = *self;
        if let Some(oid) = existing {
            self.cancel_order(oid);
        }
        let ghost cancelled = *self;
        proof {
            if existing is None {
                start.lemma_keeps_own_orders_refl();
            }
            if let Some(oid) = existing {
                let t = start.trades_by_id@[trade_id.0 as int];
                assert(links_back(t, trade_id.0 as int, start.orders_by_id));
                assert(standalone_slot(start.order_at(oid)) == 0);
            }
            assert forall|k: OrderId| #![trigger self.orders_by_id.spec_get(k)]
                standalone_slot(start.orders_by_id.spec_get(k)) == 1 implies standalone_slot(self.orders_by_id.spec_get(k)) == 1 by {
                if let Some(oid) = existing {
                    assert(self.order_at(k) == if k == oid { None } else { start.order_at(k) });
                }
            }
            assert(self.keeps_standalone(start));
            assert forall|q: OrderId|
                start.order_at(q) is Some && existing != Some(q) implies #[trigger] self.order_at(q)
                    == start.order_at(q) by {
            }
            let t = start.trades_by_id@[trade_id.0 as int];
            assert(self.trades_by_id@[trade_id.0 as int].size == t.size);
            assert(self.trades_by_id@[trade_id.0 as int].entry_price == t.entry_price);
            assert(self.trades_by_id@[trade_id.0 as int].tag == t.tag);
            assert(valid_size(self.trades_by_id@[trade_id.0 as int].size));
        }
        if let Some(p) = price {
            let trade_size = self.trades_by_id[trade_id.0].size;
            let tag = share_tag(&self.trades_by_id[trade_id.0].tag);
            let limit = if is_sl { None } else { Some(p) };
            let stop = if is_sl { Some(p) } else { None };
            let order_id = self.new_order(
                data,
                OrderSize::Units(-trade_size),
                limit,
                stop,
                None,
                None,
                tag,
                Some(trade_id),
            )?;
            let ghost placed = *self;
            proof {
                assert forall|q: OrderId| cancelled.order_at(q) is Some implies #[trigger] placed.order_at(q)
                    == cancelled.order_at(q) by {
                    assert(q.0 < cancelled.next_order_id.0);
                }
                assert forall|q: OrderId| #![trigger placed.orders_by_id.spec_get(q)]
                    (cancelled.orders_by_id.spec_get(q) is None && q.0 < cancelled.next_order_id.0
                        ==> placed.orders_by_id.spec_get(q) is None) && (cancelled.orders_by_id.spec_get(q) matches Some(o)
                        && o.parent_trade is None ==> (placed.orders_by_id.spec_get(q) is None
                        || placed.orders_by_id.spec_get(q) == cancelled.orders_by_id.spec_get(q))) by {
                    if q != order_id {
                        assert(placed.order_at(q) == cancelled.order_at(q));
                    }
                }
                assert forall|q: OrderId| #![trigger placed.orders_by_id.spec_get(q)]
                    placed.orders_by_id.spec_get(q) is Some && (q.0 >= cancelled.next_order_id.0 || (
                    cancelled.orders_by_id.spec_get(q) is Some && cancelled.orders_by_id.spec_get(q)->0.parent_trade is Some))
                        implies placed.orders_by_id.spec_get(q)->0.parent_trade is Some by {
                    if q != order_id {
                        assert(placed.order_at(q) == cancelled.order_at(q));
                        assert(cancelled.orders_by_id.spec_get(q) is Some ==> q.0 < cancelled.next_order_id.0);
                    } else {
                        assert(placed.order_at(order_id)->0.parent_trade == Some(trade_id));
                    }
                }
                assert(placed.keeps_own_orders(cancelled));
                placed.lemma_keeps_own_orders_trans(cancelled, start);
            }
            let mut t = self.trades_by_id[trade_id.0].duplicate();
            if is_sl {
                t.sl_order = Some(order_id);
            } else {
                t.tp_order = Some(order_id);
            }
            proof {
                assert(links_back(placed.trades_by_id@[trade_id.0 as int], trade_id.0 as int, placed.orders_by_id));
                assert(links_below(placed.trades_by_id@[trade_id.0 as int], placed.next_order_id.0));
                assert(placed.orders_by_id.spec_get(order_id) is Some);
                assert(placed.orders_by_id.spec_get(order_id)->0.parent_trade == Some(trade_id));
                assert(TradeId(trade_id.0 as int as usize) == trade_id);
                assert(links_back(t, trade_id.0 as int, placed.orders_by_id));
            }
            self.trades_by_id.set(trade_id.0, t);
            proof {
                self.lemma_relink(placed, trade_id.0 as int);
                if let Some(oid) = existing {
                    assert(oid != order_id) by {
                        assert(cancelled.order_at(oid) is None);
                        assert(placed.order_at(order_id) is Some);
                    }
                    assert(placed.order_at(oid) == cancelled.order_at(oid));
                    assert(self.order_at(oid) is None);
                }
                if is_sl {
                    assert(placed.order_queue@[0] == order_id);
                } else {
                    assert(placed.order_queue@.last() == order_id);
                }
                assert forall|q: OrderId|
                    start.order_at(q) is Some && existing != Some(q) implies #[trigger] self.order_at(q)
                        == start.order_at(q) by {
                    assert(cancelled.order_at(q) == start.order_at(q));
                    assert(placed.order_at(q) == cancelled.order_at(q));
                }
            }
        } else {
            let mut t = self.trades_by_id[trade_id.0].duplicate();
            if is_sl {
                t.sl_order = None;
            } else {
                t.tp_order = None;
            }
            let ghost placed = *self;
            proof {
                let t0 = placed.trades_by_id@[trade_id.0 as int];
                assert(links_back(t0, trade_id.0 as int, placed.orders_by_id));
                assert(links_below(t0, placed.next_order_id.0));
                if is_sl {
                    assert(t.tp_order == t0.tp_order);
                } else {
                    assert(t.sl_order == t0.sl_order);
                }
                assert(links_back(t, trade_id.0 as int, placed.orders_by_id));
            }
            self.trades_by_id.set(trade_id.0, t);
            proof {
                self.lemma_relink(placed, trade_id.0 as int);
                if let Some(oid) = existing {
                    assert(cancelled.order_at(oid) is None);
                    assert(self.order_at(oid) is None);
                }
                assert forall|q: OrderId|
                    start.order_at(q) is Some && existing != Some(q) implies #[trigger] self.order_at(q)
                        == start.order_at(q) by {
                    assert(cancelled.order_at(q) == start.order_at(q));
                }
            }
        }
        Ok(())
    }

    /// Changing a trade's SL and TP links keeps the broker consistent.
    proof fn lemma_relink(self, before: Self, i: int)
        requires
            before.wf(),
            0 <= i < before.trades_by_id@.len(),
            self.trades_by_id@.len() == before.trades_by_id@.len(),
            forall|j: int| 0 <= j < before.trades_by_id@.len() && j != i ==> #[trigger] self.trades_by_id@[j] == before.trades_by_id@[j],
            self.trades_by_id@[i].id == before.trades_by_id@[i].id,
            (self.trades_by_id@[i].size > 0) == (before.trades_by_id@[i].size > 0),
            valid_size(self.trades_by_id@[i].size),
            links_below(self.trades_by_id@[i], before.next_order_id.0),
            links_back(self.trades_by_id@[i], i, before.orders_by_id),
            self.orders_by_id == before.orders_by_id,
            self.order_queue == before.order_queue,
            self.active_trade_ids == before.active_trade_ids,
            self.closed_trade_ids == before.closed_trade_ids,
            self.next_order_id == before.next_order_id,
            self.next_trade_id == before.next_trade_id,
            self.trades_by_id@[i].exit_price == before.trades_by_id@[i].exit_price,
            self.trades_by_id@[i].exit_bar == before.trades_by_id@[i].exit_bar,
        ensures
            self.wf(),
    {
        assert forall|k: int| 0 <= k < self.active_trade_ids@.len() implies
            (#[trigger] self.trades_by_id@[self.active_trade_ids@[k].0 as int]).exit_price is None
                && self.trades_by_id@[self.active_trade_ids@[k].0 as int].exit_bar is None by {
            assert(before.trades_by_id@[before.active_trade_ids@[k].0 as int].exit_price is None);
        }
        assert forall|k: int| 0 <= k < self.closed_trade_ids@.len() implies
            (#[trigger] self.trades_by_id@[self.closed_trade_ids@[k].0 as int]).exit_price is Some
                && self.trades_by_id@[self.closed_trade_ids@[k].0 as int].exit_bar is Some by {
            assert(before.trades_by_id@[before.closed_trade_ids@[k].0 as int].exit_price is Some);
        }
        assert forall|k: OrderId| #[trigger] self.orders_by_id.spec_get(k) is Some implies
            contingent_ok(self.orders_by_id.spec_get(k)->0, self.trades_by_id@) by {
            assert(contingent_ok(before.orders_by_id.spec_get(k)->0, before.trades_by_id@));
        }
        assert forall|j: int| 0 <= j < self.trades_by_id@.len() implies
            (#[trigger] self.trades_by_id@[j]).id == TradeId(j as usize) by {
            assert(before.trades_by_id@[j].id == TradeId(j as usize));
        }
        assert forall|j: int| 0 <= j < self.trades_by_id@.len() implies
            valid_size(#[trigger] self.trades_by_id@[j].size) by {
            if j != i {
                assert(valid_size(before.trades_by_id@[j].size));
            }
        }
        assert forall|j: int| 0 <= j < self.trades_by_id@.len() implies
            links_below(#[trigger] self.trades_by_id@[j], self.next_order_id.0) by {
            if j != i {
                assert(links_below(before.trades_by_id@[j], before.next_order_id.0));
            }
        }
        assert forall|j: int| 0 <= j < self.trades_by_id@.len() implies
            links_back(#[trigger] self.trades_by_id@[j], j, self.orders_by_id) by {
            if j != i {
                assert(links_back(before.trades_by_id@[j], j, before.orders_by_id));
            }
        }
        assert forall|j: int| 0 <= j < self.order_queue@.len() implies
            #[trigger] self.orders_by_id.spec_get(self.order_queue@[j]) is Some by {
            assert(before.orders_by_id.spec_get(before.order_queue@[j]) is Some);
        }
    }

    /// Sets, replaces, or (with `None`) cancels a trade's stop-loss order.
    pub fn set_trade_sl<I: Clone>(&mut self, data: &Data<P, I>, trade_id: TradeId, price: Option<P>) -> (r: BtResult<()>)
        requires
            old(self).wf(),
            data.wf(),
        ensures
            r matches Err(BacktestError::InvalidParameter(_)) ==> price is Some,
            price is None && trade_id.0 >= old(self).all_trades().len() ==> r matches Err(BacktestError::Other(_)),
            r matches Err(BacktestError::Other(_)) ==> trade_id.0 >= old(self).all_trades().len(),
            final(self).keeps_own_orders(*old(self)),
            forall|q: OrderId|
                old(self).order_at(q) is Some && !(trade_id.0 < old(self).all_trades().len() && old(self).all_trades()[trade_id.0 as int].sl_order == Some(q))
                    ==> #[trigger] final(self).order_at(q) == old(self).order_at(q),
            trade_id.0 < old(self).all_trades().len() && (old(self).all_trades()[trade_id.0 as int].sl_order is None || old(self).all_trades()[trade_id.0 as int].sl_order != old(self).all_trades()[trade_id.0 as int].tp_order)
                ==> final(self).all_trades()[trade_id.0 as int].tp_order == old(self).all_trades()[trade_id.0 as int].tp_order,
            final(self).wf(),
            trade_id.0 >= old(self).all_trades().len() ==> r is Err,
            price is None && trade_id.0 < old(self).all_trades().len() ==> r is Ok,
            r matches Err(e) && !(e is InvalidOrder) ==> *final(self) == *old(self),
            final(self).all_trades().len() == old(self).all_trades().len(),
            final(self).active() == old(self).active(),
            final(self).closed_ids() == old(self).closed_ids(),
            final(self).same_config(*old(self)),
            final(self).keeps_standalone(*old(self)),
            final(self).trades_kept_but(*old(self), trade_id.0 as int),
            final(self).next_order() >= old(self).next_order(),
            final(self).cash_value() == old(self).cash_value(),
            final(self).curve() == old(self).curve(),
            final(self).notes() == old(self).notes(),
            r matches Err(e) ==> !(e is OutOfMoney),
            r is Ok ==> {
                let before = old(self).all_trades()[trade_id.0 as int];
                let after = final(self).all_trades()[trade_id.0 as int];
                &&& before.sl_order matches Some(oid) ==> final(self).order_at(oid) is None
                &&& match price {
                    Some(p) => {
                        &&& after.sl_order matches Some(nid)
                        &&& final(self).pending()[0] == nid
                        &&& final(self).order_at(nid) matches Some(o)
                        &&& o.stop == Some(p)
                        &&& o.limit is None
                        &&& o.parent_trade == Some(trade_id)
                        &&& o.size == OrderSize::<P>::Units((-before.size) as i64)
                    },
                    None => after.sl_order is None,
                }
            },
    {
        self.set_contingent(data, trade_id, price, true)
    }

    /// Sets, replaces, or (with `None`) cancels a trade's take-profit order.
    pub fn set_trade_tp<I: Clone>(&mut self, data: &Data<P, I>, trade_id: TradeId, price: Option<P>) -> (r: BtResult<()>)
        requires
            old(self).wf(),
            data.wf(),
        ensures
            r matches Err(BacktestError::InvalidParameter(_)) ==> price is Some,
            price is None && trade_id.0 >= old(self).all_trades().len() ==> r matches Err(BacktestError::Other(_)),
            r matches Err(BacktestError::Other(_)) ==> trade_id.0 >= old(self).all_trades().len(),
            final(self).keeps_own_orders(*old(self)),
            forall|q: OrderId|
                old(self).order_at(q) is Some && !(trade_id.0 < old(self).all_trades().len() && old(self).all_trades()[trade_id.0 as int].tp_order == Some(q))
                    ==> #[trigger] final(self).order_at(q) == old(self).order_at(q),
            trade_id.0 < old(self).all_trades().len() && (old(self).all_trades()[trade_id.0 as int].sl_order is None || old(self).all_trades()[trade_id.0 as int].sl_order != old(self).all_trades()[trade_id.0 as int].tp_order)
                ==> final(self).all_trades()[trade_id.0 as int].sl_order == old(self).all_trades()[trade_id.0 as int].sl_order,
            final(self).wf(),
            trade_id.0 >= old(self).all_trades().len() ==> r is Err,
            price is None && trade_id.0 < old(self).all_trades().len() ==> r is Ok,
            r matches Err(e) && !(e is InvalidOrder) ==> *final(self) == *old(self),
            final(self).all_trades().len() == old(self).all_trades().len(),
            final(self).active() == old(self).active(),
            final(self).closed_ids() == old(self).closed_ids(),
            final(self).same_config(*old(self)),
            final(self).keeps_standalone(*old(self)),
            final(self).trades_kept_but(*old(self), trade_id.0 as int),
            final(self).next_order() >= old(self).next_order(),
            final(self).cash_value() == old(self).cash_value(),
            final(self).curve() == old(self).curve(),
            final(self).notes() == old(self).notes(),
            r matches Err(e) ==> !(e is OutOfMoney),
            r is Ok ==> {
                let before = old(self).all_trades()[trade_id.0 as int];
                let after = final(self).all_trades()[trade_id.0 as int];
                &&& before.tp_order matches Some(oid) ==> final(self).order_at(oid) is None
                &&& match price {
                    Some(p) => {
                        &&& after.tp_order matches Some(nid)
                        &&& final(self).pending().last() == nid
                        &&& final(self).order_at(nid) matches Some(o)
                        &&& o.limit == Some(p)
                        &&& o.stop is None
                        &&& o.parent_trade == Some(trade_id)
                        &&& o.size == OrderSize::<P>::Units((-before.size) as i64)
                    },
                    None => after.tp_order is None,
                }
            },
    {
        self.set_contingent(data, trade_id, price, false)
    }
}

impl<P: Scalar, C: CommissionModel<P>> Broker<P, C> {
    /// Closes trade `trade_id` at `price` in bar `time_index`: drops its SL
    /// and TP orders, charges the exit commission, and books the profit or
    /// loss.
    fn close_trade(&mut self, trade_id: TradeId, price: P, time_index: usize)
        requires
            old(self).wf(),
            trade_id.0 < old(self).trades_by_id@.len(),
            old(self).active_trade_ids@.contains(trade_id),
        ensures
            forall|k: OrderId|
                old(self).trades_by_id@[trade_id.0 as int].sl_order != Some(k) && old(self).trades_by_id@[
                trade_id.0 as int].tp_order != Some(k) ==> #[trigger] final(self).orders_by_id.spec_get(k) == old(
                self,
            ).orders_by_id.spec_get(k),
            old(self).trades_by_id@[trade_id.0 as int].sl_order matches Some(o) ==> final(self).orders_by_id.spec_get(o) is None
                && !final(self).order_queue@.contains(o),
            old(self).trades_by_id@[trade_id.0 as int].tp_order matches Some(o) ==> final(self).orders_by_id.spec_get(o) is None
                && !final(self).order_queue@.contains(o),
            final(self).keeps_own_orders(*old(self)),
            bars_recorded(old(self).trades_by_id@, final(self).trades_by_id@, time_index),
            final(self).keeps_brackets(*old(self)),
            final(self).keeps_closing(*old(self)),
            final(self).wf(),
            final(self).active_trade_ids@ == trade_ids_without(old(self).active_trade_ids@, trade_id),
            final(self).closed_trade_ids@ == old(self).closed_trade_ids@.push(trade_id),
            final(self).trades_by_id@.len() == old(self).trades_by_id@.len(),
            forall|j: int| 0 <= j < old(self).trades_by_id@.len() && j != trade_id.0 ==>
                #[trigger] final(self).trades_by_id@[j] == old(self).trades_by_id@[j],
            final(self).trades_by_id@[trade_id.0 as int] == (Trade {
                exit_price: Some(price),
                exit_bar: Some(time_index),
                commission: final(self).trades_by_id@[trade_id.0 as int].commission,
                ..old(self).trades_by_id@[trade_id.0 as int]
            }),
            final(self).next_order_id == old(self).next_order_id,
            final(self).next_trade_id == old(self).next_trade_id,
            final(self).same_config(*old(self)),
            final(self).keeps_standalone(*old(self)),
            final(self).equity_curve@ == old(self).equity_curve@,
            final(self).warnings@ == old(self).warnings@,
            net_units(final(self).trades_by_id@, final(self).active_trade_ids@) == net_units(
                old(self).trades_by_id@,
                old(self).active_trade_ids@,
            ) - old(self).trades_by_id@[trade_id.0 as int].size,
    {
        let ghost start = *self;
        let sl_order = self.trades_by_id[trade_id.0].sl_order;
        let tp_order = self.trades_by_id[trade_id.0].tp_order;
        let size = self.trades_by_id[trade_id.0].size;
        let entry_price = self.trades_by_id[trade_id.0].entry_price;
        proof {
            assert(links_back(start.trades_by_id@[trade_id.0 as int], trade_id.0 as int, start.orders_by_id));
        }
        if let Some(oid) = sl_order {
            let ghost mid = *self;
            self.remove_order(oid);
            proof {
                lemma_order_ids_without(mid.order_queue@, oid);
                assert forall|k: OrderId| #![trigger self.orders_by_id.spec_get(k)]
                    standalone_slot(start.orders_by_id.spec_get(k)) == 1 implies standalone_slot(self.orders_by_id.spec_get(k)) == 1 by {
                    assert(mid.orders_by_id.spec_get(k) == start.orders_by_id.spec_get(k));
                }
            }
        }
        let ghost after_sl = *self;
        if let Some(oid) = tp_order {
            proof {
                assert(after_sl.orders_by_id.spec_get(oid) == start.orders_by_id.spec_get(oid) || after_sl.orders_by_id.spec_get(oid) is None);
            }
            self.remove_order(oid);
            proof {
                lemma_order_ids_without(after_sl.order_queue@, oid);
                assert forall|k: OrderId| #![trigger self.orders_by_id.spec_get(k)]
                    standalone_slot(start.orders_by_id.spec_get(k)) == 1 implies standalone_slot(self.orders_by_id.spec_get(k)) == 1 by {
                    assert(after_sl.orders_by_id.spec_get(k) == start.orders_by_id.spec_get(k));
                }
                if let Some(o) = sl_order {
                    if self.order_queue@.contains(o) {
                        let w = choose|w: int| 0 <= w < self.order_queue@.len() && self.order_queue@[w] == o;
                        assert(after_sl.order_queue@.contains(self.order_queue@[w]));
                    }
                }
            }
        }
        let ghost removed = *self;
        proof {
            if let Some(o) = sl_order {
                if after_sl.order_queue@.contains(o) {
                    let w = choose|w: int| 0 <= w < after_sl.order_queue@.len() && after_sl.order_queue@[w] == o;
                    assert(false);
                }
            }
        }
        let commission_exit = self.commission.compute(P::from_i64(size), price);
        let commission_entry = self.commission.compute(P::from_i64(size), entry_price);
        let mut t = self.trades_by_id[trade_id.0].duplicate();
        t.exit_price = Some(price);
        t.exit_bar = Some(time_index);
        let pl = t.pl(price);
        t.commission = commission_entry.plus(commission_exit);
        let ghost before_set = *self;
        self.trades_by_id.set(trade_id.0, t);
        self.cash = self.cash.plus(pl.minus(commission_exit));
        self.active_trade_ids = without_trade_id(&self.active_trade_ids, trade_id);
        self.closed_trade_ids.push(trade_id);
        proof {
            lemma_trade_ids_without(start.active_trade_ids@, trade_id);
            lemma_without_no_duplicates(start.active_trade_ids@, trade_id);
            lemma_push_no_duplicates(start.closed_trade_ids@, trade_id);
            assert forall|i: int| 0 <= i < self.active_trade_ids@.len() implies
                (#[trigger] self.active_trade_ids@[i]).0 < self.trades_by_id@.len() by {
                let x = self.active_trade_ids@[i];
                assert(start.active_trade_ids@.contains(x));
            }
            assert forall|x: TradeId| x.0 < self.trades_by_id@.len() implies
                (#[trigger] self.active_trade_ids@.contains(x)) != self.closed_trade_ids@.contains(x) by {
                if x == trade_id {
                    assert(self.closed_trade_ids@[self.closed_trade_ids@.len() - 1] == x);
                } else {
                    if start.active_trade_ids@.contains(x) {
                        let w = choose|w: int| 0 <= w < start.active_trade_ids@.len() && start.active_trade_ids@[w] == x;
                        assert(self.active_trade_ids@.contains(start.active_trade_ids@[w]));
                    }
                    if self.active_trade_ids@.contains(x) {
                        let w = choose|w: int| 0 <= w < self.active_trade_ids@.len() && self.active_trade_ids@[w] == x;
                        assert(start.active_trade_ids@.contains(self.active_trade_ids@[w]));
                    }
                    if self.closed_trade_ids@.contains(x) {
                        let w = choose|w: int| 0 <= w < self.closed_trade_ids@.len() && self.closed_trade_ids@[w] == x;
                        assert(w < start.closed_trade_ids@.len());
                        assert(start.closed_trade_ids@[w] == x);
                    }
                    if start.closed_trade_ids@.contains(x) {
                        let w = choose|w: int| 0 <= w < start.closed_trade_ids@.len() && start.closed_trade_ids@[w] == x;
                        assert(self.closed_trade_ids@[w] == x);
                    }
                }
            }
            assert forall|x: TradeId| x.0 < self.trades_by_id@.len() implies
                self.active_trade_ids@.contains(x) != (#[trigger] self.closed_trade_ids@.contains(x)) by {
                assert(self.active_trade_ids@.contains(x) != self.closed_trade_ids@.contains(x));
            }
            assert forall|i: int| 0 <= i < self.trades_by_id@.len() implies
                (#[trigger] self.trades_by_id@[i]).id == TradeId(i as usize) by {
                assert(before_set.trades_by_id@[i].id == TradeId(i as usize));
            }
            assert forall|i: int| 0 <= i < self.trades_by_id@.len() implies
                valid_size(#[trigger] self.trades_by_id@[i].size) by {
                assert(valid_size(before_set.trades_by_id@[i].size));
            }
            assert forall|i: int| 0 <= i < self.trades_by_id@.len() implies
                links_below(#[trigger] self.trades_by_id@[i], self.next_order_id.0) by {
                assert(links_below(before_set.trades_by_id@[i], self.next_order_id.0));
            }
            assert forall|i: int| 0 <= i < self.trades_by_id@.len() implies
                links_back(#[trigger] self.trades_by_id@[i], i, self.orders_by_id) by {
                assert(links_back(before_set.trades_by_id@[i], i, self.orders_by_id));
            }
            assert forall|k: OrderId| #[trigger] self.orders_by_id.spec_get(k) is Some implies
                contingent_ok(self.orders_by_id.spec_get(k)->0, self.trades_by_id@) by {
                assert(contingent_ok(self.orders_by_id.spec_get(k)->0, before_set.trades_by_id@));
            }
            assert forall|i: int| 0 <= i < self.closed_trade_ids@.len() implies
                (#[trigger] self.closed_trade_ids@[i]).0 < self.trades_by_id@.len() by {
                if i < start.closed_trade_ids@.len() {
                    assert(start.closed_trade_ids@[i] == self.closed_trade_ids@[i]);
                }
            }
        }
        proof {
            assert forall|i: int| 0 <= i < self.active_trade_ids@.len() implies #[trigger] start.trades_by_id@[(
                self.active_trade_ids@[i].0 as int)].size == self.trades_by_id@[(self.active_trade_ids@[i].0 as int)].size by {
                let j = self.active_trade_ids@[i].0 as int;
                if j != trade_id.0 {
                    assert(self.trades_by_id@[j] == start.trades_by_id@[j]);
                }
            }
            lemma_net_same_sizes(start.trades_by_id@, self.trades_by_id@, self.active_trade_ids@);
            lemma_net_without(start.trades_by_id@, start.active_trade_ids@, trade_id);
            lemma_trade_ids_without(start.active_trade_ids@, trade_id);
            assert forall|t: TradeId|
                t.0 < start.trades_by_id@.len() && #[trigger] self.active_trade_ids@.contains(t) implies start.active_trade_ids@.contains(t) by {
                let w = choose|w: int| 0 <= w < self.active_trade_ids@.len() && self.active_trade_ids@[w] == t;
                assert(trade_ids_without(start.active_trade_ids@, trade_id)[w] == t);
            }
            self.lemma_keeps_closing_frame(start, trade_id.0 as int);
            self.lemma_keeps_brackets_frame(start, trade_id.0 as int);
        }
    }

    /// Closes `size` units (of the other sign) of trade `trade_id`: the whole
    /// trade, or a new trade split off from it that keeps its entry, while
    /// the rest stays open and its SL and TP orders shrink with it.
    fn reduce_trade(&mut self, trade_id: TradeId, price: P, size: i64, time_index: usize)
        requires
            old(self).wf(),
            trade_id.0 < old(self).trades_by_id@.len(),
            old(self).active_trade_ids@.contains(trade_id),
            opposed(size, old(self).trades_by_id@[trade_id.0 as int].size),
            abs_int(size as int) <= abs_int(old(self).trades_by_id@[trade_id.0 as int].size as int),
        ensures
            size != -old(self).trades_by_id@[trade_id.0 as int].size ==> (old(self).trades_by_id@[
                trade_id.0 as int].sl_order matches Some(o) ==> final(self).orders_by_id.spec_get(o) == match old(
                self,
            ).orders_by_id.spec_get(o) {
                Some(x) => Some(
                    Order {
                        size: OrderSize::Units((-(old(self).trades_by_id@[trade_id.0 as int].size + size)) as i64),
                        ..x
                    },
                ),
                None => None,
            }),
            size != -old(self).trades_by_id@[trade_id.0 as int].size ==> (old(self).trades_by_id@[
                trade_id.0 as int].tp_order matches Some(o) ==> final(self).orders_by_id.spec_get(o) == match old(
                self,
            ).orders_by_id.spec_get(o) {
                Some(x) => Some(
                    Order {
                        size: OrderSize::Units((-(old(self).trades_by_id@[trade_id.0 as int].size + size)) as i64),
                        ..x
                    },
                ),
                None => None,
            }),
            final(self).keeps_own_orders(*old(self)),
            bars_recorded(old(self).trades_by_id@, final(self).trades_by_id@, time_index),
            final(self).keeps_brackets(*old(self)),
            final(self).keeps_closing(*old(self)),
            final(self).trades_by_id@[trade_id.0 as int].sl_order == old(self).trades_by_id@[trade_id.0 as int].sl_order,
            final(self).trades_by_id@[trade_id.0 as int].tp_order == old(self).trades_by_id@[trade_id.0 as int].tp_order,
            forall|k: OrderId|
                old(self).trades_by_id@[trade_id.0 as int].sl_order != Some(k) && old(self).trades_by_id@[
                trade_id.0 as int].tp_order != Some(k) ==> #[trigger] final(self).orders_by_id.spec_get(k) == old(
                self,
            ).orders_by_id.spec_get(k),
            final(self).wf(),
            final(self).next_order_id == old(self).next_order_id,
            final(self).same_config(*old(self)),
            final(self).keeps_standalone(*old(self)),
            final(self).equity_curve@ == old(self).equity_curve@,
            final(self).warnings@ == old(self).warnings@,
            ({
                let prev = old(self).trades_by_id@[trade_id.0 as int];
                if size == -prev.size {
                    &&& final(self).trades_by_id@.len() == old(self).trades_by_id@.len()
                    &&& final(self).active_trade_ids@ == trade_ids_without(old(self).active_trade_ids@, trade_id)
                    &&& final(self).closed_trade_ids@ == old(self).closed_trade_ids@.push(trade_id)
                    &&& final(self).trades_by_id@[trade_id.0 as int].exit_price == Some(price)
                    &&& final(self).trades_by_id@[trade_id.0 as int].exit_bar == Some(time_index)
                    &&& final(self).trades_by_id@[trade_id.0 as int].size == prev.size
                } else {
                    let n = old(self).trades_by_id@.len();
                    let piece = final(self).trades_by_id@[n as int];
                    &&& final(self).trades_by_id@.len() == n + 1
                    &&& final(self).trades_by_id@[trade_id.0 as int].size == prev.size + size
                    &&& final(self).trades_by_id@[trade_id.0 as int].entry_price == prev.entry_price
                    &&& final(self).trades_by_id@[trade_id.0 as int].exit_price == prev.exit_price
                    &&& piece.size == -size
                    &&& piece.entry_price == prev.entry_price
                    &&& piece.entry_bar == prev.entry_bar
                    &&& piece.tag == prev.tag
                    &&& piece.exit_price == Some(price)
                    &&& piece.exit_bar == Some(time_index)
                    &&& final(self).active_trade_ids@ == trade_ids_without(
                        old(self).active_trade_ids@.push(TradeId(n as usize)),
                        TradeId(n as usize),
                    )
                    &&& final(self).closed_trade_ids@ == old(self).closed_trade_ids@.push(TradeId(n as usize))
                }
            }),
            forall|j: int| 0 <= j < old(self).trades_by_id@.len() && j != trade_id.0 ==>
                #[trigger] final(self).trades_by_id@[j] == old(self).trades_by_id@[j],
            net_units(final(self).trades_by_id@, final(self).active_trade_ids@) == net_units(
                old(self).trades_by_id@,
                old(self).active_trade_ids@,
            ) + size,
    {
        let prev_size = self.trades_by_id[trade_id.0].size;
        let entry_price = self.trades_by_id[trade_id.0].entry_price;
        let entry_bar = self.trades_by_id[trade_id.0].entry_bar;
        let tag = share_tag(&self.trades_by_id[trade_id.0].tag);
        let sl_order = self.trades_by_id[trade_id.0].sl_order;
        let tp_order = self.trades_by_id[trade_id.0].tp_order;
        let size_left = prev_size + size;
        if size_left == 0 {
            self.close_trade(trade_id, price, time_index);
            return;
        }
        let ghost start = *self;
        proof {
            assert(valid_size(prev_size));
            assert(links_back(start.trades_by_id@[trade_id.0 as int], trade_id.0 as int, start.orders_by_id));
        }
        let mut t = self.trades_by_id[trade_id.0].duplicate();
        t.size = size_left;
        self.trades_by_id.set(trade_id.0, t);
        proof {
            assert(links_below(start.trades_by_id@[trade_id.0 as int], start.next_order_id.0));
            self.lemma_relink(start, trade_id.0 as int);
        }
        if let Some(oid) = sl_order {
            self.resize_closing_order(oid, trade_id, -size_left);
        }
        if let Some(oid) = tp_order {
            self.resize_closing_order(oid, trade_id, -size_left);
        }
        let ghost resized = *self;
        proof {
            assert forall|i: int| 0 <= i < start.active_trade_ids@.len() && start.active_trade_ids@[i] != trade_id implies
                #[trigger] start.trades_by_id@[(start.active_trade_ids@[i].0 as int)].size == resized.trades_by_id@[(
                start.active_trade_ids@[i].0 as int)].size by {
                assert(start.active_trade_ids@[i].0 < start.trades_by_id@.len());
            }
            lemma_net_resize(start.trades_by_id@, resized.trades_by_id@, start.active_trade_ids@, trade_id);
        }
        let new_id = TradeId(self.trades_by_id.len());
        self.trades_by_id.push(Trade {
            id: new_id,
            size: -size,
            entry_price,
            exit_price: None,
            entry_bar,
            exit_bar: None,
            sl_order: None,
            tp_order: None,
            open_sl: None,
            tag,
            commission: P::zero(),
        });
        self.next_trade_id = TradeId(self.trades_by_id.len());
        self.active_trade_ids.push(new_id);
        proof {
            lemma_listed_once_open(resized.active_trade_ids@, resized.closed_trade_ids@, resized.trades_by_id@.len());
            assert forall|i: int| 0 <= i < self.trades_by_id@.len() implies
                (#[trigger] self.trades_by_id@[i]).id == TradeId(i as usize) by {
                if i < resized.trades_by_id@.len() {
                    assert(resized.trades_by_id@[i].id == TradeId(i as usize));
                }
            }
            assert forall|i: int| 0 <= i < self.trades_by_id@.len() implies
                valid_size(#[trigger] self.trades_by_id@[i].size) by {
                if i < resized.trades_by_id@.len() {
                    assert(valid_size(resized.trades_by_id@[i].size));
                }
            }
            assert forall|i: int| 0 <= i < self.trades_by_id@.len() implies
                links_below(#[trigger] self.trades_by_id@[i], self.next_order_id.0) by {
                if i < resized.trades_by_id@.len() {
                    assert(links_below(resized.trades_by_id@[i], self.next_order_id.0));
                }
            }
            assert forall|i: int| 0 <= i < self.trades_by_id@.len() implies
                links_back(#[trigger] self.trades_by_id@[i], i, self.orders_by_id) by {
                if i < resized.trades_by_id@.len() {
                    assert(links_back(resized.trades_by_id@[i], i, self.orders_by_id));
                }
            }
            assert forall|k: OrderId| #[trigger] self.orders_by_id.spec_get(k) is Some implies
                contingent_ok(self.orders_by_id.spec_get(k)->0, self.trades_by_id@) by {
                assert(contingent_ok(self.orders_by_id.spec_get(k)->0, resized.trades_by_id@));
            }
            assert forall|i: int| 0 <= i < self.active_trade_ids@.len() implies
                (#[trigger] self.active_trade_ids@[i]).0 < self.trades_by_id@.len() by {
                if i < resized.active_trade_ids@.len() {
                    assert(resized.active_trade_ids@[i] == self.active_trade_ids@[i]);
                }
            }
            assert forall|i: int| 0 <= i < self.closed_trade_ids@.len() implies
                (#[trigger] self.closed_trade_ids@[i]).0 < self.trades_by_id@.len() by {
                assert(resized.closed_trade_ids@[i] == self.closed_trade_ids@[i]);
            }
        }
        proof {
            assert forall|i: int| 0 <= i < resized.active_trade_ids@.len() implies
                #[trigger] resized.trades_by_id@[(resized.active_trade_ids@[i].0 as int)].size == self.trades_by_id@[(
                resized.active_trade_ids@[i].0 as int)].size by {
                assert(resized.active_trade_ids@[i].0 < resized.trades_by_id@.len());
            }
            lemma_net_same_sizes(resized.trades_by_id@, self.trades_by_id@, resized.active_trade_ids@);
            lemma_net_push(self.trades_by_id@, resized.active_trade_ids@, new_id);
        }
        let ghost pieced = *self;
        proof {
            assert forall|t: TradeId|
                t.0 < start.trades_by_id@.len() && #[trigger] pieced.active_trade_ids@.contains(t) implies start.active_trade_ids@.contains(t) by {
                let w = choose|w: int| 0 <= w < pieced.active_trade_ids@.len() && pieced.active_trade_ids@[w] == t;
                if w < start.active_trade_ids@.len() {
                    assert(start.active_trade_ids@[w] == t);
                }
            }
            assert(opposed(size, prev_size));
            pieced.lemma_keeps_closing_frame(start, trade_id.0 as int);
            pieced.lemma_keeps_brackets_frame(start, trade_id.0 as int);
        }
        self.close_trade(new_id, price, time_index);
        proof {
            self.lemma_keeps_closing_trans(pieced, start);
            self.lemma_keeps_brackets_trans(pieced, start);
        }
    }

    /// Sets the size of order `oid`, if stored and closing trade `trade_id`,
    /// to `units`, which must still close that trade.
    fn resize_closing_order(&mut self, oid: OrderId, trade_id: TradeId, units: i64)
        requires
            old(self).wf(),
            trade_id.0 < old(self).trades_by_id@.len(),
            opposed(units, old(self).trades_by_id@[trade_id.0 as int].size),
            old(self).orders_by_id.spec_get(oid) matches Some(o) ==> o.parent_trade == Some(trade_id),
        ensures
            final(self).keeps_own_orders(*old(self)),
            final(self).wf(),
            final(self).trades_by_id == old(self).trades_by_id,
            final(self).active_trade_ids == old(self).active_trade_ids,
            final(self).closed_trade_ids == old(self).closed_trade_ids,
            final(self).next_order_id == old(self).next_order_id,
            final(self).next_trade_id == old(self).next_trade_id,
            final(self).cash == old(self).cash,
            final(self).same_config(*old(self)),
            final(self).keeps_standalone(*old(self)),
            final(self).equity_curve@ == old(self).equity_curve@,
            final(self).warnings@ == old(self).warnings@,
            forall|k: OrderId| k != oid ==> #[trigger] final(self).orders_by_id.spec_get(k) == old(self).orders_by_id.spec_get(k),
            final(self).orders_by_id.spec_get(oid) matches Some(o) ==> o.parent_trade == Some(trade_id),
            final(self).orders_by_id.spec_get(oid) == match old(self).orders_by_id.spec_get(oid) {
                Some(o) => Some(Order { size: OrderSize::Units(units), ..o }),
                None => None,
            },
            final(self).order_queue == old(self).order_queue,
    {
        let ghost start = *self;
        match self.orders_by_id.get(oid) {
            Some(o) => {
                let mut o2 = o.duplicate();
                o2.size = OrderSize::Units(units);
                self.orders_by_id.insert(oid, o2);
                proof {
                    assert(oid.0 < start.next_order_id.0);
                    assert forall|i: int| 0 <= i < self.order_queue@.len() implies
                        #[trigger] self.orders_by_id.spec_get(self.order_queue@[i]) is Some by {
                        assert(start.orders_by_id.spec_get(start.order_queue@[i]) is Some);
                    }
                    assert forall|k: OrderId| #[trigger] self.orders_by_id.spec_get(k) is Some implies
                        contingent_ok(self.orders_by_id.spec_get(k)->0, self.trades_by_id@) by {
                        if k != oid {
                            assert(start.orders_by_id.spec_get(k) is Some);
                        }
                    }
                    assert forall|k: OrderId| #[trigger] self.orders_by_id.spec_get(k) is Some implies k.0 < self.next_order_id.0 by {
                        if k != oid {
                            assert(start.orders_by_id.spec_get(k) is Some);
                        }
                    }
                    assert forall|i: int| 0 <= i < self.trades_by_id@.len() implies
                        links_back(#[trigger] self.trades_by_id@[i], i, self.orders_by_id) by {
                        assert(links_back(start.trades_by_id@[i], i, start.orders_by_id));
                    }
                }
            },
            None => {},
        }
    }

    /// Opens a trade of `size` units at `price` in bar `time_index`, charges
    /// the entry commission, and places its TP, then its SL, order.
    fn open_trade<I: Clone>(
        &mut self,
        price: P,
        size: i64,
        sl: Option<P>,
        tp: Option<P>,
        time_index: usize,
        tag: Option<Arc<str>>,
        data: &Data<P, I>,
    ) -> (r: BtResult<TradeId>)
        requires
            old(self).wf(),
            data.wf(),
            valid_size(size),
        ensures
            sl is None && tp is None ==> r is Ok,
            final(self).keeps_own_orders(*old(self)),
            bars_recorded(old(self).trades_by_id@, final(self).trades_by_id@, time_index),
            final(self).keeps_brackets(*old(self)),
            r is Ok ==> {
                let t = final(self).trades_by_id@[old(self).trades_by_id@.len() as int];
                &&& tp matches Some(p) ==> (t.tp_order matches Some(k) && (final(self).orders_by_id.spec_get(k) matches Some(
                    o,
                ) && o.limit == Some(p) && o.stop is None))
                &&& tp is None ==> t.tp_order is None
                &&& sl matches Some(p) ==> (t.sl_order matches Some(k) && (final(self).orders_by_id.spec_get(k) matches Some(
                    o,
                ) && o.stop == Some(p) && o.limit is None))
                &&& sl is None ==> t.sl_order is None
            },
            forall|q: OrderId|
                old(self).orders_by_id.spec_get(q) is Some ==> #[trigger] final(self).orders_by_id.spec_get(q)
                    == old(self).orders_by_id.spec_get(q),
            final(self).wf(),
            final(self).trades_by_id@.len() == old(self).trades_by_id@.len() + 1,
            forall|j: int| 0 <= j < old(self).trades_by_id@.len() ==>
                #[trigger] final(self).trades_by_id@[j] == old(self).trades_by_id@[j],
            ({
                let t = final(self).trades_by_id@[old(self).trades_by_id@.len() as int];
                &&& t.size == size
                &&& t.entry_price == price
                &&& t.entry_bar == time_index
                &&& t.exit_price is None
                &&& t.tag == tag
                &&& t.open_sl == sl
            }),
            final(self).active_trade_ids@ == old(self).active_trade_ids@.push(TradeId(old(self).trades_by_id@.len() as usize)),
            final(self).closed_trade_ids@ == old(self).closed_trade_ids@,
            net_units(final(self).trades_by_id@, final(self).active_trade_ids@) == net_units(
                old(self).trades_by_id@,
                old(self).active_trade_ids@,
            ) + size,
            r matches Ok(id) ==> id == TradeId(old(self).trades_by_id@.len() as usize),
            r matches Err(e) ==> !(e is OutOfMoney),
            final(self).next_order_id.0 >= old(self).next_order_id.0,
            final(self).same_config(*old(self)),
            final(self).keeps_standalone(*old(self)),
            final(self).equity_curve@ == old(self).equity_curve@,
            final(self).warnings@ == old(self).warnings@,
    {
        let id = TradeId(self.trades_by_id.len());
        let ghost start = *self;
        self.trades_by_id.push(Trade {
            id,
            size,
            entry_price: price,
            exit_price: None,
            entry_bar: time_index,
            exit_bar: None,
            sl_order: None,
            tp_order: None,
            open_sl: sl,
            tag,
            commission: P::zero(),
        });
        self.next_trade_id = TradeId(self.trades_by_id.len());
        self.active_trade_ids.push(id);
        let fee = self.commission.compute(P::from_i64(size), price);
        self.cash = self.cash.minus(fee);
        proof {
            lemma_listed_once_open(start.active_trade_ids@, start.closed_trade_ids@, start.trades_by_id@.len());
            assert forall|i: int| 0 <= i < self.trades_by_id@.len() implies
                (#[trigger] self.trades_by_id@[i]).id == TradeId(i as usize) by {
                if i < start.trades_by_id@.len() {
                    assert(start.trades_by_id@[i].id == TradeId(i as usize));
                }
            }
            assert forall|i: int| 0 <= i < self.trades_by_id@.len() implies
                valid_size(#[trigger] self.trades_by_id@[i].size) by {
                if i < start.trades_by_id@.len() {
                    assert(valid_size(start.trades_by_id@[i].size));
                }
            }
            assert forall|i: int| 0 <= i < self.trades_by_id@.len() implies
                links_below(#[trigger] self.trades_by_id@[i], self.next_order_id.0) by {
                if i < start.trades_by_id@.len() {
                    assert(links_below(start.trades_by_id@[i], self.next_order_id.0));
                }
            }
            assert forall|i: int| 0 <= i < self.trades_by_id@.len() implies
                links_back(#[trigger] self.trades_by_id@[i], i, self.orders_by_id) by {
                if i < start.trades_by_id@.len() {
                    assert(links_back(start.trades_by_id@[i], i, self.orders_by_id));
                }
            }
            assert forall|k: OrderId| #[trigger] self.orders_by_id.spec_get(k) is Some implies
                contingent_ok(self.orders_by_id.spec_get(k)->0, self.trades_by_id@) by {
                assert(contingent_ok(self.orders_by_id.spec_get(k)->0, start.trades_by_id@));
            }
            assert forall|i: int| 0 <= i < self.active_trade_ids@.len() implies
                (#[trigger] self.active_trade_ids@[i]).0 < self.trades_by_id@.len() by {
                if i < start.active_trade_ids@.len() {
                    assert(start.active_trade_ids@[i] == self.active_trade_ids@[i]);
                }
            }
            assert forall|i: int| 0 <= i < self.closed_trade_ids@.len() implies
                (#[trigger] self.closed_trade_ids@[i]).0 < self.trades_by_id@.len() by {
                assert(start.closed_trade_ids@[i] == self.closed_trade_ids@[i]);
            }
        }
        let ghost opened = *self;
        proof {
            assert forall|k: int| 0 <= k < start.active_trade_ids@.len() implies #[trigger] start.trades_by_id@[(
                start.active_trade_ids@[k].0 as int)].size == self.trades_by_id@[(start.active_trade_ids@[k].0 as int)].size by {
                assert(start.active_trade_ids@[k].0 < start.trades_by_id@.len());
            }
            lemma_net_same_sizes(start.trades_by_id@, self.trades_by_id@, start.active_trade_ids@);
            lemma_net_push(self.trades_by_id@, start.active_trade_ids@, id);
        }
        if let Some(tp_price) = tp {
            let res = self.set_trade_tp(data, id, Some(tp_price));
            proof {
                assert forall|q: OrderId| start.orders_by_id.spec_get(q) is Some implies
                    #[trigger] self.orders_by_id.spec_get(q) == start.orders_by_id.spec_get(q) by {
                    assert(opened.order_at(q) == start.orders_by_id.spec_get(q));
                    assert(self.order_at(q) == opened.order_at(q));
                }
                self.lemma_net_kept(opened, id.0 as int);
                start.lemma_keeps_own_orders_refl();
                assert(opened.keeps_own_orders(start));
                self.lemma_keeps_own_orders_trans(opened, start);
            }
            res?;
        }
        let ghost with_tp = *self;
        proof {
            if tp is None {
                assert(opened.keeps_own_orders(start));
            }
            assert(with_tp.keeps_own_orders(start));
            assert(opened.trades_by_id@[id.0 as int].sl_order is None);
            assert(opened.trades_by_id@[id.0 as int].tp_order is None);
            assert(with_tp.trades_by_id@[id.0 as int].sl_order is None);
        }
        proof {
            assert forall|q: OrderId| start.orders_by_id.spec_get(q) is Some implies
                #[trigger] with_tp.orders_by_id.spec_get(q) == start.orders_by_id.spec_get(q) by {
                assert(contingent_ok(start.orders_by_id.spec_get(q)->0, start.trades_by_id@));
                if tp is Some {
                    assert(opened.order_at(q) == start.orders_by_id.spec_get(q));
                    assert(with_tp.order_at(q) == opened.order_at(q));
                }
            }
        }
        if let Some(sl_price) = sl {
            let res = self.set_trade_sl(data, id, Some(sl_price));
            proof {
                self.lemma_net_kept(with_tp, id.0 as int);
                self.lemma_keeps_own_orders_trans(with_tp, start);
                assert forall|q: OrderId| start.orders_by_id.spec_get(q) is Some implies
                    #[trigger] self.orders_by_id.spec_get(q) == start.orders_by_id.spec_get(q) by {
                    assert(contingent_ok(start.orders_by_id.spec_get(q)->0, start.trades_by_id@));
                    assert(with_tp.orders_by_id.spec_get(q) == start.orders_by_id.spec_get(q));
                    assert(links_back(with_tp.trades_by_id@[id.0 as int], id.0 as int, with_tp.orders_by_id));
                    assert(self.order_at(q) == with_tp.order_at(q));
                }
            }
            res?;
        }
        proof {
            let tw = with_tp.trades_by_id@[id.0 as int];
            let tf = self.trades_by_id@[id.0 as int];
            if let Some(k) = tw.tp_order {
                if sl is Some {
                    assert(with_tp.order_at(k) is Some);
                    assert(self.order_at(k) == with_tp.order_at(k));
                }
            }
        }
        Ok(id)
    }
}

impl<P: Scalar, C: CommissionModel<P>> Broker<P, C> {
    /// The open trades whose side differs from `is_long`, in opening order.
    fn opposite_trades(&self, is_long: bool) -> (r: Vec<TradeId>)
        requires
            self.wf(),
        ensures
            forall|i: int| 0 <= i < r@.len() ==> (#[trigger] r@[i]).0 < self.trades_by_id@.len(),
            forall|i: int| 0 <= i < r@.len() ==> self.active_trade_ids@.contains(#[trigger] r@[i]),
            r@.no_duplicates(),
            r@ == self.active_trade_ids@.filter(other_side(self.trades_by_id@, is_long)),
    {
        let mut r: Vec<TradeId> = Vec::new();
        let mut i: usize = 0;
        while i < self.active_trade_ids.len()
            invariant
                self.wf(),
                i <= self.active_trade_ids@.len(),
                forall|k: int| 0 <= k < r@.len() ==> (#[trigger] r@[k]).0 < self.trades_by_id@.len(),
                forall|k: int| 0 <= k < r@.len() ==> self.active_trade_ids@.subrange(0, i as int).contains(#[trigger] r@[k]),
                r@.no_duplicates(),
                r@ == self.active_trade_ids@.subrange(0, i as int).filter(other_side(self.trades_by_id@, is_long)),
            decreases self.active_trade_ids@.len() - i,
        {
            proof {
                reveal(Seq::filter);
                assert(self.active_trade_ids@.subrange(0, i + 1).drop_last() == self.active_trade_ids@.subrange(0, i as int));
            }
            let tid = self.active_trade_ids[i];
            let ghost before = r@;
            if self.trades_by_id[tid.0].is_long() != is_long {
                proof {
                    assert(!before.contains(tid)) by {
                        if before.contains(tid) {
                            let w = choose|w: int| 0 <= w < before.len() && before[w] == tid;
                            assert(self.active_trade_ids@.subrange(0, i as int).contains(before[w]));
                            let v = choose|v: int| 0 <= v < i && self.active_trade_ids@.subrange(0, i as int)[v] == tid;
                            assert(self.active_trade_ids@[v] == self.active_trade_ids@[i as int]);
                        }
                    }
                    lemma_push_no_duplicates(before, tid);
                }
                r.push(tid);
            }
            proof {
                assert forall|k: int| 0 <= k < r@.len() implies self.active_trade_ids@.subrange(0, i + 1).contains(#[trigger] r@[k]) by {
                    if k < before.len() {
                        let v = choose|v: int| 0 <= v < i && self.active_trade_ids@.subrange(0, i as int)[v] == before[k];
                        assert(self.active_trade_ids@.subrange(0, i + 1)[v] == before[k]);
                    } else {
                        assert(self.active_trade_ids@.subrange(0, i + 1)[i as int] == tid);
                    }
                }
            }
            i = i + 1;
        }
        proof {
            assert(self.active_trade_ids@.subrange(0, i as int) == self.active_trade_ids@);
        }
        r
    }

    /// Fills an order that closes no trade at `price` in bar `time_index`:
    /// sizes a relative order by the available margin, closes or reduces
    /// open trades of the other side first (unless hedging), and opens a
    /// trade for what is left, when the margin allows. Whether a trade was
    /// opened.
    fn fill_standalone_order<I: Clone>(&mut self, order: &Order<P>, price: P, time_index: usize, data: &Data<P, I>) -> (r: BtResult<bool>)
        requires
            old(self).wf(),
            data.wf(),
            order.parent_trade is None,
        ensures
            order.sl is None && order.tp is None ==> r is Ok,
            final(self).keeps_own_orders(*old(self)),
            bars_recorded(old(self).trades_by_id@, final(self).trades_by_id@, time_index),
            final(self).keeps_brackets(*old(self)),
            r matches Ok(true) ==> exists|long: bool, adj: P|
                #![trigger call_ensures(Broker::<P, C>::adjusted_price::<I>, (old(self), long, data, Some(price)), adj)]
                call_ensures(Order::<P>::is_long, (order,), long) && call_ensures(
                    Broker::<P, C>::adjusted_price::<I>,
                    (old(self), long, data, Some(price)),
                    adj,
                ) && final(self).trades_by_id@.last().entry_price == adj,
            r matches Ok(false) ==> forall|t: TradeId|
                #[trigger] final(self).active_trade_ids@.contains(t) ==> old(self).active_trade_ids@.contains(t),
            r matches Ok(true) ==> order.size matches OrderSize::Fraction(f) ==> exists|
                is_long: bool,
                adj: P,
                fee: P,
                raw_abs: P,
                fee_per_unit: P,
                appc: P,
                margin: P,
                levered: P,
                f_abs: P,
                budget: P,
                quotient: P,
                units: P,
                z: P,
                nonneg: bool,
                signed: P,
                k: i64,
                n: i64,
            |
                #![trigger sizing_price(*old(self), *data, *order, f, price, is_long, adj, fee, raw_abs, fee_per_unit, appc), fraction_units(*old(self), *data, f, appc, margin, levered, f_abs, budget, quotient, units, z, nonneg, signed, k, n)]
                sizing_price(*old(self), *data, *order, f, price, is_long, adj, fee, raw_abs, fee_per_unit, appc)
                    && fraction_units(*old(self), *data, f, appc, margin, levered, f_abs, budget, quotient, units, z, nonneg, signed, k, n)
                    && net_units(final(self).trades_by_id@, final(self).active_trade_ids@) == net_units(
                    old(self).trades_by_id@,
                    old(self).active_trade_ids@,
                ) + n,
            r matches Ok(true) ==> {
                let t = final(self).trades_by_id@.last();
                &&& final(self).trades_by_id@.len() > 0
                &&& t.tag == order.tag
                &&& t.entry_bar == time_index
                &&& order.sl matches Some(p) ==> (t.sl_order matches Some(k) && (final(self).orders_by_id.spec_get(k) matches Some(
                    o,
                ) && o.stop == Some(p) && o.limit is None))
                &&& order.sl is None ==> t.sl_order is None
                &&& order.tp matches Some(p) ==> (t.tp_order matches Some(k) && (final(self).orders_by_id.spec_get(k) matches Some(
                    o,
                ) && o.limit == Some(p) && o.stop is None))
                &&& order.tp is None ==> t.tp_order is None
            },
            final(self).keeps_closing(*old(self)),
            !old(self).hedging && old(self).one_side() && order.size is Units ==> final(self).one_side(),
            !old(self).hedging && old(self).one_side() ==> final(self).one_side() || forall|t: TradeId|
                #[trigger] old(self).active_trade_ids@.contains(t) ==> final(self).active_trade_ids@.contains(t)
                    && final(self).trades_by_id@[t.0 as int].size == old(self).trades_by_id@[t.0 as int].size,
            forall|long: bool|
                oldest_first(
                    #[trigger] old(self).active_trade_ids@.filter(other_side(old(self).trades_by_id@, long)),
                    old(self).trades_by_id@,
                    final(self).trades_by_id@,
                    final(self).active_trade_ids@,
                ),
            final(self).wf(),
            final(self).same_config(*old(self)),
            final(self).keeps_standalone(*old(self)),
            final(self).next_order_id.0 >= old(self).next_order_id.0,
            final(self).equity_curve@ == old(self).equity_curve@,
            final(self).trades_by_id@.len() >= old(self).trades_by_id@.len(),
            old(self).hedging ==> final(self).closed_trade_ids@ == old(self).closed_trade_ids@,
            r matches Ok(true) ==> final(self).trades_by_id@.len() > old(self).trades_by_id@.len(),
            r matches Err(e) ==> !(e is OutOfMoney),
            r matches Ok(true) && order.size is Units && order.size->Units_0 != i64::MIN ==> net_units(
                final(self).trades_by_id@,
                final(self).active_trade_ids@,
            ) == net_units(old(self).trades_by_id@, old(self).active_trade_ids@) + order.size->Units_0,
            r matches Ok(false) && order.size is Units && order.size->Units_0 != i64::MIN
                ==> final(self).warnings@.len() == old(self).warnings@.len() + 1 || net_units(
                final(self).trades_by_id@,
                final(self).active_trade_ids@,
            ) == net_units(old(self).trades_by_id@, old(self).active_trade_ids@) + order.size->Units_0,
    {
        let side_of = Order::<P>::is_long;
        let adjust = Self::adjusted_price::<I>;
        let fee_of = C::compute;
        let magnitude_of = P::abs;
        let divide = P::divided_by;
        let sum_of = P::plus;
        let product = P::times;
        let round_down = P::floor;
        let zero = P::zero;
        let at_least = P::ge;
        let negate = P::negated;
        let whole = P::to_i64;
        let margin_of = Self::margin_available::<I>;
        let is_long = side_of(order);
        let adjusted_price = adjust(self, is_long, data, Some(price));
        let raw_size = order.size.signed_value();
        let fee = fee_of(&self.commission, raw_size, price);
        let raw_abs = magnitude_of(raw_size);
        let commission_per_unit = divide(fee, raw_abs);
        let adjusted_price_plus_commission = sum_of(adjusted_price, commission_per_unit);
        let ghost sized = *self;
        let ghost mut n_sized: i64 = 0;
        proof {
            assert(sizing_price(sized, *data, *order, raw_size, price, is_long, adjusted_price, fee, raw_abs,
                commission_per_unit, adjusted_price_plus_commission));
        }
        let mut need_size: i64 = match order.size {
            OrderSize::Units(u) => u,
            OrderSize::Fraction(f) => {
                let margin_available = margin_of(self, data);
                let levered = product(margin_available, self.leverage);
                let f_abs = magnitude_of(f);
                let budget = product(levered, f_abs);
                let quotient = divide(budget, adjusted_price_plus_commission);
                let units = round_down(quotient);
                let z = zero();
                let nonneg = at_least(f, z);
                let signed_units = if nonneg {
                    units
                } else {
                    negate(units)
                };
                let k = whole(signed_units);
                proof {
                    n_sized = if k == i64::MIN { (-i64::MAX) as i64 } else { k };
                    assert(fraction_units(sized, *data, f, adjusted_price_plus_commission, margin_available, levered,
                        f_abs, budget, quotient, units, z, nonneg, signed_units, k, n_sized));
                }
                if signed_units.equals(P::zero()) {
                    let equity = self.equity(data);
                    let ghost entry = *old(self);
                    self.warnings.push(
                        Warning::RelativeOrderCanceled { bar: self.current_bar, equity, margin_available },
                    );
                    proof {
                        self.lemma_keeps_closing_frame(entry, -1);
                        self.lemma_keeps_brackets_frame(entry, -1);
                        assert forall|long: bool|
                            oldest_first(
                                #[trigger] entry.active_trade_ids@.filter(other_side(entry.trades_by_id@, long)),
                                entry.trades_by_id@,
                                self.trades_by_id@,
                                self.active_trade_ids@,
                            ) by {
                            let f = entry.active_trade_ids@.filter(other_side(entry.trades_by_id@, long));
                            assert forall|k: int| 0 <= k < f.len() implies #[trigger] self.active_trade_ids@.contains(f[k])
                                && self.trades_by_id@[f[k].0 as int].size == entry.trades_by_id@[f[k].0 as int].size by {
                                assert(f.contains(f[k]));
                                entry.active_trade_ids@.lemma_filter_contains_rev(other_side(entry.trades_by_id@, long), f[k]);
                            }
                            lemma_oldest_first_untouched(f, entry.trades_by_id@, self.trades_by_id@, self.active_trade_ids@);
                        }
                    }
                    return Ok(false);
                }
                k
            },
        };
        // A size is negated when it is closed: keep it within the range
        // whose negation is a size too.
        if need_size == i64::MIN {
            need_size = -i64::MAX;
        }
        let ghost start = *self;
        let ghost need0 = need_size;
        proof {
            start.lemma_keeps_own_orders_refl();
            start.lemma_keeps_closing_frame(*old(self), -1);
            start.lemma_keeps_brackets_frame(*old(self), -1);
        }
        proof {
            assert(self.side_kept(start));
        }
        if !self.hedging {
            let opposite = self.opposite_trades(is_long);
            proof {
                broadcast use vstd::seq_lib::group_filter_ensures;
                assert forall|k: int| 0 <= k < opposite@.len() implies (start.trades_by_id@[(#[trigger] opposite@[k]).0 as int].size > 0) != is_long by {
                    assert(other_side(start.trades_by_id@, is_long)(opposite@[k]));
                }
            }
            let mut i: usize = 0;
            while i < opposite.len()
                invariant_except_break
                    forall|k: int| i <= k < opposite@.len() ==> self.active_trade_ids@.contains(#[trigger] opposite@[k]),
                    forall|k: int| i <= k < opposite@.len() ==> #[trigger] self.trades_by_id@[opposite@[k].0 as int].size
                        == start.trades_by_id@[opposite@[k].0 as int].size,
                invariant
                    self.wf(),
                    i <= opposite@.len(),
                    forall|k: int| 0 <= k < opposite@.len() ==> (#[trigger] opposite@[k]).0 < self.trades_by_id@.len(),
                    opposite@.no_duplicates(),
                    need_size != i64::MIN,
                    net_units(self.trades_by_id@, self.active_trade_ids@) + need_size == net_units(
                        start.trades_by_id@,
                        start.active_trade_ids@,
                    ) + need0,
                    self.warnings@ == start.warnings@,
                    self.keeps_own_orders(start),
                    self.keeps_closing(start),
                    self.keeps_brackets(start),
                    start.keeps_closing(*old(self)),
                    start.keeps_brackets(*old(self)),
                    self.side_kept(start),
                    bars_recorded(start.trades_by_id@, self.trades_by_id@, time_index),
                    forall|k: int| 0 <= k < opposite@.len() ==> (start.trades_by_id@[(#[trigger] opposite@[k]).0 as int].size > 0) != is_long,
                    opposite@ == start.active_trade_ids@.filter(other_side(start.trades_by_id@, is_long)),
                    order.size is Units ==> (need_size == 0 || (need_size > 0) == is_long),
                    need_size != 0 && (need_size > 0) != is_long ==> self.trades_by_id@ == start.trades_by_id@
                        && self.active_trade_ids@ == start.active_trade_ids@,
                    forall|t: TradeId|
                        #[trigger] start.active_trade_ids@.contains(t) && (start.trades_by_id@[t.0 as int].size > 0) == is_long
                            ==> self.active_trade_ids@.contains(t) && self.trades_by_id@[t.0 as int].size
                            == start.trades_by_id@[t.0 as int].size,
                    need_size != 0 ==> forall|k: int| 0 <= k < i ==> !self.active_trade_ids@.contains(#[trigger] opposite@[k]),
                    oldest_first(opposite@, start.trades_by_id@, self.trades_by_id@, self.active_trade_ids@),
                    old(self).wf(),
                    start.wf(),
                    self.same_config(start),
                    self.keeps_standalone(start),
                    self.next_order_id == start.next_order_id,
                    self.equity_curve@ == start.equity_curve@,
                    self.trades_by_id@.len() >= start.trades_by_id@.len(),
                    !self.hedging,
                ensures
                    need_size != 0 && (need_size > 0) == is_long ==> forall|k: int|
                        0 <= k < opposite@.len() ==> !self.active_trade_ids@.contains(#[trigger] opposite@[k]),
                decreases opposite@.len() - i,
            {
                let trade_id = opposite[i];
                let trade_size = self.trades_by_id[trade_id.0].size;
                proof {
                    assert(valid_size(self.trades_by_id@[trade_id.0 as int].size));
                }
                if need_size == 0 || (need_size > 0) == (trade_size > 0) {
                    proof {
                        if need_size != 0 && (need_size > 0) == is_long {
                            assert(self.active_trade_ids@.contains(opposite@[i as int]));
                            assert((start.trades_by_id@[opposite@[i as int].0 as int].size > 0) != is_long);
                        }
                    }
                    break;
                }
                if magnitude(need_size) >= magnitude(trade_size) {
                    let ghost before = self.active_trade_ids@;
                    let ghost mid = *self;
                    self.close_trade(trade_id, price, time_index);
                    proof {
                        self.lemma_keeps_own_orders_trans(mid, start);
                        self.lemma_keeps_closing_trans(mid, start);
                        self.lemma_keeps_brackets_trans(mid, start);
                        lemma_bars_recorded_trans(start.trades_by_id@, mid.trades_by_id@, self.trades_by_id@, time_index);
                        lemma_trade_ids_without(before, trade_id);
                        assert forall|k: int| i + 1 <= k < opposite@.len() implies self.active_trade_ids@.contains(#[trigger] opposite@[k]) by {
                            assert(before.contains(opposite@[k]));
                            let w = choose|w: int| 0 <= w < before.len() && before[w] == opposite@[k];
                            assert(opposite@[k] != opposite@[i as int]);
                        }
                    }
                    need_size = need_size + trade_size;
                } else {
                    let ghost mid = *self;
                    self.reduce_trade(trade_id, price, need_size, time_index);
                    proof {
                        lemma_bars_recorded_trans(start.trades_by_id@, mid.trades_by_id@, self.trades_by_id@, time_index);
                        self.lemma_keeps_own_orders_trans(mid, start);
                        self.lemma_keeps_closing_trans(mid, start);
                        self.lemma_keeps_brackets_trans(mid, start);
                    }
                    need_size = 0;
                }
                if need_size == 0 {
                    break;
                }
                i = i + 1;
            }
            proof {
                if need_size != 0 && (need_size > 0) == is_long {
                    assert forall|t: TradeId| #[trigger] self.active_trade_ids@.contains(t) implies (self.trades_by_id@[t.0 as int].size
                        > 0) == is_long by {
                        if (start.trades_by_id@[t.0 as int].size > 0) != is_long {
                            let w = choose|w: int| 0 <= w < start.active_trade_ids@.len() && start.active_trade_ids@[w] == t;
                            start.active_trade_ids@.lemma_filter_contains(other_side(start.trades_by_id@, is_long), w);
                            let k = choose|k: int| 0 <= k < opposite@.len() && opposite@[k] == t;
                            assert(!self.active_trade_ids@.contains(opposite@[k]));
                        }
                    }
                }
            }
        }
        let ghost swept = *self;
        proof {
            assert(bars_recorded(start.trades_by_id@, swept.trades_by_id@, time_index));
            if !start.hedging && need_size != 0 && (need_size > 0) == is_long {
                assert forall|t: TradeId| #[trigger] swept.active_trade_ids@.contains(t) implies (swept.trades_by_id@[t.0 as int].size
                    > 0) == is_long by {
                }
            }
            assert(start.active_trade_ids@ == old(self).active_trade_ids@);
            assert(start.trades_by_id@ == old(self).trades_by_id@);
            broadcast use vstd::seq_lib::group_filter_ensures;
            assert forall|long: bool|
                oldest_first(
                    #[trigger] start.active_trade_ids@.filter(other_side(start.trades_by_id@, long)),
                    start.trades_by_id@,
                    swept.trades_by_id@,
                    swept.active_trade_ids@,
                ) by {
                let f = start.active_trade_ids@.filter(other_side(start.trades_by_id@, long));
                if start.hedging {
                    assert forall|k: int| 0 <= k < f.len() implies #[trigger] swept.active_trade_ids@.contains(f[k])
                        && swept.trades_by_id@[f[k].0 as int].size == start.trades_by_id@[f[k].0 as int].size by {
                        assert(f.contains(f[k]));
                        start.active_trade_ids@.lemma_filter_contains_rev(other_side(start.trades_by_id@, long), f[k]);
                    }
                    lemma_oldest_first_untouched(f, start.trades_by_id@, swept.trades_by_id@, swept.active_trade_ids@);
                } else if long != is_long {
                    assert forall|k: int| 0 <= k < f.len() implies #[trigger] swept.active_trade_ids@.contains(f[k])
                        && swept.trades_by_id@[f[k].0 as int].size == start.trades_by_id@[f[k].0 as int].size by {
                        assert(f.contains(f[k]));
                        start.active_trade_ids@.lemma_filter_contains_rev(other_side(start.trades_by_id@, long), f[k]);
                        assert(other_side(start.trades_by_id@, long)(f[k]));
                    }
                    lemma_oldest_first_untouched(f, start.trades_by_id@, swept.trades_by_id@, swept.active_trade_ids@);
                }
            }
            if !start.hedging && old(self).one_side() {
                assert forall|t1: TradeId, t2: TradeId|
                    swept.active_trade_ids@.contains(t1) && swept.active_trade_ids@.contains(t2) implies (swept.trades_by_id@[t1.0 as int].size
                        > 0) == (swept.trades_by_id@[t2.0 as int].size > 0) by {
                    assert(start.active_trade_ids@.contains(t1) && start.active_trade_ids@.contains(t2));
                }
            }
        }
        let margin_available = self.margin_available(data);
        if P::from_u64(magnitude(need_size)).times(adjusted_price_plus_commission).gt(
            margin_available.times(self.leverage),
        ) {
            let equity = self.equity(data);
            let available = self.margin_available(data);
            let ghost mid = *self;
            self.warnings.push(
                Warning::OrderCanceled { bar: self.current_bar, equity, margin_available: available },
            );
            proof {
                self.lemma_keeps_closing_frame(mid, -1);
                self.lemma_keeps_closing_trans(mid, start);
                self.lemma_keeps_closing_trans(start, *old(self));
                self.lemma_keeps_brackets_frame(mid, -1);
                self.lemma_keeps_brackets_trans(mid, start);
                self.lemma_keeps_brackets_trans(start, *old(self));
                assert forall|long: bool|
                    oldest_first(
                        #[trigger] old(self).active_trade_ids@.filter(other_side(old(self).trades_by_id@, long)),
                        old(self).trades_by_id@,
                        self.trades_by_id@,
                        self.active_trade_ids@,
                    ) by {
                    assert(oldest_first(
                        start.active_trade_ids@.filter(other_side(start.trades_by_id@, long)),
                        start.trades_by_id@,
                        swept.trades_by_id@,
                        swept.active_trade_ids@,
                    ));
                }
            }
            return Ok(false);
        }
        if need_size != 0 {
            let ghost mid = *self;
            let res = self.open_trade(
                adjusted_price,
                need_size,
                order.sl,
                order.tp,
                time_index,
                share_tag(&order.tag),
                data,
            );
            proof {
                self.lemma_keeps_own_orders_trans(mid, start);
                self.lemma_keeps_closing_frame(mid, -1);
                self.lemma_keeps_closing_trans(mid, start);
                self.lemma_keeps_closing_trans(start, *old(self));
                self.lemma_keeps_brackets_frame(mid, -1);
                self.lemma_keeps_brackets_trans(mid, start);
                self.lemma_keeps_brackets_trans(start, *old(self));
                assert forall|long: bool|
                    oldest_first(
                        #[trigger] old(self).active_trade_ids@.filter(other_side(old(self).trades_by_id@, long)),
                        old(self).trades_by_id@,
                        self.trades_by_id@,
                        self.active_trade_ids@,
                    ) by {
                    let f = start.active_trade_ids@.filter(other_side(start.trades_by_id@, long));
                    assert(oldest_first(f, start.trades_by_id@, swept.trades_by_id@, swept.active_trade_ids@));
                    assert forall|k: int| 0 <= k < f.len() implies (#[trigger] self.active_trade_ids@.contains(f[k])
                        <==> swept.active_trade_ids@.contains(f[k])) by {
                        assert(f.contains(f[k]));
                        start.active_trade_ids@.lemma_filter_contains_rev(other_side(start.trades_by_id@, long), f[k]);
                        assert(start.active_trade_ids@.contains(f[k]));
                        assert(f[k].0 < start.trades_by_id@.len());
                        if self.active_trade_ids@.contains(f[k]) {
                            let w = choose|w: int| 0 <= w < self.active_trade_ids@.len() && self.active_trade_ids@[w] == f[k];
                            if w < mid.active_trade_ids@.len() {
                                assert(mid.active_trade_ids@[w] == f[k]);
                            }
                        }
                    }
                    assert forall|k: int| 0 <= k < f.len() implies #[trigger] self.trades_by_id@[f[k].0 as int]
                        == swept.trades_by_id@[f[k].0 as int] by {
                        assert(f.contains(f[k]));
                        start.active_trade_ids@.lemma_filter_contains_rev(other_side(start.trades_by_id@, long), f[k]);
                        assert(start.active_trade_ids@.contains(f[k]));
                        assert(f[k].0 < start.trades_by_id@.len());
                    }
                    lemma_oldest_first_kept(f, start.trades_by_id@, swept.trades_by_id@, swept.active_trade_ids@,
                        self.trades_by_id@, self.active_trade_ids@);
                }
                if !start.hedging && (need_size > 0) == is_long {
                    let n = TradeId(mid.trades_by_id@.len() as usize);
                    assert forall|t: TradeId| #[trigger] self.active_trade_ids@.contains(t) implies (self.trades_by_id@[t.0 as int].size
                        > 0) == is_long by {
                        let w = choose|w: int| 0 <= w < self.active_trade_ids@.len() && self.active_trade_ids@[w] == t;
                        if w < mid.active_trade_ids@.len() {
                            assert(mid.active_trade_ids@[w] == t);
                            assert(mid.active_trade_ids@.contains(t));
                            assert(self.trades_by_id@[t.0 as int] == mid.trades_by_id@[t.0 as int]);
                        } else {
                            assert(t == n);
                        }
                    }
                }
            }
            proof {
                lemma_bars_recorded_trans(start.trades_by_id@, mid.trades_by_id@, self.trades_by_id@, time_index);
            }
            res?;
            return Ok(true);
        }
        proof {
            self.lemma_keeps_closing_trans(start, *old(self));
            self.lemma_keeps_brackets_trans(start, *old(self));
            assert forall|long: bool|
                oldest_first(
                    #[trigger] old(self).active_trade_ids@.filter(other_side(old(self).trades_by_id@, long)),
                    old(self).trades_by_id@,
                    self.trades_by_id@,
                    self.active_trade_ids@,
                ) by {
                assert(oldest_first(
                    start.active_trade_ids@.filter(other_side(start.trades_by_id@, long)),
                    start.trades_by_id@,
                    swept.trades_by_id@,
                    swept.active_trade_ids@,
                ));
            }
        }
        Ok(false)
    }
}

impl<P: Scalar, C: CommissionModel<P>> Broker<P, C> {
    /// Stores `order` in place of the stored order with its id, which closes
    /// the same trade (or none) with the same size.
    fn replace_order(&mut self, order: Order<P>)
        requires
            old(self).wf(),
            old(self).orders_by_id.spec_get(order.id) matches Some(o) && o.parent_trade == order.parent_trade
                && o.size == order.size,
        ensures
            final(self).wf(),
            final(self).trades_by_id == old(self).trades_by_id,
            final(self).active_trade_ids == old(self).active_trade_ids,
            final(self).closed_trade_ids == old(self).closed_trade_ids,
            final(self).order_queue == old(self).order_queue,
            final(self).next_order_id == old(self).next_order_id,
            final(self).cash == old(self).cash,
            final(self).same_config(*old(self)),
            final(self).keeps_standalone(*old(self)),
            final(self).equity_curve@ == old(self).equity_curve@,
            final(self).warnings@ == old(self).warnings@,
            final(self).orders_by_id.spec_get(order.id) == Some(order),
            forall|k: OrderId| k != order.id ==> #[trigger] final(self).orders_by_id.spec_get(k) == old(
                self,
            ).orders_by_id.spec_get(k),
            order.parent_trade is Some ==> final(self).keeps_own_orders(*old(self)),
    {
        let ghost start = *self;
        let id = order.id;
        self.orders_by_id.insert(id, order);
        proof {
            assert(id.0 < start.next_order_id.0);
            assert forall|i: int| 0 <= i < self.order_queue@.len() implies
                #[trigger] self.orders_by_id.spec_get(self.order_queue@[i]) is Some by {
                assert(start.orders_by_id.spec_get(start.order_queue@[i]) is Some);
            }
            assert forall|k: OrderId| #[trigger] self.orders_by_id.spec_get(k) is Some implies
                contingent_ok(self.orders_by_id.spec_get(k)->0, self.trades_by_id@) by {
                assert(start.orders_by_id.spec_get(k) is Some);
            }
            assert forall|k: OrderId| #[trigger] self.orders_by_id.spec_get(k) is Some implies k.0 < self.next_order_id.0 by {
                assert(start.orders_by_id.spec_get(k) is Some);
            }
            assert forall|i: int| 0 <= i < self.trades_by_id@.len() implies
                links_back(#[trigger] self.trades_by_id@[i], i, self.orders_by_id) by {
                assert(links_back(start.trades_by_id@[i], i, start.orders_by_id));
            }
        }
    }

    /// Executes order `order_id`, stored as `order`, which closes trade
    /// `trade_id`, at `price` in bar `time_index`: when the trade is open,
    /// closes as many of its units as the order names (all of them at most);
    /// then drops the order unless it is the trade's SL or TP order. An SL
    /// order that was triggered at its own stop price gets that price back.
    fn settle_closing_order(
        &mut self,
        order_id: OrderId,
        order: &Order<P>,
        trade_id: TradeId,
        price: P,
        time_index: usize,
        stop_price: Option<P>,
    )
        requires
            old(self).wf(),
            old(self).orders_by_id.spec_get(order_id) == Some(*order),
            order.parent_trade == Some(trade_id),
            trade_id.0 < old(self).trades_by_id@.len(),
        ensures
            final(self).wf(),
            final(self).keeps_own_orders(*old(self)),
            bars_recorded(old(self).trades_by_id@, final(self).trades_by_id@, time_index),
            final(self).keeps_brackets(*old(self)),
            final(self).no_growth(*old(self)),
            forall|q: OrderId|
                q != order_id && old(self).closes_apart(q) ==> #[trigger] final(self).orders_by_id.spec_get(q)
                    == old(self).orders_by_id.spec_get(q) && final(self).closes_apart(q),
            final(self).same_config(*old(self)),
            standalone_count(final(self).orders_by_id@) <= standalone_count(old(self).orders_by_id@),
            final(self).next_order_id == old(self).next_order_id,
            final(self).equity_curve@ == old(self).equity_curve@,
            final(self).warnings@ == old(self).warnings@,
            old(self).closes_apart(order_id) ==> final(self).orders_by_id.spec_get(order_id) is None,
            order.size matches OrderSize::Units(u) ==> !final(self).active_trade_ids@.contains(trade_id) || abs_int(
                final(self).trades_by_id@[trade_id.0 as int].size as int,
            ) + abs_int(u as int) <= abs_int(old(self).trades_by_id@[trade_id.0 as int].size as int),
    {
        let ghost start = *self;
        proof {
            start.lemma_keeps_own_orders_refl();
            start.lemma_keeps_closing_refl();
        }
        let prev_size = self.trades_by_id[trade_id.0].size;
        let order_units = match order.size {
            OrderSize::Units(u) => u,
            OrderSize::Fraction(_) => {
                // never stored: orders that close a trade are in whole units
                self.remove_order(order_id);
                proof {
                    self.lemma_keeps_closing_frame(start, -1);
                }
                return;
            },
        };
        proof {
            assert(self.orders_by_id.spec_get(order_id) is Some);
            assert(contingent_ok(self.orders_by_id.spec_get(order_id)->0, self.trades_by_id@));
            assert(valid_size(prev_size));
        }
        let prev_mag = magnitude(prev_size);
        let order_mag = magnitude(order_units);
        let mag: i64 = if prev_mag < order_mag {
            prev_mag as i64
        } else {
            order_mag as i64
        };
        let close_size = if order_units >= 0 {
            mag
        } else {
            -mag
        };
        if contains_trade_id(&self.active_trade_ids, trade_id) {
            self.reduce_trade(trade_id, price, close_size, time_index);
            let ghost reduced = *self;
            // Restore the SL order's stop price after a same-price
            // trigger, so that the surviving (possibly resized)
            // order still behaves as a stop order on later bars.
            if let Some(sp) = stop_price {
                if price.equals(sp) && trade_id.0 < self.trades_by_id.len() {
                    if let Some(sl_oid) = self.trades_by_id[trade_id.0].sl_order {
                        match self.orders_by_id.get(sl_oid) {
                            Some(o) => {
                                let mut restored = o.duplicate();
                                restored.stop = Some(sp);
                                self.replace_order(restored);
                                proof {
                                    assert(links_back(reduced.trades_by_id@[trade_id.0 as int], trade_id.0 as int, reduced.orders_by_id));
                                    assert forall|q: OrderId| #![trigger self.orders_by_id.spec_get(q)]
                                        reduced.closes_apart(q) implies self.orders_by_id.spec_get(q)
                                            == reduced.orders_by_id.spec_get(q) && self.closes_apart(q) by {
                                        assert(q != sl_oid);
                                    }
                                    self.lemma_keeps_own_orders_trans(reduced, start);
                                    self.lemma_keeps_closing_trans(reduced, start);
                                }
                            },
                            None => {},
                        }
                    }
                }
            }
        }
        let ghost settled = *self;
        proof {
            assert(settled.keeps_own_orders(start));
            assert(settled.keeps_closing(start));
            assert(settled.trades_by_id@[trade_id.0 as int].sl_order == start.trades_by_id@[trade_id.0 as int].sl_order);
            assert(settled.trades_by_id@[trade_id.0 as int].tp_order == start.trades_by_id@[trade_id.0 as int].tp_order);
        }
        let is_bracket = if trade_id.0 < self.trades_by_id.len() {
            self.trades_by_id[trade_id.0].sl_order == Some(order_id)
                || self.trades_by_id[trade_id.0].tp_order == Some(order_id)
        } else {
            false
        };
        if !is_bracket {
            self.remove_order(order_id);
            proof {
                assert forall|q: OrderId| #![trigger self.orders_by_id.spec_get(q)]
                    q != order_id && settled.closes_apart(q) implies self.orders_by_id.spec_get(q)
                        == settled.orders_by_id.spec_get(q) && self.closes_apart(q) by {
                }
                self.lemma_keeps_own_orders_trans(settled, start);
            }
        }
    }

    /// Matches the pending orders against the last visible bar, in queue
    /// order: triggers stop orders, fills market and limit orders, closes or
    /// reduces trades for orders that close them, and opens trades for the
    /// others. When a market order opened a trade with SL/TP orders, the
    /// queue is matched again on the same bar.
    #[verifier::rlimit(100)]
    #[verifier::spinoff_prover]
    fn process_orders<I: Clone>(&mut self, data: &Data<P, I>) -> (r: BtResult<()>)
        requires
            old(self).wf(),
            data.wf(),
        ensures
            final(self).wf(),
            final(self).same_config(*old(self)),
            final(self).equity_curve@ == old(self).equity_curve@,
            final(self).trades_by_id@.len() >= old(self).trades_by_id@.len(),
            final(self).next_order_id.0 >= old(self).next_order_id.0,
            r matches Err(e) ==> !(e is OutOfMoney),
            r is Ok ==> forall|q: OrderId|
                #[trigger] old(self).market_own(q) ==> final(self).orders_by_id.spec_get(q) is None,
            r is Ok ==> forall|q: OrderId|
                #[trigger] old(self).close_request(q) ==> final(self).orders_by_id.spec_get(q) is None
                    && final(self).close_taken(*old(self), q),
            old(self).own_orders_plain() ==> r is Ok,
            final(self).keeps_brackets(*old(self)),
            final(self).no_growth(*old(self)),
            !old(self).on_close() ==> bars_recorded(old(self).trades_by_id@, final(self).trades_by_id@, old(self).bar()),
            old(self).lone_order() && data.visible() > 0 && r is Ok && final(self).active_trade_ids@.len() > 0
                ==> old(self).lone_entry(*data, final(self).trades_by_id@.last().entry_price),
            old(self).on_close() && old(self).only_market_orders() ==> bars_recorded(
                old(self).trades_by_id@,
                final(self).trades_by_id@,
                old(self).market_bar(),
            ),
    {
        let ghost start = *self;
        let side_of = Order::<P>::is_long;
        let lower = P::minimum;
        let upper = P::maximum;
        let not_a_number = P::is_nan;
        loop
            invariant
                start == *old(self),
                self.wf(),
                data.wf(),
                self.same_config(start),
                self.equity_curve@ == start.equity_curve@,
                self.trades_by_id@.len() >= start.trades_by_id@.len(),
                self.next_order_id.0 >= start.next_order_id.0,
                start.wf(),
                *self == start || self.market_settled(start, false, Seq::empty(), 0),
                *self == start || self.close_settled(start, false, Seq::empty(), 0),
                self.keeps_brackets(start),
                self.no_growth(start),
                start.own_orders_plain() ==> self.own_orders_plain(),
                !start.trade_on_close ==> bars_recorded(start.trades_by_id@, self.trades_by_id@, start.current_bar),
                start.trade_on_close && start.only_market_orders() ==> *self == start,
                start.lone_order() ==> *self == start,
            decreases standalone_count(self.orders_by_id@),
        {
            if self.order_queue.len() == 0 {
                proof {
                    if *self != start {
                        assert forall|q: OrderId| #[trigger] start.market_own(q) implies self.orders_by_id.spec_get(q) is None by {
                            self.lemma_market_settled_gone(start, q);
                        }
                        assert forall|q: OrderId| #[trigger] start.close_request(q) implies self.orders_by_id.spec_get(q) is None
                            && self.close_taken(start, q) by {
                            self.lemma_close_settled_gone(start, q);
                        }
                    } else {
                        assert forall|q: OrderId| #[trigger] start.close_request(q) implies self.orders_by_id.spec_get(q) is None
                            && self.close_taken(start, q) by {
                            assert(start.order_queue@.contains(q));
                        }
                    }
                }
                return Ok(());
            }
            let open = match data.at(Field::Open, -1) {
                Some(v) => v,
                None => P::nan(),
            };
            let high = match data.at(Field::High, -1) {
                Some(v) => v,
                None => P::nan(),
            };
            let low = match data.at(Field::Low, -1) {
                Some(v) => v,
                None => P::nan(),
            };
            let mut reprocess_orders = false;
            let ghost round = *self;
            let snapshot = copy_values(&self.order_queue);
            proof {
                self.lemma_market_settled_enter(start, round == start, snapshot@);
                self.lemma_close_settled_enter(start, round == start, snapshot@);
            }
            let mut k: usize = 0;
            while k < snapshot.len()
                invariant
                    start == *old(self),
                    self.wf(),
                    data.wf(),
                    self.same_config(start),
                    self.equity_curve@ == start.equity_curve@,
                    self.trades_by_id@.len() >= start.trades_by_id@.len(),
                    self.next_order_id.0 >= start.next_order_id.0,
                    k <= snapshot@.len(),
                    standalone_count(self.orders_by_id@) <= standalone_count(round.orders_by_id@),
                    reprocess_orders ==> standalone_count(self.orders_by_id@) < standalone_count(round.orders_by_id@),
                    start.wf(),
                    snapshot@ == round.order_queue@,
                    round == start ==> round == *old(self),
                    self.market_settled(start, round == start, snapshot@, k as int),
                    self.close_settled(start, round == start, snapshot@, k as int),
                    self.keeps_brackets(start),
                    self.no_growth(start),
                    start.own_orders_plain() ==> self.own_orders_plain(),
                    !start.trade_on_close ==> bars_recorded(start.trades_by_id@, self.trades_by_id@, start.current_bar),
                    data.visible() > 0 ==> open == data.column(Field::Open)[data.visible() - 1],
                    start.lone_order() ==> round == start && !reprocess_orders && (k == 0 ==> *self == start)
                        && (data.visible() > 0 && self.active_trade_ids@.len() > 0 ==> start.lone_entry(*data,
                        self.trades_by_id@.last().entry_price)),
                    start.trade_on_close && start.only_market_orders() ==> round == start && !reprocess_orders
                        && bars_recorded(start.trades_by_id@, self.trades_by_id@, start.market_bar()),
                decreases snapshot@.len() - k,
            {
                let ghost k0 = k as int;
                let order_id = snapshot[k];
                k = k + 1;
                // A related SL/TP order may already have been removed earlier
                // in this pass (e.g. a hedged position).
                let mut order = match self.orders_by_id.get(order_id) {
                    Some(o) => o.duplicate(),
                    None => {
                        proof {
                            self.lemma_market_settled_step(start, round == start, snapshot@, k0);
                            self.lemma_close_settled_step(start, round == start, snapshot@, k0);
                        }
                        continue;
                    },
                };
                let ghost read = *self;
                let ghost is_own_market = start.market_own(order_id);
                proof {
                    assert(self.orders_by_id.spec_get(order_id) == Some(order));
                    if is_own_market {
                        self.lemma_market_settled_at(start, round == start, snapshot@, k0, order_id);
                        assert(order.stop is None && order.limit is None && order.parent_trade is None);
                    }
                    if start.close_request(order_id) {
                        self.lemma_close_settled_at(start, round == start, snapshot@, k0, order_id);
                        assert(order.stop is None && order.limit is None && order.parent_trade is Some);
                        assert(order.size is Units);
                    }
                }
                // -- stop trigger? --
                let stop_price = order.stop;
                if let Some(sp) = stop_price {
                    let is_stop_hit = if order.is_long() {
                        high.ge(sp)
                    } else {
                        low.le(sp)
                    };
                    if !is_stop_hit {
                        proof {
                            self.lemma_market_settled_step(start, round == start, snapshot@, k0);
                            self.lemma_close_settled_step(start, round == start, snapshot@, k0);
                        }
                        continue;
                    }
                    // A triggered stop order becomes a market or limit order.
                    order.stop = None;
                    let ghost before_trigger = *self;
                    self.replace_order(order.duplicate());
                    proof {
                        self.lemma_market_settled_replace(before_trigger, start, round == start, snapshot@, k0, order_id);
                        self.lemma_close_settled_one(before_trigger, start, round == start, snapshot@, k0, order_id);
                        self.lemma_keeps_brackets_one(before_trigger, order_id);
                        self.lemma_keeps_brackets_trans(before_trigger, start);
                        self.lemma_no_growth_trans(before_trigger, start);
                        self.lemma_plain_replace(before_trigger, order_id);
                    }
                }
                let is_contingent = self.order_is_contingent(order_id);
                // -- determine the fill price --
                let price: P;
                let ghost mut fill_side: bool = false;
                if let Some(limit) = order.limit {
                    let is_limit_hit = if order.is_long() {
                        low.le(limit)
                    } else {
                        high.ge(limit)
                    };
                    let is_limit_hit_before_stop = is_limit_hit && if order.is_long() {
                        limit.le(
                            match stop_price {
                                Some(v) => v,
                                None => P::neg_infinity(),
                            },
                        )
                    } else {
                        limit.ge(
                            match stop_price {
                                Some(v) => v,
                                None => P::infinity(),
                            },
                        )
                    };
                    if !is_limit_hit || is_limit_hit_before_stop {
                        proof {
                            self.lemma_market_settled_step(start, round == start, snapshot@, k0);
                            self.lemma_close_settled_step(start, round == start, snapshot@, k0);
                        }
                        continue;
                    }
                    let base = match stop_price {
                        Some(v) => v,
                        None => open,
                    };
                    let long = side_of(&order);
                    price = if long {
                        lower(base, limit)
                    } else {
                        upper(base, limit)
                    };
                    proof {
                        fill_side = long;
                        if stop_price is None {
                            assert(limit_fill(order, open, long, price));
                        }
                    }
                } else {
                    let prev_close = match data.at(Field::Close, -2) {
                        Some(v) => v,
                        None => P::nan(),
                    };
                    let mut p = if self.trade_on_close && !is_contingent && !not_a_number(prev_close) {
                        prev_close
                    } else {
                        open
                    };
                    proof {
                        if stop_price is None && !is_contingent && data.visible() > 0 {
                            assert(market_fill(*data, self.trade_on_close, open, p));
                        }
                    }
                    if let Some(sp) = stop_price {
                        p = if order.is_long() {
                            p.maximum(sp)
                        } else {
                            p.minimum(sp)
                        };
                    }
                    price = p;
                }
                let is_market_order = order.limit.is_none() && stop_price.is_none();
                let time_index = if is_market_order && self.trade_on_close && !is_contingent {
                    self.current_bar.saturating_sub(1)
                } else {
                    self.current_bar
                };
                let ghost bar_of_fill = if start.trade_on_close {
                    start.market_bar()
                } else {
                    start.current_bar
                };
                proof {
                    if start.trade_on_close && start.only_market_orders() {
                        assert(snapshot@[k0] == order_id);
                        assert(start.order_queue@.contains(order_id));
                        assert(start.market_own(order_id) || start.close_request(order_id));
                        assert(!self.is_bracket(order_id));
                        assert(time_index == start.market_bar());
                    }
                }
                // -- an order that closes (part of) a trade --
                if let Some(trade_id) = order.parent_trade {
                    if trade_id.0 >= self.trades_by_id.len() {
                        let ghost mid = *self;
                        self.remove_order(order_id);
                        proof {
                            self.lemma_market_settled_kept(mid, start, round == start, snapshot@, k0);
                            self.lemma_close_settled_one(mid, start, round == start, snapshot@, k0, order_id);
                            self.lemma_keeps_brackets_one(mid, order_id);
                            self.lemma_keeps_brackets_trans(mid, start);
                            self.lemma_no_growth_trans(mid, start);
                            self.lemma_plain_kept(mid);
                            self.lemma_market_settled_step(start, round == start, snapshot@, k0);
                            self.lemma_close_settled_step(start, round == start, snapshot@, k0);
                        }
                        continue;
                    }
                    let ghost mid = *self;
                    self.settle_closing_order(order_id, &order, trade_id, price, time_index, stop_price);
                    proof {
                        if !start.trade_on_close || start.only_market_orders() {
                            lemma_bars_recorded_trans(start.trades_by_id@, mid.trades_by_id@, self.trades_by_id@, bar_of_fill);
                        }
                        self.lemma_market_settled_kept(mid, start, round == start, snapshot@, k0);
                        self.lemma_close_settled_settle(mid, start, round == start, snapshot@, k0, order_id);
                        self.lemma_keeps_brackets_trans(mid, start);
                        self.lemma_no_growth_trans(mid, start);
                        self.lemma_plain_kept(mid);
                    }
                    proof {
                        self.lemma_market_settled_step(start, round == start, snapshot@, k0);
                            self.lemma_close_settled_step(start, round == start, snapshot@, k0);
                    }
                    continue;
                }
                // -- an order of its own: opens a trade --
                let ghost before_fill = *self;
                proof {
                    assert(self.orders_by_id.spec_get(order_id) == Some(order));
                    if start.own_orders_plain() {
                        self.lemma_plain_at(order_id);
                    }
                }
                let filled = self.fill_standalone_order(&order, price, time_index, data);
                proof {
                    if !start.trade_on_close || start.only_market_orders() {
                        lemma_bars_recorded_trans(start.trades_by_id@, before_fill.trades_by_id@, self.trades_by_id@, bar_of_fill);
                    }
                    self.lemma_market_settled_kept(before_fill, start, round == start, snapshot@, k0);
                    self.lemma_close_settled_kept(before_fill, start, round == start, snapshot@, k0);
                    self.lemma_keeps_brackets_trans(before_fill, start);
                    self.lemma_no_growth_trans(before_fill, start);
                    self.lemma_plain_kept(before_fill);
                }
                let opened = filled?;
                proof {
                    if start.lone_order() && data.visible() > 0 && self.active_trade_ids@.len() > 0 {
                        assert(k0 == 0);
                        assert(before_fill == start);
                        if !opened {
                            assert(self.active_trade_ids@.contains(self.active_trade_ids@[0]));
                        }
                        assert(opened);
                        let (l2, adj) = choose|long: bool, adj: P|
                            call_ensures(Order::<P>::is_long, (&order,), long) && call_ensures(
                                Broker::<P, C>::adjusted_price::<I>,
                                (&before_fill, long, data, Some(price)),
                                adj,
                            ) && self.trades_by_id@.last().entry_price == adj;
                        assert(spread_fill(start, *data, order, price, l2, self.trades_by_id@.last().entry_price));
                        assert(order == start.orders_by_id.spec_get(start.order_queue@[0])->0);
                        if order.limit is Some {
                            assert(limit_fill(order, data.column(Field::Open)[data.visible() - 1], fill_side, price));
                        } else {
                            assert(!is_contingent);
                            assert(market_fill(*data, start.trade_on_close, data.column(Field::Open)[data.visible() - 1], price));
                        }
                        assert(start.lone_entry(*data, self.trades_by_id@.last().entry_price));
                    }
                }
                let ghost filled_state = *self;
                if opened && (order.sl.is_some() || order.tp.is_some()) {
                    let tp_same_bar_safe = stop_price.is_some() && order.limit.is_none() && match order.tp {
                        Some(tp) => order.is_long() && tp.le(high) && match order.sl {
                            Some(sl) => sl,
                            None => P::neg_infinity(),
                        }.gt(high),
                        None => false,
                    };
                    let sl_or_low = match order.sl {
                        Some(v) => v,
                        None => P::neg_infinity(),
                    };
                    let tp_or_low = match order.tp {
                        Some(v) => v,
                        None => P::neg_infinity(),
                    };
                    if is_market_order || tp_same_bar_safe {
                        reprocess_orders = true;
                    } else if (low.le(sl_or_low) && sl_or_low.le(high)) || (low.le(tp_or_low) && tp_or_low.le(high)) {
                        self.warnings.push(Warning::ContingentSameBar);
                    }
                }
                proof {
                    self.lemma_market_settled_same(filled_state, start, round == start, snapshot@, k0);
                    self.lemma_close_settled_one(filled_state, start, round == start, snapshot@, k0, order_id);
                    self.lemma_keeps_brackets_one(filled_state, order_id);
                    self.lemma_keeps_brackets_trans(filled_state, start);
                    self.lemma_no_growth_trans(filled_state, start);
                }
                let ghost mid = *self;
                self.remove_order(order_id);
                proof {
                    self.lemma_market_settled_kept(mid, start, round == start, snapshot@, k0);
                    self.lemma_close_settled_one(mid, start, round == start, snapshot@, k0, order_id);
                    self.lemma_keeps_brackets_one(mid, order_id);
                    self.lemma_keeps_brackets_trans(mid, start);
                    self.lemma_no_growth_trans(mid, start);
                    self.lemma_plain_kept(mid);
                    self.lemma_market_settled_step(start, round == start, snapshot@, k0);
                            self.lemma_close_settled_step(start, round == start, snapshot@, k0);
                }
            }
            proof {
                self.lemma_market_settled_done(start, round == start, snapshot@);
                self.lemma_close_settled_done(start, round == start, snapshot@);
            }
            if !reprocess_orders {
                proof {
                    assert forall|q: OrderId| #[trigger] start.market_own(q) implies self.orders_by_id.spec_get(q) is None by {
                        self.lemma_market_settled_gone(start, q);
                    }
                    assert forall|q: OrderId| #[trigger] start.close_request(q) implies self.orders_by_id.spec_get(q) is None
                        && self.close_taken(start, q) by {
                        self.lemma_close_settled_gone(start, q);
                    }
                }
                return Ok(());
            }
            // otherwise match again on the same bar
        }
    }

    /// Simulates bar `bar_index` (the last visible bar): matches the pending
    /// orders and records the equity (an equity that is not a number stays
    /// unrecorded, to be filled in later). When the equity is not positive, closes
    /// every open trade at the last close, sets cash and the equity of this
    /// and every later bar to zero, and fails with `OutOfMoney`.
    pub fn advance<I: Clone>(&mut self, data: &Data<P, I>, bar_index: usize) -> (r: BtResult<()>)
        requires
            old(self).wf(),
            data.wf(),
            bar_index < old(self).curve().len(),
        ensures
            final(self).wf(),
            final(self).bar() == bar_index,
            final(self).next_order() >= old(self).next_order(),
            r is Ok ==> forall|q: OrderId| #[trigger] old(self).market_own(q) ==> final(self).order_at(q) is None,
            r is Ok ==> final(self).keeps_brackets(*old(self)),
            r is Ok && old(self).lone_order() && data.visible() > 0 && final(self).active().len() > 0
                ==> old(self).with_bar(bar_index).lone_entry(*data, final(self).all_trades().last().entry_price),
            r is Ok && !old(self).on_close() ==> bars_recorded(old(self).all_trades(), final(self).all_trades(), bar_index),
            r is Ok && old(self).on_close() && old(self).only_market_orders() ==> bars_recorded(
                old(self).all_trades(),
                final(self).all_trades(),
                if bar_index >= 1 {
                    (bar_index - 1) as usize
                } else {
                    0
                },
            ),
            r is Ok ==> forall|q: OrderId|
                #[trigger] old(self).close_request(q) ==> final(self).order_at(q) is None && final(self).close_taken(
                    *old(self),
                    q,
                ),
            old(self).own_orders_plain() ==> r is Ok || r matches Err(BacktestError::OutOfMoney),
            final(self).curve().len() == old(self).curve().len(),
            final(self).all_trades().len() >= old(self).all_trades().len(),
            forall|j: int| 0 <= j < bar_index ==> #[trigger] final(self).curve()[j] == old(self).curve()[j],
            r is Ok ==> forall|j: int| bar_index < j < old(self).curve().len() ==> #[trigger] final(self).curve()[j] == old(self).curve()[j],
            r matches Err(BacktestError::OutOfMoney) ==> {
                &&& final(self).active().len() == 0
                &&& forall|j: int| bar_index <= j < final(self).curve().len() ==> #[trigger] final(self).curve()[j] == Some(final(self).cash_value())
            },
    {
        self.current_bar = bar_index;
        let ghost bar_set = *self;
        proof {
            assert forall|q: OrderId| #[trigger] old(self).market_own(q) implies bar_set.market_own(q) by {
                assert(bar_set.order_queue@ == old(self).order_queue@);
                assert(bar_set.orders_by_id == old(self).orders_by_id);
            }
            bar_set.lemma_plain_same(*old(self));
            assert forall|q: OrderId| #[trigger] old(self).close_request(q) implies bar_set.close_request(q) by {
                assert(bar_set.order_queue@ == old(self).order_queue@);
                assert(bar_set.orders_by_id == old(self).orders_by_id);
            }
        }
        self.process_orders(data)?;
        let ghost processed = *self;
        proof {
            assert(bar_set == old(self).with_bar(bar_index));
            assert(old(self).lone_order() ==> bar_set.lone_order());
            assert forall|q: OrderId| #[trigger] old(self).close_request(q) implies processed.order_at(q) is None
                && processed.close_taken(*old(self), q) by {
                assert(bar_set.close_request(q));
                assert(processed.close_taken(bar_set, q));
            }
            bar_set.lemma_keeps_brackets_one(*old(self), OrderId(0));
            if old(self).only_market_orders() {
                assert forall|q: OrderId| #[trigger] bar_set.order_queue@.contains(q) implies (bar_set.market_own(q)
                    && bar_set.orders_by_id.spec_get(q)->0.sl is None && bar_set.orders_by_id.spec_get(q)->0.tp is None)
                    || bar_set.close_request(q) by {
                    assert(old(self).order_queue@.contains(q));
                    assert(old(self).market_own(q) == bar_set.market_own(q));
                    assert(old(self).close_request(q) == bar_set.close_request(q));
                }
                assert(bar_set.only_market_orders());
            }
            processed.lemma_keeps_brackets_trans(bar_set, *old(self));
        }
        let equity = self.equity(data);
        // an equity that is not a number is left unrecorded, to be filled in
        // from the bars before
        let recorded = if equity.is_nan() {
            None
        } else {
            Some(equity)
        };
        self.equity_curve.set(bar_index, recorded);
        if equity.le(P::zero()) {
            let last = match data.at(Field::Close, -1) {
                Some(v) => v,
                None => P::nan(),
            };
            let ids = copy_values(&self.active_trade_ids);
            let ghost closing = *self;
            proof {
                assert(ids@.subrange(0, ids@.len() as int) == ids@);
                assert forall|m: int| 0 <= m < ids@.len() implies self.active_trade_ids@.contains(#[trigger] ids@[m]) by {
                    assert(self.active_trade_ids@[m] == ids@[m]);
                }
                assert forall|m: int| 0 <= m < self.active_trade_ids@.len() implies
                    ids@.subrange(0, ids@.len() as int).contains(#[trigger] self.active_trade_ids@[m]) by {
                    assert(ids@[m] == self.active_trade_ids@[m]);
                }
            }
            let mut i: usize = 0;
            while i < ids.len()
                invariant
                    self.wf(),
                    i <= ids@.len(),
                    ids@ == closing.active_trade_ids@,
                    ids@.no_duplicates(),
                    forall|m: int| i <= m < ids@.len() ==> self.active_trade_ids@.contains(#[trigger] ids@[m]),
                    forall|m: int| 0 <= m < ids@.len() ==> (#[trigger] ids@[m]).0 < self.trades_by_id@.len(),
                    forall|m: int| 0 <= m < self.active_trade_ids@.len() ==>
                        ids@.subrange(i as int, ids@.len() as int).contains(#[trigger] self.active_trade_ids@[m]),
                    self.equity_curve@ == closing.equity_curve@,
                    self.current_bar == bar_index,
                    self.trades_by_id@.len() >= closing.trades_by_id@.len(),
                    self.next_order_id == closing.next_order_id,
                decreases ids@.len() - i,
            {
                let tid = ids[i];
                let ghost before = self.active_trade_ids@;
                self.close_trade(tid, last, bar_index);
                proof {
                    lemma_trade_ids_without(before, tid);
                    assert forall|m: int| 0 <= m < self.active_trade_ids@.len() implies
                        ids@.subrange(i + 1, ids@.len() as int).contains(#[trigger] self.active_trade_ids@[m]) by {
                        let x = self.active_trade_ids@[m];
                        assert(before.contains(x));
                        let w = choose|w: int| 0 <= w < before.len() && before[w] == x;
                        assert(ids@.subrange(i as int, ids@.len() as int).contains(before[w]));
                        let v = choose|v: int| 0 <= v < ids@.len() - i && ids@.subrange(i as int, ids@.len() as int)[v] == x;
                        assert(x != tid);
                        assert(v != 0);
                        assert(ids@.subrange(i + 1, ids@.len() as int)[v - 1] == x);
                    }
                    assert forall|m: int| i + 1 <= m < ids@.len() implies self.active_trade_ids@.contains(#[trigger] ids@[m]) by {
                        assert(before.contains(ids@[m]));
                        assert(ids@[m] != ids@[i as int]);
                    }
                }
                i = i + 1;
            }
            proof {
                if self.active_trade_ids@.len() > 0 {
                    assert(ids@.subrange(ids@.len() as int, ids@.len() as int).contains(self.active_trade_ids@[0]));
                }
            }
            let zero = P::zero();
            self.cash = zero;
            let mut j: usize = bar_index;
            while j < self.equity_curve.len()
                invariant
                    self.wf(),
                    bar_index <= j <= self.equity_curve@.len(),
                    self.equity_curve@.len() == closing.equity_curve@.len(),
                    self.active_trade_ids@.len() == 0,
                    self.cash == zero,
                    self.current_bar == bar_index,
                    self.trades_by_id@.len() >= closing.trades_by_id@.len(),
                    self.next_order_id == closing.next_order_id,
                    forall|m: int| 0 <= m < bar_index ==> #[trigger] self.equity_curve@[m] == closing.equity_curve@[m],
                    forall|m: int| bar_index <= m < j ==> #[trigger] self.equity_curve@[m] == Some(zero),
                decreases self.equity_curve@.len() - j,
            {
                self.equity_curve.set(j, Some(zero));
                j = j + 1;
            }
            return Err(BacktestError::OutOfMoney);
        }
        proof {
            self.lemma_keeps_brackets_one(processed, OrderId(0));
            self.lemma_no_growth_trans(bar_set, *old(self));
            processed.lemma_no_growth_trans(bar_set, *old(self));
            self.lemma_keeps_brackets_trans(processed, *old(self));
        }
        Ok(())
    }
}

/// An optional price as text, as `{:?}` prints it.
fn describe<P: Scalar>(v: Option<P>) -> (r: String)
    ensures
        v is None ==> r@ == "None"@,
        v is Some ==> exists|t: Seq<char>| r@ == "Some("@ + t + ")"@,
{
    match v {
        Some(p) => {
            let t = p.to_debug_text();
            let r = "Some(".to_owned().concat(t.as_str()).concat(")");
            proof {
                assert(r@ == "Some("@ + t@ + ")"@);
            }
            r
        },
        None => "None".to_owned(),
    }
}

} // verus!
