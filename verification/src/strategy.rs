use vstd::prelude::*;
use std::sync::Arc;

use crate::broker::Broker;
use crate::commission::CommissionModel;
use crate::data::Data;
use crate::error::{BacktestError, BtResult};
use crate::indicator::Indicator;
use crate::order::{Order, OrderId, OrderSize as ResolvedOrderSize, TradeId};
use crate::position::Position;
use crate::scalar::Scalar;
use crate::trade::Trade;

verus! {

/// A trading strategy: `init` runs once before the first bar (to register
/// indicators), `next` once per bar.
pub trait Strategy<P: Scalar, I: Clone, C: CommissionModel<P>> {
    fn init(&mut self, ctx: &mut Context<P, I, C>)
        requires
            old(ctx).wf(),
        ensures
            final(ctx).wf(),
            final(ctx).record() == old(ctx).record(),
    {
    }

    fn next(&mut self, ctx: &mut Context<P, I, C>)
        requires
            old(ctx).wf(),
        ensures
            final(ctx).wf(),
            final(ctx).record() == old(ctx).record(),
    ;
}

/// The size of an order as a strategy asks for it.
#[derive(Debug, Clone, Copy)]
pub enum OrderSize<P> {
    /// Shaded very slightly under 100% of equity, to avoid rejections from
    /// rounding.
    All,
    /// A fraction of equity, in `(0, 1)`.
    Fraction(P),
    /// A whole, positive number of units.
    Units(P),
}

impl<P: Scalar> OrderSize<P> {
    /// The signed size of a buy (`is_buy`) or sell order of this size.
    /// Refused for a fraction outside `(0, 1)` or units that are not a whole
    /// number of at least one.
    pub fn to_signed_size(self, is_buy: bool) -> (r: BtResult<ResolvedOrderSize<P>>)
        ensures
            self is All ==> r matches Ok(ResolvedOrderSize::Fraction(_)),
            self is Fraction ==> (r is Ok ==> r matches Ok(ResolvedOrderSize::Fraction(_))),
            self is Units ==> (r is Ok ==> r matches Ok(ResolvedOrderSize::Units(_))),
            r matches Ok(ResolvedOrderSize::Units(n)) ==> if is_buy { n >= 1 } else { n <= -1 },
            r matches Err(e) ==> e is InvalidParameter,
    {
        let resolved = match self {
            OrderSize::All => ResolvedOrderSize::Fraction(P::one().minus(P::epsilon())),
            OrderSize::Fraction(f) => {
                if !(P::zero().lt(f) && f.lt(P::one())) {
                    return Err(
                        BacktestError::InvalidParameter("size must be a fraction of equity".to_owned()),
                    );
                }
                ResolvedOrderSize::Fraction(f)
            },
            OrderSize::Units(u) => {
                let n = u.to_i64();
                if !u.round().equals(u) || u.lt(P::one()) || n < 1 {
                    return Err(
                        BacktestError::InvalidParameter(
                            "size must be a whole positive number".to_owned(),
                        ),
                    );
                }
                ResolvedOrderSize::Units(n)
            },
        };
        Ok(
            match resolved {
                ResolvedOrderSize::Fraction(f) => if is_buy {
                    ResolvedOrderSize::Fraction(f)
                } else {
                    ResolvedOrderSize::Fraction(f.negated())
                },
                ResolvedOrderSize::Units(u) => if is_buy {
                    ResolvedOrderSize::Units(u)
                } else {
                    ResolvedOrderSize::Units(-u)
                },
            },
        )
    }
}

/// `after` is `before` with one more standalone order, `id`, placed with
/// these prices and tag: queued last; with exclusive orders, every pending
/// order that is not a trade's SL or TP order gone and a closing order
/// queued for every open trade; without, nothing else changed.
pub open spec fn standalone_placed<P: Scalar, C: CommissionModel<P>>(
    before: Broker<P, C>,
    after: Broker<P, C>,
    id: OrderId,
    limit: Option<P>,
    stop: Option<P>,
    sl: Option<P>,
    tp: Option<P>,
    tag: Option<String>,
) -> bool {
    &&& id == OrderId(before.next_order())
    &&& after.order_at(id) matches Some(o) && {
        &&& o.id == id
        &&& o.limit == limit
        &&& o.stop == stop
        &&& o.sl == sl
        &&& o.tp == tp
        &&& o.parent_trade is None
        &&& tag is None ==> o.tag is None
        &&& tag matches Some(t) ==> (o.tag matches Some(a) && a@ == t@)
    }
    &&& after.pending().len() > 0
    &&& after.pending().last() == id
    &&& after.all_trades() == before.all_trades()
    &&& after.active() == before.active()
    &&& !before.exclusive() ==> {
        &&& after.pending() == before.pending().push(id)
        &&& forall|k: OrderId| k != id ==> #[trigger] after.order_at(k) == before.order_at(k)
        &&& after.same_account(before)
    }
    &&& before.exclusive() ==> {
        &&& forall|k: OrderId|
            before.pending().contains(k) && before.is_bracket(k) ==> #[trigger] after.pending().contains(k)
                && after.order_at(k) == before.order_at(k)
        &&& forall|k: OrderId|
            before.pending().contains(k) && !before.is_bracket(k) ==> #[trigger] after.order_at(k) is None
        &&& forall|t: TradeId|
            #[trigger] before.active().contains(t) ==> after.closing_pending(t, before.all_trades()[t.0 as int].size)
    }
}

/// What a strategy sees and can do at a bar: the visible data, its
/// indicators, and the broker.
pub struct Context<'a, P, I, C> {
    pub data: &'a Data<P, I>,
    pub(crate) broker: Broker<P, C>,
    pub(crate) indicators: Vec<Indicator<P>>,
    pub(crate) bar_index: usize,
}

impl<'a, P: Scalar, I: Clone, C: CommissionModel<P>> Context<'a, P, I, C> {
    /// The data and the broker are consistent.
    pub closed spec fn wf(self) -> bool {
        &&& self.data.wf()
        &&& self.broker.wf()
    }

    /// The number of bars for which the broker records equity.
    pub closed spec fn bars(self) -> nat {
        self.broker.curve().len()
    }

    /// The equity that the broker recorded for each bar.
    pub closed spec fn record(self) -> Seq<Option<P>> {
        self.broker.curve()
    }

    pub closed spec fn series(self) -> Seq<Indicator<P>> {
        self.indicators@
    }

    pub closed spec fn bar(self) -> usize {
        self.bar_index
    }

    /// The bars the strategy sees.
    pub closed spec fn market(self) -> Data<P, I> {
        *self.data
    }

    /// The broker behind this context.
    pub closed spec fn account(self) -> Broker<P, C> {
        self.broker
    }

    /// A context is well formed exactly when its data and broker are, and
    /// its bars are those of its broker's equity record.
    pub(crate) proof fn lemma_parts(self)
        ensures
            self.wf() <==> (self.data.wf() && self.broker.wf()),
            self.bars() == self.broker.curve().len(),
            self.record() == self.broker.curve(),
            self.market() == *self.data,
    {
    }

    /// The indicators are those the context holds.
    pub(crate) proof fn lemma_series(self)
        ensures
            self.series() == self.indicators@,
    {
    }

    pub fn bar_index(&self) -> (r: usize)
        ensures
            r == self.bar(),
    {
        self.bar_index
    }

    /// Registers an indicator; returns its handle.
    pub fn indicator(&mut self, ind: Indicator<P>) -> (r: usize)
        ensures
            final(self).series() == old(self).series().push(ind),
            r == old(self).series().len(),
            final(self).wf() == old(self).wf(),
            final(self).record() == old(self).record(),
            final(self).bar() == old(self).bar(),
    {
        self.indicators.push(ind);
        self.indicators.len() - 1
    }

    /// The value of indicator `handle` at the current bar.
    pub fn indicator_value(&self, handle: usize) -> (r: P)
        requires
            handle < self.series().len(),
            self.bar() < self.series()[handle as int].values@.len(),
        ensures
            r == self.series()[handle as int].values@[self.bar() as int],
    {
        self.indicators[handle].value_at(self.bar_index)
    }

    /// The values of indicator `handle` up to the current bar.
    pub fn indicator_series(&self, handle: usize) -> (r: &[P])
        requires
            handle < self.series().len(),
            self.series()[handle as int].values@.len() > 0,
        ensures
            r@ == self.series()[handle as int].values@.subrange(
                0,
                if self.bar() < self.series()[handle as int].values@.len() {
                    self.bar() + 1
                } else {
                    self.series()[handle as int].values@.len() as int
                },
            ),
    {
        self.indicators[handle].as_of(self.bar_index)
    }

    /// Places a buy order.
    pub fn buy(
        &mut self,
        size: OrderSize<P>,
        limit: Option<P>,
        stop: Option<P>,
        sl: Option<P>,
        tp: Option<P>,
        tag: Option<String>,
    ) -> (r: BtResult<OrderId>)
        requires
            old(self).wf(),
        ensures
            final(self).wf(),
            final(self).record() == old(self).record(),
            r matches Ok(id) ==> final(self).account().order_at(id) matches Some(o) && o.is_long_spec(),
            r matches Ok(id) ==> standalone_placed(
                old(self).account(),
                final(self).account(),
                id,
                limit,
                stop,
                sl,
                tp,
                tag,
            ),
            r matches Ok(id) ==> (final(self).account().order_at(id) matches Some(o) && (o.size is Units
                <==> size is Units)),
            r matches Err(e) ==> (e is InvalidParameter || e is InvalidOrder),
            r is Err ==> *final(self) == *old(self),
            final(self).market() == old(self).market(),
            final(self).series() == old(self).series(),
            final(self).bar() == old(self).bar(),
    {
        let resolved = match size.to_signed_size(true) {
            Ok(v) => v,
            Err(e) => {
                return Err(e);
            },
        };
        let shared = match tag {
            Some(t) => Some(shared_text(t)),
            None => None,
        };
        self.broker.new_order(self.data, resolved, limit, stop, sl, tp, shared, None)
    }

    /// Places a sell order.
    pub fn sell(
        &mut self,
        size: OrderSize<P>,
        limit: Option<P>,
        stop: Option<P>,
        sl: Option<P>,
        tp: Option<P>,
        tag: Option<String>,
    ) -> (r: BtResult<OrderId>)
        requires
            old(self).wf(),
        ensures
            final(self).wf(),
            final(self).record() == old(self).record(),
            r matches Ok(id) ==> final(self).account().order_at(id) matches Some(o) && o.is_short_spec(),
            r matches Ok(id) ==> standalone_placed(
                old(self).account(),
                final(self).account(),
                id,
                limit,
                stop,
                sl,
                tp,
                tag,
            ),
            r matches Ok(id) ==> (final(self).account().order_at(id) matches Some(o) && (o.size is Units
                <==> size is Units)),
            r matches Err(e) ==> (e is InvalidParameter || e is InvalidOrder),
            r is Err ==> *final(self) == *old(self),
            final(self).market() == old(self).market(),
            final(self).series() == old(self).series(),
            final(self).bar() == old(self).bar(),
    {
        let resolved = match size.to_signed_size(false) {
            Ok(v) => v,
            Err(e) => {
                return Err(e);
            },
        };
        let shared = match tag {
            Some(t) => Some(shared_text(t)),
            None => None,
        };
        self.broker.new_order(self.data, resolved, limit, stop, sl, tp, shared, None)
    }

    pub fn equity(&self) -> P
        requires
            self.wf(),
    {
        self.broker.equity(self.data)
    }

    pub fn position(&self) -> Position<P>
        requires
            self.wf(),
    {
        self.broker.position(self.data)
    }

    pub fn orders(&self) -> (r: Vec<Order<P>>)
        requires
            self.wf(),
        ensures
            r@.len() == self.account().pending().len(),
            forall|i: int|
                0 <= i < r@.len() ==> Some(#[trigger] r@[i]) == self.account().order_at(self.account().pending()[i]),
    {
        self.broker.orders()
    }

    pub fn trades(&self) -> (r: Vec<Trade<P>>)
        requires
            self.wf(),
        ensures
            r@.len() == self.account().active().len(),
            forall|i: int| 0 <= i < r@.len() ==> #[trigger] r@[i] == self.account().all_trades()[self.account().active()[i].0 as int],
    {
        self.broker.trades()
    }

    pub fn closed_trades(&self) -> (r: Vec<Trade<P>>)
        requires
            self.wf(),
        ensures
            r@.len() == self.account().closed_ids().len(),
            forall|i: int|
                0 <= i < r@.len() ==> #[trigger] r@[i] == self.account().all_trades()[self.account().closed_ids()[i].0 as int],
    {
        self.broker.closed_trades()
    }

    /// Closes `portion` of the current net position: requests the close of
    /// that portion of every open trade, in the order in which they opened.
    pub fn close_position(&mut self, portion: P) -> (r: BtResult<()>)
        requires
            old(self).wf(),
        ensures
            final(self).wf(),
            final(self).record() == old(self).record(),
            final(self).account().all_trades() == old(self).account().all_trades(),
            r is Ok ==> final(self).account().pending().len() == old(self).account().pending().len()
                + old(self).account().active().len(),
            old(self).account().active().len() == 0 ==> r is Ok && final(self).account() == old(self).account(),
            r matches Err(e) ==> e is InvalidParameter,
            r is Ok ==> forall|t: TradeId|
                #[trigger] old(self).account().active().contains(t) ==> final(self).account().closing_pending(
                    t,
                    old(self).account().all_trades()[t.0 as int].size,
                ),
    {
        let trades = self.broker.trades();
        let n = trades.len();
        let mut ids: Vec<TradeId> = Vec::with_capacity(n);
        let mut i: usize = 0;
        while i < n
            invariant
                n == trades@.len(),
                i <= n,
                ids@.len() == i,
                forall|k: int| 0 <= k < i ==> #[trigger] ids@[k] == trades@[k].id,
            decreases n - i,
        {
            ids.push(trades[i].id);
            i = i + 1;
        }
        let ghost start = self.broker;
        proof {
            assert forall|k: int| 0 <= k < ids@.len() implies #[trigger] ids@[k] == start.active()[k] by {
                start.lemma_active_ids(k);
            }
        }
        let mut j: usize = 0;
        while j < ids.len()
            invariant
                self.wf(),
                self.record() == old(self).record(),
                self.broker == self.account(),
                start == old(self).account(),
                start.wf(),
                ids@.len() == start.active().len(),
                forall|k: int| 0 <= k < ids@.len() ==> #[trigger] ids@[k] == start.active()[k],
                self.broker.all_trades() == start.all_trades(),
                j == 0 ==> self.broker == start,
                j <= ids@.len(),
                self.broker.pending().len() == start.pending().len() + j,
                forall|k: int| 0 <= k < j ==> self.broker.closing_pending(
                    #[trigger] ids@[k],
                    start.all_trades()[ids@[k].0 as int].size,
                ),
            decreases ids@.len() - j,
        {
            let ghost before = self.broker;
            proof {
                start.lemma_active_ids(j as int);
            }
            self.broker.request_trade_close(ids[j], portion)?;
            proof {
                assert(self.broker.closing_pending(ids@[j as int], before.all_trades()[ids@[j as int].0 as int].size));
                assert forall|k: int| 0 <= k < j + 1 implies self.broker.closing_pending(
                    #[trigger] ids@[k],
                    start.all_trades()[ids@[k].0 as int].size,
                ) by {
                    if k < j {
                        assert(before.closing_pending(ids@[k], start.all_trades()[ids@[k].0 as int].size));
                    }
                }
            }
            j = j + 1;
        }
        proof {
            assert forall|t: TradeId| #[trigger] start.active().contains(t) implies self.broker.closing_pending(
                t,
                start.all_trades()[t.0 as int].size,
            ) by {
                let k = choose|k: int| 0 <= k < start.active().len() && start.active()[k] == t;
                assert(ids@[k] == t);
            }
        }
        Ok(())
    }

    /// Closes `portion` of trade `trade_id`.
    pub fn close_trade(&mut self, trade_id: TradeId, portion: P) -> (r: BtResult<()>)
        requires
            old(self).wf(),
        ensures
            final(self).wf(),
            final(self).record() == old(self).record(),
            trade_id.0 >= old(self).account().all_trades().len() ==> r is Err,
            r is Err ==> final(self).account() == old(self).account(),
            r is Ok ==> final(self).account().closing_pending(
                trade_id,
                old(self).account().all_trades()[trade_id.0 as int].size,
            ),
    {
        match self.broker.request_trade_close(trade_id, portion) {
            Ok(_) => Ok(()),
            Err(e) => Err(e),
        }
    }

    /// Sets, replaces, or (with `None`) cancels a trade's stop-loss.
    pub fn set_trade_sl(&mut self, trade_id: TradeId, price: Option<P>) -> (r: BtResult<()>)
        requires
            old(self).wf(),
        ensures
            final(self).wf(),
            final(self).record() == old(self).record(),
            trade_id.0 >= old(self).account().all_trades().len() ==> r is Err,
            price is None && trade_id.0 < old(self).account().all_trades().len() ==> r is Ok,
            r is Ok ==> match price {
                Some(p) => {
                    &&& final(self).account().all_trades()[trade_id.0 as int].sl_order matches Some(nid)
                    &&& final(self).account().order_at(nid) matches Some(o)
                    &&& o.stop == Some(p)
                    &&& o.parent_trade == Some(trade_id)
                },
                None => final(self).account().all_trades()[trade_id.0 as int].sl_order is None,
            },
    {
        self.broker.set_trade_sl(self.data, trade_id, price)
    }

    /// Sets, replaces, or (with `None`) cancels a trade's take-profit.
    pub fn set_trade_tp(&mut self, trade_id: TradeId, price: Option<P>) -> (r: BtResult<()>)
        requires
            old(self).wf(),
        ensures
            final(self).wf(),
            final(self).record() == old(self).record(),
            trade_id.0 >= old(self).account().all_trades().len() ==> r is Err,
            price is None && trade_id.0 < old(self).account().all_trades().len() ==> r is Ok,
            r is Ok ==> match price {
                Some(p) => {
                    &&& final(self).account().all_trades()[trade_id.0 as int].tp_order matches Some(nid)
                    &&& final(self).account().order_at(nid) matches Some(o)
                    &&& o.limit == Some(p)
                    &&& o.parent_trade == Some(trade_id)
                },
                None => final(self).account().all_trades()[trade_id.0 as int].tp_order is None,
            },
    {
        self.broker.set_trade_tp(self.data, trade_id, price)
    }
}

/// The text as a shared, immutable string: std's `From<String> for Arc<str>`.
/// Trusted: the shared string holds the same characters as `text`, as std
/// documents for that conversion (it moves the text into a new allocation).
#[verifier::external_body]
fn shared_text(text: String) -> (r: Arc<str>)
    ensures
        r@ == text@,
{
    Arc::from(text)
}

} // verus!
