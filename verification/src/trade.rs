use vstd::prelude::*;
use std::sync::Arc;

use crate::order::{share_tag, OrderId, TradeId};
use crate::scalar::Scalar;

verus! {

/// `|x|` as a mathematical integer.
pub open spec fn abs_int(x: int) -> int {
    if x >= 0 {
        x
    } else {
        -x
    }
}

/// `|x|` for a whole number of units (`i64::unsigned_abs`).
pub fn magnitude(x: i64) -> (r: u64)
    ensures
        r as int == abs_int(x as int),
{
    if x >= 0 {
        x as u64
    } else {
        ((-(x + 1)) as u64) + 1
    }
}

/// A trade: a position in whole units, opened at one price and, once closed,
/// closed at another.
#[derive(Debug, Clone)]
pub struct Trade<P> {
    pub id: TradeId,
    /// Volume in whole units: positive for long, negative for short.
    pub size: i64,
    pub entry_price: P,
    pub exit_price: Option<P>,
    pub entry_bar: usize,
    pub exit_bar: Option<usize>,
    pub sl_order: Option<OrderId>,
    pub tp_order: Option<OrderId>,
    pub open_sl: Option<P>,
    pub tag: Option<Arc<str>>,
    /// Only finalized after the trade is closed: it needs both legs.
    pub commission: P,
}

impl<P: Scalar> Trade<P> {
    pub fn is_long(&self) -> (r: bool)
        ensures
            r == (self.size > 0),
    {
        self.size > 0
    }

    pub fn is_short(&self) -> (r: bool)
        ensures
            r == (self.size < 0),
    {
        self.size < 0
    }

    /// Profit or loss in cash, net of commission, at the exit price or, while
    /// the trade is open, at `last_price`.
    pub fn pl(&self, last_price: P) -> P {
        let price = match self.exit_price {
            Some(p) => p,
            None => last_price,
        };
        P::from_i64(self.size).times(price.minus(self.entry_price)).minus(self.commission)
    }

    /// The trade's value: its units times the exit price or `last_price`.
    pub fn value(&self, last_price: P) -> P {
        let price = match self.exit_price {
            Some(p) => p,
            None => last_price,
        };
        P::from_u64(magnitude(self.size)).times(price)
    }

    /// Return as a fraction of the entry value, net of commission.
    pub fn pl_pct(&self, last_price: P) -> P {
        let price = match self.exit_price {
            Some(p) => p,
            None => last_price,
        };
        let sign = if self.is_long() {
            P::one()
        } else {
            P::one().negated()
        };
        let gross_pl_pct = sign.times(price.divided_by(self.entry_price).minus(P::one()));
        let commission_pct = self.commission.divided_by(
            P::from_u64(magnitude(self.size)).times(self.entry_price),
        );
        gross_pl_pct.minus(commission_pct)
    }

    /// A copy of the trade, sharing its tag.
    pub fn duplicate(&self) -> (r: Trade<P>)
        ensures
            r == *self,
    {
        Trade {
            id: self.id,
            size: self.size,
            entry_price: self.entry_price,
            exit_price: self.exit_price,
            entry_bar: self.entry_bar,
            exit_bar: self.exit_bar,
            sl_order: self.sl_order,
            tp_order: self.tp_order,
            open_sl: self.open_sl,
            tag: share_tag(&self.tag),
            commission: self.commission,
        }
    }
}

} // verus!
