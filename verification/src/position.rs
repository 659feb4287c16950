use vstd::prelude::*;

use crate::order::TradeId;
use crate::scalar::Scalar;
use crate::trade::{magnitude, Trade};

verus! {

/// The net of a set of open trades.
pub struct Position<P> {
    size: P,
    pl: P,
    total_invested: P,
}

impl<P: Scalar> Position<P> {
    /// Sums size, profit or loss at `last_price`, and entry value over the
    /// trades of `trades` named by `ids`.
    pub(crate) fn from_trades(trades: &Vec<Trade<P>>, ids: &Vec<TradeId>, last_price: P) -> Self
        requires
            forall|i: int| 0 <= i < ids@.len() ==> (#[trigger] ids@[i]).0 < trades@.len(),
    {
        let mut size = P::zero();
        let mut pl = P::zero();
        let mut total_invested = P::zero();
        let mut i: usize = 0;
        while i < ids.len()
            invariant
                i <= ids@.len(),
                forall|k: int| 0 <= k < ids@.len() ==> (#[trigger] ids@[k]).0 < trades@.len(),
            decreases ids@.len() - i,
        {
            let trade = &trades[ids[i].0];
            size = size.plus(P::from_i64(trade.size));
            pl = pl.plus(trade.pl(last_price));
            total_invested = total_invested.plus(
                trade.entry_price.times(P::from_u64(magnitude(trade.size))),
            );
            i = i + 1;
        }
        Position { size, pl, total_invested }
    }

    /// The summed signed size of the trades.
    pub closed spec fn net_size(self) -> P {
        self.size
    }

    /// The summed profit or loss of the trades.
    pub closed spec fn net_pl(self) -> P {
        self.pl
    }

    /// The summed entry value of the trades.
    pub closed spec fn invested(self) -> P {
        self.total_invested
    }

    pub fn size(&self) -> (r: P)
        ensures
            r == self.net_size(),
    {
        self.size
    }

    pub fn pl(&self) -> (r: P)
        ensures
            r == self.net_pl(),
    {
        self.pl
    }

    pub fn total_invested(&self) -> (r: P)
        ensures
            r == self.invested(),
    {
        self.total_invested
    }

    /// Whether the net size is nonzero.
    pub fn is_open(&self) -> bool {
        !self.size.equals(P::zero())
    }
}

} // verus!
