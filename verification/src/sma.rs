use vstd::prelude::*;

use crate::commission::CommissionModel;
use crate::data::Field;
use crate::indicator::Indicator;
use crate::scalar::Scalar;
use crate::order::OrderId;
use crate::strategy::{standalone_placed, Context, OrderSize, Strategy};
use vstd::string::to_string_from_display_ensures;

verus! {

/// The simple moving average of `values` over `window` bars. The first
/// `window - 1` entries have no average yet and are not a number, the
/// warm-up convention of indicators.
pub fn sma<P: Scalar>(values: &[P], window: usize) -> (r: Vec<P>)
    ensures
        r@.len() == values@.len(),
{
    let n = values.len();
    let mut out: Vec<P> = Vec::with_capacity(n);
    let divisor = P::from_usize(window);
    let mut sum = P::zero();
    let mut i: usize = 0;
    while i < n
        invariant
            n == values@.len(),
            i <= n,
            out@.len() == i,
        decreases n - i,
    {
        sum = sum.plus(values[i]);
        if i >= window {
            sum = sum.minus(values[i - window]);
        }
        if i + 1 >= window {
            out.push(sum.divided_by(divisor));
        } else {
            out.push(P::nan());
        }
        i = i + 1;
    }
    out
}

/// The label of a moving average over `window` bars: `SMA(window)`.
fn sma_label(window: usize) -> (r: String)
    ensures
        exists|t: String| to_string_from_display_ensures::<usize>(&window, t) && r@ == "SMA("@ + t@ + ")"@,
{
    let t = window.to_string();
    let r = "SMA(".to_owned().concat(t.as_str()).concat(")");
    proof {
        assert(r@ == "SMA("@ + t@ + ")"@);
    }
    r
}

/// How many of `values` a strategy sees at bar `bar`: up to and including
/// that bar.
pub open spec fn seen_len<P>(values: Seq<P>, bar: int) -> int {
    if bar < values.len() {
        bar + 1
    } else {
        values.len() as int
    }
}

/// How a crossing is traded.
#[derive(Debug, Clone, Copy)]
pub enum Entry<P> {
    /// With all the equity, and no SL or TP.
    AllIn,
    /// With a `fraction` of the equity, an SL and a TP at the last close
    /// times `below` and `above` (swapped for a short).
    Bracket { fraction: P, below: P, above: P },
}

/// The moving-average crossover: buy when the fast average crosses above the
/// slow one, sell when it crosses back below.
pub struct SmaCross<P> {
    pub fast_window: usize,
    pub slow_window: usize,
    /// Indicator handles, set by `init`.
    pub sma_fast: usize,
    pub sma_slow: usize,
    pub entry: Entry<P>,
}

/// The last two values of `v`, latest first.
fn last_two<P: Copy>(v: &[P]) -> (r: (P, P))
    requires
        v@.len() >= 2,
    ensures
        r.0 == v@[v@.len() - 1],
        r.1 == v@[v@.len() - 2],
{
    (v[v.len() - 1], v[v.len() - 2])
}

impl<P: Scalar> SmaCross<P> {
    /// A crossover of the `fast_window` and `slow_window` averages that goes
    /// all in at each crossing.
    pub fn new(fast_window: usize, slow_window: usize) -> (r: Self)
        ensures
            r.fast_window == fast_window,
            r.slow_window == slow_window,
            r.sma_fast == usize::MAX,
            r.sma_slow == usize::MAX,
            r.entry is AllIn,
    {
        SmaCross { fast_window, slow_window, sma_fast: usize::MAX, sma_slow: usize::MAX, entry: Entry::AllIn }
    }

    /// The same crossover, trading `fraction` of the equity at each crossing
    /// with an SL and a TP at the last close times `below` and `above`.
    pub fn with_bracket(fast_window: usize, slow_window: usize, fraction: P, below: P, above: P) -> (r: Self)
        ensures
            r.fast_window == fast_window,
            r.slow_window == slow_window,
            r.sma_fast == usize::MAX,
            r.sma_slow == usize::MAX,
            r.entry == (Entry::Bracket { fraction, below, above }),
    {
        SmaCross {
            fast_window,
            slow_window,
            sma_fast: usize::MAX,
            sma_slow: usize::MAX,
            entry: Entry::Bracket { fraction, below, above },
        }
    }

    /// Whether the fast average crossed above (`Some(true)`) or below
    /// (`Some(false)`) the slow one between the previous bar and this one.
    fn crossing(fast_now: P, fast_prev: P, slow_now: P, slow_prev: P) -> (r: Option<bool>) {
        if fast_prev.le(slow_prev) && fast_now.gt(slow_now) {
            Some(true)
        } else if fast_prev.ge(slow_prev) && fast_now.lt(slow_now) {
            Some(false)
        } else {
            None
        }
    }
}

impl<P: Scalar, I: Clone, C: CommissionModel<P>> Strategy<P, I, C> for SmaCross<P> {
    /// Registers the fast and the slow average of the closes, in that order,
    /// and keeps their handles.
    fn init(&mut self, ctx: &mut Context<P, I, C>)
        ensures
            final(ctx).series().len() == old(ctx).series().len() + 2,
            forall|i: int| 0 <= i < old(ctx).series().len() ==> #[trigger] final(ctx).series()[i] == old(ctx).series()[i],
            final(self).sma_fast == old(ctx).series().len(),
            final(self).sma_slow == old(ctx).series().len() + 1,
            final(ctx).series()[final(self).sma_fast as int].values@.len() == old(ctx).market().column(Field::Close).len(),
            final(ctx).series()[final(self).sma_slow as int].values@.len() == old(ctx).market().column(Field::Close).len(),
            final(self).fast_window == old(self).fast_window,
            final(self).slow_window == old(self).slow_window,
            final(self).entry == old(self).entry,
    {
        proof {
            ctx.lemma_parts();
            ctx.lemma_series();
        }
        let fast = sma(ctx.data.full_close(), self.fast_window);
        let slow = sma(ctx.data.full_close(), self.slow_window);
        self.sma_fast = ctx.indicator(Indicator::new(sma_label(self.fast_window), fast));
        self.sma_slow = ctx.indicator(Indicator::new(sma_label(self.slow_window), slow));
    }

    /// Places an order only when both averages have a previous and a current
    /// value; the strategy itself never changes.
    fn next(&mut self, ctx: &mut Context<P, I, C>)
        ensures
            *final(self) == *old(self),
            old(self).sma_fast >= old(ctx).series().len() || old(self).sma_slow >= old(ctx).series().len()
                || seen_len(old(ctx).series()[old(self).sma_fast as int].values@, old(ctx).bar() as int) < 2
                || seen_len(old(ctx).series()[old(self).sma_slow as int].values@, old(ctx).bar() as int) < 2
                ==> *final(ctx) == *old(ctx),
            *final(ctx) == *old(ctx) || {
                &&& final(ctx).market() == old(ctx).market()
                &&& final(ctx).series() == old(ctx).series()
                &&& final(ctx).bar() == old(ctx).bar()
                &&& exists|id: OrderId, sl: Option<P>, tp: Option<P>|
                    #[trigger] standalone_placed(old(ctx).account(), final(ctx).account(), id, None, None, sl, tp, None)
                        && (final(ctx).account().order_at(id) matches Some(o) && o.size is Fraction)
                        && (old(self).entry is AllIn ==> sl is None && tp is None)
                        && (old(self).entry is Bracket ==> sl is Some && tp is Some)
            },
    {
        if self.sma_fast >= ctx.indicators.len() || self.sma_slow >= ctx.indicators.len() {
            return;
        }
        if ctx.indicators[self.sma_fast].values.len() == 0 || ctx.indicators[self.sma_slow].values.len() == 0 {
            return;
        }
        proof {
            ctx.lemma_series();
        }
        let fast = ctx.indicator_series(self.sma_fast);
        let slow = ctx.indicator_series(self.sma_slow);
        if fast.len() < 2 || slow.len() < 2 {
            return;
        }
        let (fast_now, fast_prev) = last_two(fast);
        let (slow_now, slow_prev) = last_two(slow);
        let bar = fast.len() - 1;
        let crossed = Self::crossing(fast_now, fast_prev, slow_now, slow_prev);
        match crossed {
            None => {},
            Some(up) => {
                let close = ctx.data.full_close();
                let (size, sl, tp) = match self.entry {
                    Entry::AllIn => (OrderSize::All, None, None),
                    Entry::Bracket { fraction, below, above } => {
                        if bar >= close.len() {
                            return;
                        }
                        let price = close[bar];
                        if up {
                            (OrderSize::Fraction(fraction), Some(price.times(below)), Some(price.times(above)))
                        } else {
                            (OrderSize::Fraction(fraction), Some(price.times(above)), Some(price.times(below)))
                        }
                    },
                };
                // A refused order places nothing; the strategy waits for the
                // next crossing.
                let placed = if up {
                    ctx.buy(size, None, None, sl, tp, None)
                } else {
                    ctx.sell(size, None, None, sl, tp, None)
                };
                proof {
                    if let Ok(id) = placed {
                        assert(standalone_placed(old(ctx).account(), ctx.account(), id, None, None, sl, tp, None));
                    }
                }
            },
        }
    }
}

} // verus!
