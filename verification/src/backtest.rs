use vstd::prelude::*;

use crate::broker::{Broker, BrokerConfig, Warning};
use crate::commission::CommissionModel;
use crate::data::{Data, Field};
use crate::error::{BacktestError, BtResult};
use crate::indicator::{warmup_start_bar, Indicator};
use crate::order::TradeId;
use crate::scalar::Scalar;
use crate::stats::{compute_stats, Stats};
use crate::strategy::{Context, Strategy};
use crate::trade::Trade;

verus! {

/// What a backtest run produced.
pub struct RunResult<P, S> {
    pub strategy: S,
    pub stats: Stats<P>,
    pub closed_trades: Vec<Trade<P>>,
    pub equity_curve: Vec<P>,
    pub warnings: Vec<Warning<P>>,
}

/// A strategy-independent backtest setup: the data and the broker's
/// configuration.
pub struct Backtest<P, I, C> {
    data: Data<P, I>,
    broker_config: BrokerConfig<P, C>,
    finalize_trades: bool,
    periods_per_year: P,
}

/// The equity of bar `i` after filling in the bars without a record: the
/// next recorded equity, or `cash` when no later bar has one.
pub open spec fn next_recorded<P>(equity: Seq<Option<P>>, i: int, cash: P) -> P
    decreases equity.len() - i,
{
    if i >= equity.len() || i < 0 {
        cash
    } else {
        match equity[i] {
            Some(v) => v,
            None => next_recorded(equity, i + 1, cash),
        }
    }
}

/// Bars without a record before bar `start` take the equity of bar `start`.
pub proof fn lemma_unrecorded_carry<P>(equity: Seq<Option<P>>, j: int, start: int, cash: P)
    requires
        0 <= j <= start,
        forall|k: int| j <= k < start ==> #[trigger] equity[k] is None,
    ensures
        next_recorded(equity, j, cash) == next_recorded(equity, start, cash),
    decreases start - j,
{
    if j < start {
        lemma_unrecorded_carry(equity, j + 1, start, cash);
        assert(equity[j] is None);
    }
}

/// Fills every bar without a recorded equity with the next recorded equity,
/// or with `cash` when no later bar has one.
pub fn backfill<P: Scalar>(equity: Vec<Option<P>>, cash: P) -> (r: Vec<P>)
    ensures
        r@.len() == equity@.len(),
        forall|i: int| 0 <= i < r@.len() ==> #[trigger] r@[i] == next_recorded(equity@, i, cash),
{
    let n = equity.len();
    let mut r: Vec<P> = Vec::with_capacity(n);
    let mut i: usize = 0;
    while i < n
        invariant
            n == equity@.len(),
            i <= n,
            r@.len() == i,
        decreases n - i,
    {
        r.push(cash);
        i = i + 1;
    }
    let mut next_valid = cash;
    let mut k: usize = n;
    while k > 0
        invariant
            n == equity@.len(),
            k <= n,
            r@.len() == n,
            next_valid == next_recorded(equity@, k as int, cash),
            forall|m: int| k <= m < n ==> #[trigger] r@[m] == next_recorded(equity@, m, cash),
        decreases k,
    {
        k = k - 1;
        match equity[k] {
            Some(v) => {
                next_valid = v;
            },
            None => {},
        }
        r.set(k, next_valid);
    }
    r
}

impl<P: Scalar, C: CommissionModel<P> + Clone> BrokerConfig<P, C> {
    /// A copy of the configuration.
    pub fn duplicate(&self) -> (r: Self)
        ensures
            r.cash == self.cash,
            r.spread == self.spread,
            r.margin == self.margin,
            r.trade_on_close == self.trade_on_close,
            r.hedging == self.hedging,
            r.exclusive_orders == self.exclusive_orders,
    {
        BrokerConfig {
            cash: self.cash,
            spread: self.spread,
            commission: self.commission.clone(),
            margin: self.margin,
            trade_on_close: self.trade_on_close,
            hedging: self.hedging,
            exclusive_orders: self.exclusive_orders,
        }
    }
}

impl<P: Scalar, I: Clone, C: CommissionModel<P> + Clone> Backtest<P, I, C> {
    /// The data is well formed.
    pub closed spec fn wf(self) -> bool {
        self.data.wf()
    }

    /// The number of bars.
    pub closed spec fn bars(self) -> nat {
        self.data.total()
    }

    /// Whether the trades still open at the end are closed on the last bar.
    pub closed spec fn finalizes(self) -> bool {
        self.finalize_trades
    }

    /// The number of bars in a year, for annualized statistics.
    pub closed spec fn per_year(self) -> P {
        self.periods_per_year
    }

    /// The closing prices of every bar.
    pub closed spec fn closes(self) -> Seq<P> {
        self.data.column(Field::Close)
    }

    /// A backtest that closes the trades still open at the end, with 252
    /// periods (bars) per year.
    pub fn new(data: Data<P, I>, broker_config: BrokerConfig<P, C>) -> (r: Self)
        requires
            data.wf(),
        ensures
            r.wf(),
            r.bars() == data.total(),
            r.finalizes(),
    {
        Backtest { data, broker_config, finalize_trades: true, periods_per_year: P::from_i64(252) }
    }

    /// Whether the trades still open at the end are closed on the last bar.
    pub fn finalize_trades(self, v: bool) -> (r: Self)
        ensures
            r.wf() == self.wf(),
            r.bars() == self.bars(),
            r.finalizes() == v,
            r.per_year() == self.per_year(),
    {
        let mut s = self;
        s.finalize_trades = v;
        s
    }

    /// The number of bars in a year, for annualized statistics.
    pub fn periods_per_year(self, v: P) -> (r: Self)
        ensures
            r.wf() == self.wf(),
            r.bars() == self.bars(),
            r.finalizes() == self.finalizes(),
            r.per_year() == v,
    {
        let mut s = self;
        s.periods_per_year = v;
        s
    }

    /// Runs `strategy` over the bars: `init` once with every bar visible,
    /// then, from the first bar at which every indicator has a value, the
    /// broker simulates each bar and `next` acts on it. A run that runs out
    /// of money stops there; otherwise the trades still open are closed on
    /// the last bar (when so configured). Refused when the broker cannot be
    /// created or an order cannot be placed.
    pub fn run<S: Strategy<P, I, C>>(&self, strategy: S) -> (r: BtResult<RunResult<P, S>>)
        requires
            self.wf(),
        ensures
            r matches Ok(res) ==> {
                &&& res.equity_curve@.len() == self.bars()
                &&& res.stats.num_trades == res.closed_trades@.len()
                &&& forall|i: int| 0 <= i < res.closed_trades@.len() ==>
                    (#[trigger] res.closed_trades@[i]).exit_price is Some && res.closed_trades@[i].exit_bar is Some
                &&& res.stats.end_bar == self.bars() - 1
                &&& 1 <= res.stats.start_bar <= self.bars()
                &&& res.stats.start_bar < self.bars() ==> forall|j: int|
                    0 <= j < res.stats.start_bar ==> #[trigger] res.equity_curve@[j] == res.equity_curve@[res.stats.start_bar as int]
                &&& res.stats.duration_bars == res.stats.end_bar - res.stats.start_bar
                    || (res.stats.start_bar == self.bars() && res.stats.duration_bars == 0)
            },
            r matches Err(e) ==> !(e is OutOfMoney),
            r matches Ok(res) ==> stats_from(
                res.equity_curve@,
                res.closed_trades@,
                self.closes(),
                res.stats.start_bar,
                self.per_year(),
                res.stats,
            ),
    {
        let mut strategy = strategy;
        let mut data = self.data.duplicate();
        let full_len = data.full_len();
        proof {
            data.lemma_columns();
        }
        let broker = Broker::new(self.broker_config.duplicate(), full_len)?;
        let indicators: Vec<Indicator<P>> = Vec::new();
        data.set_length(full_len);
        let mut ctx = Context { data: &data, broker, indicators, bar_index: full_len.saturating_sub(1) };
        proof {
            ctx.lemma_parts();
        }
        strategy.init(&mut ctx);
        proof {
            ctx.lemma_parts();
        }
        let mut broker = ctx.broker;
        let mut indicators = ctx.indicators;
        let ghost unrecorded = broker.curve();
        // skip the warm-up bars
        let warmup = warmup_start_bar(indicators.as_slice());
        let start = if warmup < full_len {
            warmup
        } else {
            full_len
        };
        let mut ran_out_of_money = false;
        let mut last_bar = start.saturating_sub(1);
        let mut i: usize = start;
        while i < full_len
            invariant_except_break
                !ran_out_of_money,
            invariant
                data.wf(),
                broker.wf(),
                full_len == data.total(),
                broker.curve().len() == full_len,
                start <= i <= full_len,
                1 <= start,
                last_bar < full_len || full_len == 0,
                i > start ==> start <= last_bar < full_len,
                forall|j: int| 0 <= j < start ==> #[trigger] broker.curve()[j] is None,
                data.column(Field::Close) == self.closes(),
            ensures
                ran_out_of_money || i == full_len,
            decreases full_len - i,
        {
            data.set_length(i + 1);
            match broker.advance(&data, i) {
                Ok(()) => {},
                Err(BacktestError::OutOfMoney) => {
                    ran_out_of_money = true;
                    last_bar = i;
                    break;
                },
                Err(other) => {
                    return Err(other);
                },
            }
            last_bar = i;
            let mut ctx = Context { data: &data, broker, indicators, bar_index: i };
            proof {
                ctx.lemma_parts();
            }
            strategy.next(&mut ctx);
            proof {
                ctx.lemma_parts();
            }
            broker = ctx.broker;
            indicators = ctx.indicators;
            i = i + 1;
        }
        if !ran_out_of_money && self.finalize_trades {
            let open = broker.trades();
            let mut k: usize = open.len();
            while k > 0
                invariant
                    broker.wf(),
                    data.wf(),
                    broker.curve().len() == full_len,
                    k <= open@.len(),
                    forall|j: int| 0 <= j < start ==> #[trigger] broker.curve()[j] is None,
                    data.column(Field::Close) == self.closes(),
                decreases k,
            {
                k = k - 1;
                let tid: TradeId = open[k].id;
                broker.request_trade_close(tid, P::one())?;
            }
            // run the broker once more on the last bar, so that the closing
            // orders fill and that bar's equity is updated in place
            if start < full_len {
                let _ = broker.advance(&data, last_bar);
            }
        }
        data.set_length(full_len);
        let cash = broker.cash();
        let recorded = broker.take_equity_curve();
        let equity_curve = backfill(recorded, cash);
        proof {
            if start < full_len {
                assert forall|j: int| 0 <= j < start implies #[trigger] equity_curve@[j] == equity_curve@[start as int] by {
                    lemma_unrecorded_carry(recorded@, j, start as int, cash);
                }
            }
        }
        let closed_trades = broker.take_closed_trades();
        let stats_of = compute_stats::<P>;
        let curve_seen = equity_curve.as_slice();
        let closed_seen = closed_trades.as_slice();
        let closes_seen = data.full_close();
        let stats = stats_of(
            curve_seen,
            closed_seen,
            closes_seen,
            start,
            self.periods_per_year,
        );
        proof {
            assert(stats_from(equity_curve@, closed_trades@, self.closes(), start, self.per_year(), stats)) by {
                assert(curve_seen@ == equity_curve@);
                assert(closed_seen@ == closed_trades@);
                assert(closes_seen@ == self.closes());
                assert(call_ensures(compute_stats::<P>, (curve_seen, closed_seen, closes_seen, start, self.per_year()), stats));
            }
        }
        let warnings = broker.take_warnings();
        Ok(RunResult { strategy, stats, closed_trades, equity_curve, warnings })
    }
}

/// `stats` are what `compute_stats` gives for an equity curve, closed
/// trades and closing prices with these contents, from bar `start_bar`,
/// with `periods_per_year` periods in a year.
pub open spec fn stats_from<P: Scalar>(
    equity_curve: Seq<P>,
    closed_trades: Seq<Trade<P>>,
    close: Seq<P>,
    start_bar: usize,
    periods_per_year: P,
    stats: Stats<P>,
) -> bool {
    exists|e: &[P], c: &[Trade<P>], cl: &[P]|
        e@ == equity_curve && c@ == closed_trades && cl@ == close && #[trigger] call_ensures(
            compute_stats::<P>,
            (e, c, cl, start_bar, periods_per_year),
            stats,
        )
}

/// The run whose score is the highest, the first one among equal scores,
/// with its place among the candidates. Refused when there is no run.
pub fn best_run<P: Scalar, S>(runs: Vec<RunResult<P, S>>, scores: &[P]) -> (r: BtResult<(usize, RunResult<P, S>)>)
    requires
        runs@.len() == scores@.len(),
    ensures
        runs@.len() == 0 <==> r is Err,
        r matches Err(e) ==> e is InvalidParameter,
        r matches Ok((i, res)) ==> i < runs@.len() && res == runs@[i as int],
{
    if runs.len() == 0 {
        return Err(
            BacktestError::InvalidParameter("need at least one candidate to optimize over".to_owned()),
        );
    }
    let mut best: usize = 0;
    let mut i: usize = 1;
    while i < scores.len()
        invariant
            runs@.len() == scores@.len(),
            1 <= i <= scores@.len(),
            best < i,
        decreases scores@.len() - i,
    {
        if scores[i].gt(scores[best]) {
            best = i;
        }
        i = i + 1;
    }
    let mut runs = runs;
    let chosen = runs.swap_remove(best);
    Ok((best, chosen))
}

} // verus!
