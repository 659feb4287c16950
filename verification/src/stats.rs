use vstd::prelude::*;

use crate::scalar::Scalar;
use crate::trade::Trade;

verus! {

/// Performance statistics of a backtest.
#[derive(Debug, Clone)]
pub struct Stats<P> {
    pub start_bar: usize,
    pub end_bar: usize,
    pub duration_bars: usize,
    pub exposure_time_pct: P,
    pub equity_final: P,
    pub equity_peak: P,
    pub return_pct: P,
    pub buy_and_hold_return_pct: P,
    pub return_ann_pct: P,
    pub volatility_ann_pct: P,
    pub sharpe_ratio: P,
    pub sortino_ratio: P,
    pub calmar_ratio: P,
    pub max_drawdown_pct: P,
    pub avg_drawdown_pct: P,
    pub max_drawdown_duration_bars: usize,
    pub avg_drawdown_duration_bars: P,
    pub num_trades: usize,
    pub win_rate_pct: P,
    pub best_trade_pct: P,
    pub worst_trade_pct: P,
    pub avg_trade_pct: P,
    pub max_trade_duration_bars: usize,
    pub avg_trade_duration_bars: P,
    pub profit_factor: P,
    pub expectancy_pct: P,
    pub sqn: P,
}

/// The bars a trade lasted: from entry to exit (zero while it is open, or
/// when it exited before it entered).
pub open spec fn trade_duration<P>(t: Trade<P>) -> nat {
    match t.exit_bar {
        Some(x) => if x >= t.entry_bar {
            (x - t.entry_bar) as nat
        } else {
            0
        },
        None => 0,
    }
}

/// The longest duration among `trades` (zero for none).
pub open spec fn longest_duration<P>(trades: Seq<Trade<P>>) -> nat
    decreases trades.len(),
{
    if trades.len() == 0 {
        0
    } else {
        let rest = longest_duration(trades.drop_last());
        let d = trade_duration(trades.last());
        if d > rest {
            d
        } else {
            rest
        }
    }
}

/// Running sum and sum of squares of a series.
#[derive(Clone, Copy)]
struct RunningStats<P> {
    sum: P,
    sumsq: P,
    n: usize,
}

impl<P: Scalar> RunningStats<P> {
    fn new() -> (r: Self)
        ensures
            r.n == 0,
    {
        RunningStats { sum: P::zero(), sumsq: P::zero(), n: 0 }
    }

    fn push(&mut self, x: P)
        requires
            old(self).n < usize::MAX,
        ensures
            final(self).n == old(self).n + 1,
    {
        self.sum = self.sum.plus(x);
        self.sumsq = self.sumsq.plus(x.times(x));
        self.n = self.n + 1;
    }

    /// Mean and sample standard deviation (zero for fewer than two values).
    fn mean_std(&self) -> (P, P) {
        if self.n == 0 {
            return (P::zero(), P::zero());
        }
        let count = P::from_usize(self.n);
        let mean = self.sum.divided_by(count);
        if self.n < 2 {
            return (mean, P::zero());
        }
        let var = self.sumsq.minus(self.sum.times(self.sum).divided_by(count)).divided_by(
            count.minus(P::one()),
        );
        (mean, var.maximum(P::zero()).sqrt())
    }
}

fn geometric_mean_from_log_sum<P: Scalar>(log_sum: P, n: usize, degenerate: bool) -> P {
    if n == 0 || degenerate {
        return P::zero();
    }
    log_sum.divided_by(P::from_usize(n)).exp().minus(P::one())
}

/// `win` is the sum of the positive returns (`pl_pct` at `last`) of
/// `trades` and `loss` the sum of the magnitudes of the negative ones, each
/// taken in order with the number type's comparisons to zero, addition and
/// subtraction, from zero.
pub open spec fn return_sums<P: Scalar>(trades: Seq<Trade<P>>, last: P, win: P, loss: P) -> bool
    decreases trades.len(),
{
    if trades.len() == 0 {
        call_ensures(P::zero, (), win) && call_ensures(P::zero, (), loss)
    } else {
        exists|w: P, l: P, ret: P, z: P, gains: bool, z2: P, falls: bool|
            #[trigger] return_step(trades.last(), last, w, l, ret, z, gains, z2, falls, win, loss)
                && return_sums(trades.drop_last(), last, w, l)
    }
}

/// One trade added to the sums `w` and `l`: its return `ret`, compared with
/// zero (`z`, `z2`), goes into `win` when positive (`gains`), into `loss`
/// when negative (`falls`).
pub open spec fn return_step<P: Scalar>(
    t: Trade<P>,
    last: P,
    w: P,
    l: P,
    ret: P,
    z: P,
    gains: bool,
    z2: P,
    falls: bool,
    win: P,
    loss: P,
) -> bool {
    &&& call_ensures(Trade::<P>::pl_pct, (&t, last), ret)
    &&& call_ensures(P::zero, (), z)
    &&& call_ensures(P::gt, (ret, z), gains)
    &&& gains ==> call_ensures(P::plus, (w, ret), win) && loss == l
    &&& !gains ==> {
        &&& win == w
        &&& call_ensures(P::zero, (), z2)
        &&& call_ensures(P::lt, (ret, z2), falls)
        &&& falls ==> call_ensures(P::minus, (l, ret), loss)
        &&& !falls ==> loss == l
    }
}

/// Statistics of a run: of the equity at each bar, the closed trades, and
/// the closing prices, for a run that started trading at `start_bar`.
pub fn compute_stats<P: Scalar>(
    equity_curve: &[P],
    closed_trades: &[Trade<P>],
    close: &[P],
    start_bar: usize,
    periods_per_year: P,
) -> (r: Stats<P>)
    ensures
        r.start_bar == start_bar,
        r.end_bar == if equity_curve@.len() > 0 { equity_curve@.len() - 1 } else { 0 },
        r.duration_bars == if r.end_bar >= start_bar { r.end_bar - start_bar } else { 0 },
        r.num_trades == closed_trades@.len(),
        equity_curve@.len() > 0 ==> r.equity_final == equity_curve@[equity_curve@.len() - 1],
        r.max_trade_duration_bars == longest_duration(closed_trades@),
        r.max_drawdown_duration_bars <= equity_curve@.len(),
        exists|last: P, win: P, loss: P, z: P, lost: bool|
            #![trigger return_sums(closed_trades@, last, win, loss), call_ensures(P::gt, (loss, z), lost)]
            (close@.len() > 0 ==> last == close@[close@.len() - 1]) && return_sums(closed_trades@, last, win, loss)
                && call_ensures(P::zero, (), z) && call_ensures(P::gt, (loss, z), lost) && (lost ==> call_ensures(
                P::divided_by,
                (win, loss),
                r.profit_factor,
            )) && (!lost ==> call_ensures(P::nan, (), r.profit_factor)),
{
    let n_full = equity_curve.len();
    let end_bar = n_full.saturating_sub(1);
    let hundred = P::from_i64(100);
    let equity_final = if n_full > 0 {
        equity_curve[n_full - 1]
    } else {
        P::zero()
    };
    let mut peak = P::lowest();
    let mut max_drawdown = P::zero();
    let mut dd_duration_sum: usize = 0;
    let mut dd_duration_max: usize = 0;
    let mut dd_count: usize = 0;
    let mut dd_peak_sum = P::zero();
    let mut cur_dd_len: usize = 0;
    let mut cur_dd_peak = P::zero();
    let mut returns_stats = RunningStats::new();
    returns_stats.push(P::zero());
    let mut log_ret_sum = P::zero();
    let mut geo_degenerate = false;
    let mut downside_sq_sum = P::zero();
    let mut prev_eq: Option<P> = None;
    let mut i: usize = 0;
    while i < n_full
        invariant
            n_full == equity_curve@.len(),
            i <= n_full,
            dd_duration_sum + cur_dd_len <= i,
            dd_duration_max <= i,
            dd_count <= dd_duration_sum,
            cur_dd_len <= i,
            returns_stats.n <= if i == 0 { 1 } else { i as int },
            (i == 0) == (prev_eq is None),
        decreases n_full - i,
    {
        let eq = equity_curve[i];
        // drawdown tracking
        peak = peak.maximum(eq);
        let dd = if peak.gt(P::zero()) {
            peak.minus(eq).divided_by(peak)
        } else {
            P::zero()
        };
        if dd.gt(max_drawdown) {
            max_drawdown = dd;
        }
        if dd.gt(P::zero()) {
            cur_dd_len = cur_dd_len + 1;
            cur_dd_peak = cur_dd_peak.maximum(dd);
        } else if cur_dd_len > 0 {
            dd_duration_sum = dd_duration_sum + cur_dd_len;
            if cur_dd_len > dd_duration_max {
                dd_duration_max = cur_dd_len;
            }
            dd_count = dd_count + 1;
            dd_peak_sum = dd_peak_sum.plus(cur_dd_peak);
            cur_dd_len = 0;
            cur_dd_peak = P::zero();
        }
        // per-bar return tracking
        if let Some(p) = prev_eq {
            if !p.equals(P::zero()) {
                let ret = eq.divided_by(p).minus(P::one());
                returns_stats.push(ret);
                let one_plus_r = P::one().plus(ret);
                if one_plus_r.gt(P::zero()) && !geo_degenerate {
                    log_ret_sum = log_ret_sum.plus(one_plus_r.ln());
                } else {
                    geo_degenerate = true;
                }
                let clipped = ret.minimum(P::zero());
                downside_sq_sum = downside_sq_sum.plus(clipped.times(clipped));
            }
        }
        prev_eq = Some(eq);
        i = i + 1;
    }
    if cur_dd_len > 0 {
        dd_duration_sum = dd_duration_sum + cur_dd_len;
        if cur_dd_len > dd_duration_max {
            dd_duration_max = cur_dd_len;
        }
        dd_count = dd_count + 1;
        dd_peak_sum = dd_peak_sum.plus(cur_dd_peak);
    }
    let equity_peak = peak.maximum(equity_final);
    let max_drawdown_pct = max_drawdown.times(hundred);
    let avg_drawdown_pct = if dd_count > 0 {
        dd_peak_sum.divided_by(P::from_usize(dd_count)).times(hundred)
    } else {
        P::zero()
    };
    let max_drawdown_duration_bars = dd_duration_max;
    let avg_drawdown_duration_bars = if dd_count == 0 {
        P::zero()
    } else {
        P::from_usize(dd_duration_sum).divided_by(P::from_usize(dd_count))
    };
    let (_, std_r) = returns_stats.mean_std();
    let var_r = std_r.times(std_r);
    let n_returns = returns_stats.n;
    let gmean = geometric_mean_from_log_sum(log_ret_sum, n_returns, geo_degenerate);
    let cash0 = if n_full > 0 {
        equity_curve[0]
    } else {
        equity_final
    };
    let return_pct = if !cash0.equals(P::zero()) {
        equity_final.divided_by(cash0).minus(P::one()).times(hundred)
    } else {
        P::zero()
    };
    let bh_index = start_bar.saturating_sub(1);
    let bh_start = if bh_index < close.len() {
        close[bh_index]
    } else {
        P::one()
    };
    let bh_end = if close.len() > 0 {
        close[close.len() - 1]
    } else {
        bh_start
    };
    let buy_and_hold_return_pct = if !bh_start.equals(P::zero()) {
        bh_end.divided_by(bh_start).minus(P::one()).times(hundred)
    } else {
        P::zero()
    };
    // Each bar is one period, `periods_per_year` playing the role of the
    // number of trading days in a year.
    let annualized_return = if periods_per_year.gt(P::zero()) {
        P::one().plus(gmean).powf(periods_per_year).minus(P::one())
    } else {
        P::zero()
    };
    let return_ann_pct = annualized_return.times(hundred);
    let volatility_ann_pct = if periods_per_year.gt(P::zero()) {
        let base = var_r.plus(P::one().plus(gmean).powi(2));
        let term = base.powf(periods_per_year).minus(
            P::one().plus(gmean).powf(P::from_i64(2).times(periods_per_year)),
        );
        term.maximum(P::zero()).sqrt().times(hundred)
    } else {
        P::zero()
    };
    let sharpe_ratio = if volatility_ann_pct.gt(P::zero()) {
        return_ann_pct.divided_by(volatility_ann_pct)
    } else {
        P::zero()
    };
    let sortino_ratio = if periods_per_year.gt(P::zero()) && n_returns > 0 {
        let downside_rms = downside_sq_sum.divided_by(P::from_usize(n_returns)).sqrt();
        let denom = downside_rms.times(periods_per_year.sqrt());
        if denom.gt(P::zero()) {
            annualized_return.divided_by(denom)
        } else {
            P::zero()
        }
    } else {
        P::zero()
    };
    let calmar_ratio = if max_drawdown_pct.gt(P::zero()) {
        return_ann_pct.divided_by(max_drawdown_pct)
    } else {
        P::zero()
    };
    // -- trade-level stats --
    let num_trades = closed_trades.len();
    let last_price = if close.len() > 0 {
        close[close.len() - 1]
    } else {
        P::zero()
    };
    let mut win_count: usize = 0;
    let mut sum_pct = P::zero();
    let mut best_trade_pct = P::lowest();
    let mut worst_trade_pct = P::highest();
    let mut max_trade_duration_bars: usize = 0;
    let mut sum_duration: u128 = 0;
    let zero = P::zero;
    let above = P::gt;
    let below = P::lt;
    let sum_of = P::plus;
    let subtract = P::minus;
    let divide = P::divided_by;
    let not_a_number = P::nan;
    let return_of = Trade::<P>::pl_pct;
    let mut win_ret_frac_sum = zero();
    let mut loss_ret_frac_sum = zero();
    let mut trade_log_sum = P::zero();
    let mut trade_geo_degenerate = false;
    let mut pl_stats = RunningStats::new();
    let mut j: usize = 0;
    while j < num_trades
        invariant
            num_trades == closed_trades@.len(),
            j <= num_trades,
            win_count <= j,
            pl_stats.n == j,
            sum_duration <= j * 0x1_0000_0000_0000_0000u128,
            max_trade_duration_bars == longest_duration(closed_trades@.subrange(0, j as int)),
            close@.len() > 0 ==> last_price == close@[close@.len() - 1],
            return_sums(closed_trades@.subrange(0, j as int), last_price, win_ret_frac_sum, loss_ret_frac_sum),
        decreases num_trades - j,
    {
        let t = &closed_trades[j];
        let pl = t.pl(last_price);
        let ret = return_of(t, last_price);
        let ghost w0 = win_ret_frac_sum;
        let ghost l0 = loss_ret_frac_sum;
        let pct = ret.times(hundred);
        let exit = match t.exit_bar {
            Some(x) => x,
            None => t.entry_bar,
        };
        let duration = exit.saturating_sub(t.entry_bar);
        let z = zero();
        let gains = above(ret, z);
        let ghost mut z2g: P = z;
        let ghost mut fallsg: bool = false;
        if gains {
            win_count = win_count + 1;
            win_ret_frac_sum = sum_of(win_ret_frac_sum, ret);
        } else {
            let z2 = zero();
            let falls = below(ret, z2);
            proof {
                z2g = z2;
                fallsg = falls;
            }
            if falls {
                loss_ret_frac_sum = subtract(loss_ret_frac_sum, ret);
            }
        }
        proof {
            let done = closed_trades@.subrange(0, j + 1);
            assert(done.drop_last() == closed_trades@.subrange(0, j as int));
            assert(done.last() == *t);
            assert(return_sums(done.drop_last(), last_price, w0, l0));
            assert(return_step(done.last(), last_price, w0, l0, ret, z, gains, z2g, fallsg, win_ret_frac_sum, loss_ret_frac_sum));
            assert(return_sums(done, last_price, win_ret_frac_sum, loss_ret_frac_sum));
        }
        sum_pct = sum_pct.plus(pct);
        best_trade_pct = best_trade_pct.maximum(pct);
        worst_trade_pct = worst_trade_pct.minimum(pct);
        proof {
            assert(closed_trades@.subrange(0, j + 1).drop_last() == closed_trades@.subrange(0, j as int));
            assert(closed_trades@.subrange(0, j + 1).last() == closed_trades@[j as int]);
        }
        if duration > max_trade_duration_bars {
            max_trade_duration_bars = duration;
        }
        sum_duration = sum_duration + duration as u128;
        let one_plus_r = P::one().plus(ret);
        if one_plus_r.gt(P::zero()) && !trade_geo_degenerate {
            trade_log_sum = trade_log_sum.plus(one_plus_r.ln());
        } else {
            trade_geo_degenerate = true;
        }
        pl_stats.push(pl);
        j = j + 1;
    }
    proof {
        assert(closed_trades@.subrange(0, num_trades as int) == closed_trades@);
    }
    let win_rate_pct = if num_trades > 0 {
        P::from_usize(win_count).divided_by(P::from_usize(num_trades)).times(hundred)
    } else {
        P::zero()
    };
    let expectancy_pct = if num_trades > 0 {
        sum_pct.divided_by(P::from_usize(num_trades))
    } else {
        P::zero()
    };
    let avg_trade_pct = geometric_mean_from_log_sum(trade_log_sum, num_trades, trade_geo_degenerate).times(
        hundred,
    );
    let avg_trade_duration_bars = if num_trades > 0 {
        P::from_u128(sum_duration).divided_by(P::from_usize(num_trades))
    } else {
        P::zero()
    };
    let z = zero();
    let lost = above(loss_ret_frac_sum, z);
    let profit_factor = if lost {
        divide(win_ret_frac_sum, loss_ret_frac_sum)
    } else {
        not_a_number()
    };
    let (mean_pl, std_pl) = pl_stats.mean_std();
    let sqn = if std_pl.gt(P::zero()) && num_trades > 0 {
        mean_pl.divided_by(std_pl).times(P::from_usize(num_trades).sqrt())
    } else {
        P::zero()
    };
    let exposure_time_pct = if n_full > 0 {
        let open_count = exposure_bars(closed_trades, n_full);
        P::from_usize(open_count).divided_by(P::from_usize(n_full)).times(hundred)
    } else {
        P::zero()
    };
    Stats {
        start_bar,
        end_bar,
        duration_bars: end_bar.saturating_sub(start_bar),
        exposure_time_pct,
        equity_final,
        equity_peak,
        return_pct,
        buy_and_hold_return_pct,
        return_ann_pct,
        volatility_ann_pct,
        sharpe_ratio,
        sortino_ratio,
        calmar_ratio,
        max_drawdown_pct,
        avg_drawdown_pct,
        max_drawdown_duration_bars,
        avg_drawdown_duration_bars,
        num_trades,
        win_rate_pct,
        best_trade_pct: if best_trade_pct.is_finite() {
            best_trade_pct
        } else {
            P::zero()
        },
        worst_trade_pct: if worst_trade_pct.is_finite() {
            worst_trade_pct
        } else {
            P::zero()
        },
        avg_trade_pct,
        max_trade_duration_bars,
        avg_trade_duration_bars,
        profit_factor,
        expectancy_pct,
        sqn,
    }
}

/// Whether bar `b` lies between some trade's entry and exit (an open trade
/// counting to the last bar), both clamped to the last of `n` bars.
pub open spec fn bar_in_trade<P>(trades: Seq<Trade<P>>, n: int, b: int) -> bool {
    exists|i: int| 0 <= i < trades.len() && #[trigger] covers(trades[i], n, b)
}

/// Bar `b` lies between the trade's entry and exit, both clamped to the last
/// of `n` bars (an open trade counting to the last bar).
pub open spec fn covers<P>(t: Trade<P>, n: int, b: int) -> bool {
    let entry = if t.entry_bar < n - 1 { t.entry_bar as int } else { n - 1 };
    let exit_raw = match t.exit_bar { Some(x) => x as int, None => n - 1 };
    let exit = if exit_raw < n - 1 { exit_raw } else { n - 1 };
    entry <= b <= exit
}

/// The number of `b < k` for which `f(b)` holds.
pub open spec fn count_below(f: spec_fn(int) -> bool, k: nat) -> nat
    decreases k,
{
    if k == 0 {
        0
    } else {
        count_below(f, (k - 1) as nat) + if f(k - 1) { 1nat } else { 0nat }
    }
}

pub proof fn lemma_count_below_same(f: spec_fn(int) -> bool, g: spec_fn(int) -> bool, k: nat)
    requires
        forall|b: int| 0 <= b < k ==> #[trigger] f(b) == g(b),
    ensures
        count_below(f, k) == count_below(g, k),
    decreases k,
{
    if k > 0 {
        lemma_count_below_same(f, g, (k - 1) as nat);
    }
}

/// Whether a trade of `trades` covers bar `b` of `n` bars.
pub open spec fn in_some_trade<P>(trades: Seq<Trade<P>>, n: int) -> spec_fn(int) -> bool {
    |b: int| bar_in_trade(trades, n, b)
}

pub open spec fn flag_at(flags: Seq<bool>) -> spec_fn(int) -> bool {
    |b: int| flags[b]
}

/// The number of the `n` bars during which some trade was open.
pub fn exposure_bars<P: Scalar>(trades: &[Trade<P>], n: usize) -> (r: usize)
    requires
        n > 0,
    ensures
        r <= n,
        r == count_below(in_some_trade(trades@, n as int), n as nat),
{
    let mut open_bars: Vec<bool> = Vec::with_capacity(n);
    let mut b: usize = 0;
    while b < n
        invariant
            b <= n,
            open_bars@.len() == b,
            forall|k: int| 0 <= k < b ==> !#[trigger] open_bars@[k],
        decreases n - b,
    {
        open_bars.push(false);
        b = b + 1;
    }
    let mut i: usize = 0;
    while i < trades.len()
        invariant
            n > 0,
            i <= trades@.len(),
            open_bars@.len() == n,
            forall|k: int| 0 <= k < n ==> (#[trigger] open_bars@[k] <==> bar_in_trade(trades@.subrange(0, i as int), n as int, k)),
        decreases trades@.len() - i,
    {
        let t = &trades[i];
        let entry = if t.entry_bar < n - 1 { t.entry_bar } else { n - 1 };
        let exit_raw = match t.exit_bar {
            Some(x) => x,
            None => n - 1,
        };
        let exit = if exit_raw < n - 1 { exit_raw } else { n - 1 };
        let ghost before = open_bars@;
        let mut c: usize = entry;
        while c <= exit
            invariant
                entry <= c,
                c <= if entry <= exit { exit + 1 } else { entry as int },
                exit < n,
                open_bars@.len() == n,
                forall|k: int| 0 <= k < n ==> (#[trigger] open_bars@[k] <==> (before[k] || (entry <= k < c))),
            decreases exit + 1 - c,
        {
            open_bars.set(c, true);
            c = c + 1;
        }
        proof {
            let prev = trades@.subrange(0, i as int);
            let next = trades@.subrange(0, i + 1);
            assert forall|k: int| 0 <= k < n implies (#[trigger] open_bars@[k] <==> bar_in_trade(next, n as int, k)) by {
                assert(before[k] <==> bar_in_trade(prev, n as int, k));
                if bar_in_trade(prev, n as int, k) {
                    let w = choose|w: int| 0 <= w < prev.len() && #[trigger] covers(prev[w], n as int, k);
                    assert(next[w] == prev[w]);
                    assert(covers(next[w], n as int, k));
                }
                if bar_in_trade(next, n as int, k) {
                    let w = choose|w: int| 0 <= w < next.len() && #[trigger] covers(next[w], n as int, k);
                    if w < i {
                        assert(prev[w] == next[w]);
                        assert(covers(prev[w], n as int, k));
                    } else {
                        assert(next[w] == trades@[i as int]);
                    }
                }
                if entry <= k && k < c {
                    assert(next[i as int] == trades@[i as int]);
                    assert(covers(next[i as int], n as int, k));
                }
            }
        }
        i = i + 1;
    }
    let r = count_true(&open_bars);
    proof {
        assert(trades@.subrange(0, trades@.len() as int) == trades@);
        lemma_count_below_same(flag_at(open_bars@), in_some_trade(trades@, n as int), n as nat);
    }
    r
}

/// The number of `true` entries of `flags`.
fn count_true(flags: &Vec<bool>) -> (r: usize)
    ensures
        r <= flags@.len(),
        r == count_below(flag_at(flags@), flags@.len()),
{
    let mut r: usize = 0;
    let mut i: usize = 0;
    while i < flags.len()
        invariant
            i <= flags@.len(),
            r <= i,
            r == count_below(flag_at(flags@), i as nat),
        decreases flags@.len() - i,
    {
        if flags[i] {
            r = r + 1;
        }
        i = i + 1;
    }
    r
}

} // verus!
