use backtesting::{
    random_walk, sma, Backtest, BrokerConfig, Commission, CommissionModel, Context, Data, Draw,
    Indicator, OrderSize, Scalar, Strategy, TradeId,
};
use chrono::{NaiveDate, NaiveDateTime};
use std::sync::Arc;

/// Prices as binary floating point numbers.
#[derive(Debug, Clone, Copy, PartialEq, PartialOrd)]
struct F64(f64);

impl Scalar for F64 {
    fn zero() -> Self {
        F64(0.0)
    }
    fn one() -> Self {
        F64(1.0)
    }
    fn nan() -> Self {
        F64(f64::NAN)
    }
    fn infinity() -> Self {
        F64(f64::INFINITY)
    }
    fn neg_infinity() -> Self {
        F64(f64::NEG_INFINITY)
    }
    fn lowest() -> Self {
        F64(f64::MIN)
    }
    fn highest() -> Self {
        F64(f64::MAX)
    }
    fn epsilon() -> Self {
        F64(f64::EPSILON)
    }
    fn from_i64(v: i64) -> Self {
        F64(v as f64)
    }
    fn from_u64(v: u64) -> Self {
        F64(v as f64)
    }
    fn from_usize(v: usize) -> Self {
        F64(v as f64)
    }
    fn from_u128(v: u128) -> Self {
        F64(v as f64)
    }
    fn to_i64(self) -> i64 {
        self.0 as i64
    }
    fn plus(self, rhs: Self) -> Self {
        F64(self.0 + rhs.0)
    }
    fn minus(self, rhs: Self) -> Self {
        F64(self.0 - rhs.0)
    }
    fn times(self, rhs: Self) -> Self {
        F64(self.0 * rhs.0)
    }
    fn divided_by(self, rhs: Self) -> Self {
        F64(self.0 / rhs.0)
    }
    fn negated(self) -> Self {
        F64(-self.0)
    }
    fn abs(self) -> Self {
        F64(self.0.abs())
    }
    fn floor(self) -> Self {
        F64(self.0.floor())
    }
    fn round(self) -> Self {
        F64(self.0.round())
    }
    fn sqrt(self) -> Self {
        F64(self.0.sqrt())
    }
    fn ln(self) -> Self {
        F64(self.0.ln())
    }
    fn exp(self) -> Self {
        F64(self.0.exp())
    }
    fn powf(self, e: Self) -> Self {
        F64(self.0.powf(e.0))
    }
    fn powi(self, e: i32) -> Self {
        F64(self.0.powi(e))
    }
    fn maximum(self, rhs: Self) -> Self {
        F64(self.0.max(rhs.0))
    }
    fn minimum(self, rhs: Self) -> Self {
        F64(self.0.min(rhs.0))
    }
    fn lt(self, rhs: Self) -> bool {
        self.0 < rhs.0
    }
    fn le(self, rhs: Self) -> bool {
        self.0 <= rhs.0
    }
    fn gt(self, rhs: Self) -> bool {
        self.0 > rhs.0
    }
    fn ge(self, rhs: Self) -> bool {
        self.0 >= rhs.0
    }
    fn equals(self, rhs: Self) -> bool {
        self.0 == rhs.0
    }
    fn is_nan(self) -> bool {
        self.0.is_nan()
    }
    fn is_finite(self) -> bool {
        self.0.is_finite()
    }
    fn to_text(self) -> String {
        format!("{}", self.0)
    }
    fn to_debug_text(self) -> String {
        format!("{:?}", self.0)
    }
}

type Ctx<'a, C> = Context<'a, F64, NaiveDateTime, C>;

fn bars(rows: &[(f64, f64, f64, f64)]) -> Data<F64, NaiveDateTime> {
    let start = NaiveDate::from_ymd_opt(2024, 1, 1)
        .unwrap()
        .and_hms_opt(0, 0, 0)
        .unwrap();
    let n = rows.len();
    let index = (0..n)
        .map(|i| start + chrono::Duration::days(i as i64))
        .collect();
    let open = rows.iter().map(|r| F64(r.0)).collect();
    let high = rows.iter().map(|r| F64(r.1)).collect();
    let low = rows.iter().map(|r| F64(r.2)).collect();
    let close = rows.iter().map(|r| F64(r.3)).collect();
    let volume = vec![F64(1000.0); n];
    Data::new(index, open, high, low, close, volume).unwrap()
}

fn config(cash: f64) -> BrokerConfig<F64, Commission<F64>> {
    BrokerConfig {
        cash: F64(cash),
        ..Default::default()
    }
}

/// Buys once (with the given SL/TP) on `buy_at_bar`, then never trades again.
struct BuyOnceWithBracket {
    buy_at_bar: usize,
    sl: Option<f64>,
    tp: Option<f64>,
    bought: bool,
}

impl<C: CommissionModel<F64>> Strategy<F64, NaiveDateTime, C> for BuyOnceWithBracket {
    fn init(&mut self, _ctx: &mut Ctx<C>) {}

    fn next(&mut self, ctx: &mut Ctx<C>) {
        if !self.bought && ctx.bar_index() == self.buy_at_bar {
            ctx.buy(OrderSize::All, None, None, self.sl.map(F64), self.tp.map(F64), None)
                .unwrap();
            self.bought = true;
        }
    }
}

/// Market orders fill on the *next* bar's open, and TP/SL bracket orders
/// resolve against subsequent bars' High/Low -- this checks both, plus
/// that the fill price is exactly the touched TP limit (not e.g. the
/// bar's High).
#[test]
fn take_profit_fills_at_the_limit_price() {
    let data = bars(&[
        (100.0, 102.0, 98.0, 100.0),  // 0
        (100.0, 102.0, 98.0, 101.0),  // 1
        (101.0, 103.0, 99.0, 102.0),  // 2 <- strategy buys here
        (102.0, 104.0, 101.0, 103.0), // 3 <- fills at open=102; TP=110, SL=95
        (103.0, 105.0, 102.0, 104.0), // 4
        (104.0, 108.0, 103.0, 107.0), // 5
        (107.0, 115.0, 106.0, 112.0), // 6 <- High touches/exceeds TP=110
        (112.0, 113.0, 111.0, 112.0), // 7
        (112.0, 113.0, 111.0, 112.0), // 8
        (112.0, 113.0, 111.0, 112.0), // 9
        (112.0, 113.0, 111.0, 112.0), // 10
        (112.0, 113.0, 111.0, 112.0), // 11
    ]);

    let bt = Backtest::new(
        data,
        BrokerConfig {
            cash: F64(10_000.0),
            commission: Commission::relative(F64(0.0)),
            trade_on_close: false,
            ..Default::default()
        },
    );
    let strat = BuyOnceWithBracket {
        buy_at_bar: 2,
        sl: Some(95.0),
        tp: Some(110.0),
        bought: false,
    };
    let result = bt.run(strat).unwrap();

    assert_eq!(
        result.closed_trades.len(),
        1,
        "expected exactly one closed trade"
    );
    let t = &result.closed_trades[0];
    assert_eq!(t.entry_bar, 3);
    assert!(
        (t.entry_price.0 - 102.0).abs() < 1e-9,
        "entry should fill at bar 3's open, got {}",
        t.entry_price.0
    );
    assert_eq!(t.exit_bar, Some(6));
    assert!(
        (t.exit_price.unwrap().0 - 110.0).abs() < 1e-9,
        "exit should fill exactly at the TP limit, got {:?}",
        t.exit_price
    );
    assert!(t.is_long());
}

#[test]
fn stop_loss_fills_when_price_dips() {
    let data = bars(&[
        (100.0, 102.0, 98.0, 100.0),  // 0
        (100.0, 102.0, 98.0, 101.0),  // 1
        (101.0, 103.0, 99.0, 102.0),  // 2 <- strategy buys here
        (102.0, 104.0, 101.0, 103.0), // 3 <- fills at open=102; TP=110, SL=95
        (103.0, 105.0, 102.0, 104.0), // 4
        (104.0, 106.0, 96.0, 97.0),   // 5
        (97.0, 98.0, 90.0, 92.0),     // 6 <- Low breaches SL=95
        (92.0, 93.0, 91.0, 92.0),     // 7
        (92.0, 93.0, 91.0, 92.0),     // 8
        (92.0, 93.0, 91.0, 92.0),     // 9
        (92.0, 93.0, 91.0, 92.0),     // 10
        (92.0, 93.0, 91.0, 92.0),     // 11
    ]);

    let bt = Backtest::new(
        data,
        BrokerConfig {
            cash: F64(10_000.0),
            commission: Commission::relative(F64(0.0)),
            ..Default::default()
        },
    );
    let strat = BuyOnceWithBracket {
        buy_at_bar: 2,
        sl: Some(95.0),
        tp: Some(110.0),
        bought: false,
    };
    let result = bt.run(strat).unwrap();

    assert_eq!(result.closed_trades.len(), 1);
    let t = &result.closed_trades[0];
    assert_eq!(t.exit_bar, Some(6));
    assert!(
        (t.exit_price.unwrap().0 - 95.0).abs() < 1e-9,
        "exit should fill exactly at the SL stop, got {:?}",
        t.exit_price
    );
    assert!(t.pl(F64(0.0)).0 < 0.0, "a stopped-out long should show a loss");
}

#[test]
fn open_trade_is_finalized_at_the_end() {
    let data = bars(&[
        (100.0, 101.0, 99.0, 100.0),
        (100.0, 101.0, 99.0, 101.0),
        (101.0, 102.0, 100.0, 102.0), // buy here
        (102.0, 103.0, 101.0, 103.0),
        (103.0, 104.0, 102.0, 104.0),
        (104.0, 105.0, 103.0, 105.0),
    ]);
    let bt = Backtest::new(data, config(10_000.0));
    let strat = BuyOnceWithBracket {
        buy_at_bar: 2,
        sl: None,
        tp: None,
        bought: false,
    };
    let result = bt.run(strat).unwrap();

    assert_eq!(
        result.closed_trades.len(),
        1,
        "the still-open trade should be force-closed"
    );
    assert!(result.closed_trades[0].exit_price.is_some());
}

struct BuyHugeAbsoluteSize;

impl<C: CommissionModel<F64>> Strategy<F64, NaiveDateTime, C> for BuyHugeAbsoluteSize {
    fn init(&mut self, _ctx: &mut Ctx<C>) {}
    fn next(&mut self, ctx: &mut Ctx<C>) {
        if ctx.bar_index() == 1 {
            // Try to buy far more whole units than the $1,000 cash could ever cover.
            ctx.buy(OrderSize::Units(F64(1_000_000.0)), None, None, None, None, None)
                .unwrap();
        }
    }
}

#[test]
fn insufficient_margin_rejects_absolute_size_order() {
    let data = bars(&[
        (100.0, 101.0, 99.0, 100.0),
        (100.0, 101.0, 99.0, 101.0),
        (101.0, 102.0, 100.0, 102.0),
        (102.0, 103.0, 101.0, 103.0),
    ]);
    let bt = Backtest::new(data, config(1_000.0));
    let result = bt.run(BuyHugeAbsoluteSize).unwrap();

    assert_eq!(
        result.closed_trades.len(),
        0,
        "the oversized order should have been canceled, not filled"
    );
    assert!(
        !result.warnings.is_empty(),
        "a margin-rejection warning should have been recorded"
    );
}

struct BuyOnceWithTag {
    buy_at_bar: usize,
    bought: bool,
}

impl<C: CommissionModel<F64>> Strategy<F64, NaiveDateTime, C> for BuyOnceWithTag {
    fn init(&mut self, _ctx: &mut Ctx<C>) {}
    fn next(&mut self, ctx: &mut Ctx<C>) {
        if !self.bought && ctx.bar_index() == self.buy_at_bar {
            ctx.buy(
                OrderSize::All,
                None,
                None,
                None,
                None,
                Some("entry_signal".to_string()),
            )
            .unwrap();
            self.bought = true;
        }
    }
}

#[test]
fn tag_propagates_from_order_to_trade() {
    let data = bars(&[
        (100.0, 101.0, 99.0, 100.0),
        (100.0, 101.0, 99.0, 101.0),
        (101.0, 102.0, 100.0, 102.0), // buy here
        (102.0, 103.0, 101.0, 103.0),
        (103.0, 104.0, 102.0, 104.0),
        (104.0, 105.0, 103.0, 105.0),
    ]);
    let bt = Backtest::new(data, config(10_000.0));
    let strat = BuyOnceWithTag {
        buy_at_bar: 2,
        bought: false,
    };
    let result = bt.run(strat).unwrap();

    assert_eq!(result.closed_trades.len(), 1);
    let t = &result.closed_trades[0];
    assert_eq!(
        t.tag.as_deref(),
        Some("entry_signal"),
        "tag should survive from order placement through to the closed trade"
    );
}

struct BuyOnceNoTag {
    buy_at_bar: usize,
    bought: bool,
}

impl<C: CommissionModel<F64>> Strategy<F64, NaiveDateTime, C> for BuyOnceNoTag {
    fn init(&mut self, _ctx: &mut Ctx<C>) {}
    fn next(&mut self, ctx: &mut Ctx<C>) {
        if !self.bought && ctx.bar_index() == self.buy_at_bar {
            ctx.buy(OrderSize::All, None, None, None, None, None)
                .unwrap();
            self.bought = true;
        }
    }
}

#[test]
fn no_tag_yields_none() {
    let data = bars(&[
        (100.0, 101.0, 99.0, 100.0),
        (100.0, 101.0, 99.0, 101.0),
        (101.0, 102.0, 100.0, 102.0),
        (102.0, 103.0, 101.0, 103.0),
    ]);
    let bt = Backtest::new(data, config(10_000.0));
    let strat = BuyOnceNoTag {
        buy_at_bar: 2,
        bought: false,
    };
    let result = bt.run(strat).unwrap();

    assert_eq!(result.closed_trades.len(), 1);
    assert!(
        result.closed_trades[0].tag.is_none(),
        "an order placed without a tag should leave the trade untagged"
    );
}

struct BuyThenPartialClose {
    bought: bool,
    closed_half: bool,
}

impl<C: CommissionModel<F64>> Strategy<F64, NaiveDateTime, C> for BuyThenPartialClose {
    fn init(&mut self, _ctx: &mut Ctx<C>) {}
    fn next(&mut self, ctx: &mut Ctx<C>) {
        if !self.bought && ctx.bar_index() == 1 {
            ctx.buy(
                OrderSize::Units(F64(10.0)),
                None,
                None,
                None,
                None,
                Some("swing_long".to_string()),
            )
            .unwrap();
            self.bought = true;
        } else if self.bought && !self.closed_half && ctx.bar_index() == 3 {
            ctx.close_position(F64(0.5)).unwrap();
            self.closed_half = true;
        }
    }
}

#[test]
fn tag_survives_partial_close_and_shares_allocation() {
    let data = bars(&[
        (100.0, 101.0, 99.0, 100.0),
        (100.0, 101.0, 99.0, 101.0), // buy here
        (101.0, 102.0, 100.0, 102.0),
        (102.0, 103.0, 101.0, 103.0), // close half here
        (103.0, 104.0, 102.0, 104.0),
        (104.0, 105.0, 103.0, 105.0),
    ]);
    let bt = Backtest::new(
        data,
        BrokerConfig {
            cash: F64(10_000.0),
            commission: Commission::relative(F64(0.0)),
            ..Default::default()
        },
    );
    let strat = BuyThenPartialClose {
        bought: false,
        closed_half: false,
    };
    let result = bt.run(strat).unwrap();

    assert_eq!(
        result.closed_trades.len(),
        2,
        "expected the partial close plus the finalized remainder"
    );

    for t in &result.closed_trades {
        assert_eq!(
            t.tag.as_deref(),
            Some("swing_long"),
            "tag should propagate to both the closed chunk and the split-off remainder"
        );
    }

    let a = result.closed_trades[0].tag.as_ref().unwrap();
    let b = result.closed_trades[1].tag.as_ref().unwrap();
    assert!(
        Arc::ptr_eq(a, b),
        "tag should be shared via Arc, not re-allocated per trade"
    );
}

struct BuyThenSellHedged {
    bought: bool,
    sold: bool,
}

impl<C: CommissionModel<F64>> Strategy<F64, NaiveDateTime, C> for BuyThenSellHedged {
    fn init(&mut self, _ctx: &mut Ctx<C>) {}
    fn next(&mut self, ctx: &mut Ctx<C>) {
        if !self.bought && ctx.bar_index() == 1 {
            ctx.buy(OrderSize::Units(F64(5.0)), None, None, None, None, None)
                .unwrap();
            self.bought = true;
        } else if self.bought && !self.sold && ctx.bar_index() == 3 {
            ctx.sell(OrderSize::Units(F64(3.0)), None, None, None, None, None)
                .unwrap();
            self.sold = true;
        }
    }
}

#[test]
fn hedging_keeps_long_and_short_trades_independent() {
    let data = bars(&[
        (100.0, 101.0, 99.0, 100.0),
        (100.0, 101.0, 99.0, 101.0),  // buy here
        (101.0, 102.0, 100.0, 102.0), // long fills at this bar's open (101.0)
        (102.0, 103.0, 101.0, 103.0), // sell here
        (103.0, 104.0, 102.0, 104.0), // short fills at this bar's open (103.0)
        (104.0, 105.0, 103.0, 105.0),
    ]);
    let bt = Backtest::new(
        data,
        BrokerConfig {
            cash: F64(10_000.0),
            commission: Commission::relative(F64(0.0)),
            trade_on_close: false,
            hedging: true,
            ..Default::default()
        },
    );
    let strat = BuyThenSellHedged {
        bought: false,
        sold: false,
    };
    let result = bt.run(strat).unwrap();

    assert_eq!(
        result.closed_trades.len(),
        2,
        "hedging should open a separate trade instead of reducing the existing one"
    );
    let long_trade = result
        .closed_trades
        .iter()
        .find(|t| t.is_long())
        .expect("expected a long trade");
    let short_trade = result
        .closed_trades
        .iter()
        .find(|t| t.is_short())
        .expect("expected a short trade");

    assert_eq!(long_trade.size, 5);
    assert_eq!(long_trade.entry_bar, 2);
    assert!((long_trade.entry_price.0 - 101.0).abs() < 1e-9);

    assert_eq!(short_trade.size, -3);
    assert_eq!(
        short_trade.entry_bar, 4,
        "a hedged short must be its own entry, not a split of the long trade"
    );
    assert!(
        (short_trade.entry_price.0 - 103.0).abs() < 1e-9,
        "a hedged short's entry price must come from its own fill, not the long trade's"
    );
}

struct BuyTwice {
    bought_first: bool,
    bought_second: bool,
}

impl<C: CommissionModel<F64>> Strategy<F64, NaiveDateTime, C> for BuyTwice {
    fn init(&mut self, _ctx: &mut Ctx<C>) {}
    fn next(&mut self, ctx: &mut Ctx<C>) {
        if !self.bought_first && ctx.bar_index() == 1 {
            ctx.buy(OrderSize::Units(F64(5.0)), None, None, None, None, None)
                .unwrap();
            self.bought_first = true;
        } else if self.bought_first && !self.bought_second && ctx.bar_index() == 4 {
            // No explicit close first -- exclusive_orders should auto-close
            // the existing position before opening this one.
            ctx.buy(OrderSize::Units(F64(5.0)), None, None, None, None, None)
                .unwrap();
            self.bought_second = true;
        }
    }
}

#[test]
fn exclusive_orders_auto_closes_before_opening_a_new_trade() {
    let data = bars(&[
        (100.0, 101.0, 99.0, 100.0),
        (100.0, 101.0, 99.0, 101.0),  // buy #1 here
        (101.0, 102.0, 100.0, 102.0), // entry #1 fills
        (102.0, 103.0, 101.0, 103.0),
        (103.0, 104.0, 102.0, 104.0), // buy #2 here -> auto-closes #1
        (104.0, 105.0, 103.0, 105.0), // auto-close #1 + entry #2 fill here
        (105.0, 106.0, 104.0, 106.0),
        (106.0, 107.0, 105.0, 107.0),
    ]);
    let bt = Backtest::new(
        data,
        BrokerConfig {
            cash: F64(10_000.0),
            commission: Commission::relative(F64(0.0)),
            trade_on_close: false,
            exclusive_orders: true,
            ..Default::default()
        },
    );
    let strat = BuyTwice {
        bought_first: false,
        bought_second: false,
    };
    let result = bt.run(strat).unwrap();

    assert_eq!(result.closed_trades.len(), 2);
    let first = &result.closed_trades[0];
    let second = &result.closed_trades[1];

    assert_eq!(first.entry_bar, 2);
    assert_eq!(
        first.exit_bar,
        Some(5),
        "the first trade should be force-closed when the second order is placed"
    );
    assert_eq!(
        second.entry_bar, 5,
        "the new trade should open the same bar the old one was auto-closed"
    );
    assert!(
        second.exit_bar.unwrap() > 5,
        "the second trade should only close via finalize, not immediately again"
    );
}

struct BuyThenTightenSlTwice {
    bought: bool,
    tightened_once: bool,
    tightened_twice: bool,
    trade_id: Option<TradeId>,
}

impl<C: CommissionModel<F64>> Strategy<F64, NaiveDateTime, C> for BuyThenTightenSlTwice {
    fn init(&mut self, _ctx: &mut Ctx<C>) {}
    fn next(&mut self, ctx: &mut Ctx<C>) {
        if !self.bought && ctx.bar_index() == 2 {
            ctx.buy(
                OrderSize::Units(F64(1.0)),
                None,
                None,
                Some(F64(90.0)),
                Some(F64(120.0)),
                None,
            )
            .unwrap();
            self.bought = true;
        } else if self.bought && !self.tightened_once && ctx.bar_index() == 4 {
            self.trade_id = Some(ctx.trades()[0].id);
            ctx.set_trade_sl(self.trade_id.unwrap(), Some(F64(95.0)))
                .unwrap();
            self.tightened_once = true;
        } else if self.tightened_once && !self.tightened_twice && ctx.bar_index() == 5 {
            ctx.set_trade_sl(self.trade_id.unwrap(), Some(F64(98.0)))
                .unwrap();
            self.tightened_twice = true;
        }
    }
}

#[test]
fn sl_replaced_twice_uses_the_latest_price() {
    let data = bars(&[
        (100.0, 101.0, 99.0, 100.0),
        (100.0, 101.0, 99.0, 101.0),
        (101.0, 102.0, 100.0, 102.0), // buy here, sl=90, tp=120
        (102.0, 103.0, 101.0, 103.0), // entry fills at open=102
        (103.0, 104.0, 102.0, 104.0), // tighten sl -> 95 here
        (104.0, 105.0, 103.0, 105.0), // tighten sl -> 98 here
        (105.0, 106.0, 96.0, 97.0),   // Low breaches 98, not 90 or 95
        (97.0, 98.0, 96.0, 97.0),
    ]);
    let bt = Backtest::new(
        data,
        BrokerConfig {
            cash: F64(10_000.0),
            commission: Commission::relative(F64(0.0)),
            trade_on_close: false,
            ..Default::default()
        },
    );
    let strat = BuyThenTightenSlTwice {
        bought: false,
        tightened_once: false,
        tightened_twice: false,
        trade_id: None,
    };
    let result = bt.run(strat).unwrap();

    assert_eq!(result.closed_trades.len(), 1);
    let t = &result.closed_trades[0];
    assert_eq!(t.exit_bar, Some(6));
    assert!(
        (t.exit_price.unwrap().0 - 98.0).abs() < 1e-9,
        "should exit at the most recently set SL (98), not an earlier one, got {:?}",
        t.exit_price
    );
}

struct BuyThenTightenTpTwice {
    bought: bool,
    tightened_once: bool,
    tightened_twice: bool,
    trade_id: Option<TradeId>,
}

impl<C: CommissionModel<F64>> Strategy<F64, NaiveDateTime, C> for BuyThenTightenTpTwice {
    fn init(&mut self, _ctx: &mut Ctx<C>) {}
    fn next(&mut self, ctx: &mut Ctx<C>) {
        if !self.bought && ctx.bar_index() == 2 {
            ctx.buy(OrderSize::Units(F64(1.0)), None, None, None, Some(F64(120.0)), None)
                .unwrap();
            self.bought = true;
        } else if self.bought && !self.tightened_once && ctx.bar_index() == 4 {
            self.trade_id = Some(ctx.trades()[0].id);
            ctx.set_trade_tp(self.trade_id.unwrap(), Some(F64(110.0)))
                .unwrap();
            self.tightened_once = true;
        } else if self.tightened_once && !self.tightened_twice && ctx.bar_index() == 5 {
            ctx.set_trade_tp(self.trade_id.unwrap(), Some(F64(108.0)))
                .unwrap();
            self.tightened_twice = true;
        }
    }
}

#[test]
fn tp_replaced_twice_uses_the_latest_price() {
    let data = bars(&[
        (100.0, 101.0, 99.0, 100.0),
        (100.0, 101.0, 99.0, 101.0),
        (101.0, 102.0, 100.0, 102.0), // buy here, tp=120
        (102.0, 103.0, 101.0, 103.0), // entry fills at open=102
        (103.0, 104.0, 102.0, 104.0), // tighten tp -> 110 here
        (104.0, 105.0, 103.0, 105.0), // tighten tp -> 108 here
        (105.0, 109.0, 104.0, 108.0), // High touches 108, not 110 or 120
        (108.0, 109.0, 107.0, 108.0),
    ]);
    let bt = Backtest::new(
        data,
        BrokerConfig {
            cash: F64(10_000.0),
            commission: Commission::relative(F64(0.0)),
            trade_on_close: false,
            ..Default::default()
        },
    );
    let strat = BuyThenTightenTpTwice {
        bought: false,
        tightened_once: false,
        tightened_twice: false,
        trade_id: None,
    };
    let result = bt.run(strat).unwrap();

    assert_eq!(result.closed_trades.len(), 1);
    let t = &result.closed_trades[0];
    assert_eq!(t.exit_bar, Some(6));
    assert!(
        (t.exit_price.unwrap().0 - 108.0).abs() < 1e-9,
        "should exit at the most recently set TP (108), not an earlier one, got {:?}",
        t.exit_price
    );
}

/// A commission of a flat fee per leg, whatever the size and price.
#[derive(Clone)]
struct FlatFee(f64);

impl CommissionModel<F64> for FlatFee {
    fn compute(&self, _order_size: F64, _price: F64) -> F64 {
        F64(self.0)
    }
}

struct BuyOnceFlat {
    bought: bool,
}

impl<C: CommissionModel<F64>> Strategy<F64, NaiveDateTime, C> for BuyOnceFlat {
    fn init(&mut self, _ctx: &mut Ctx<C>) {}
    fn next(&mut self, ctx: &mut Ctx<C>) {
        if !self.bought && ctx.bar_index() == 1 {
            ctx.buy(OrderSize::Units(F64(10.0)), None, None, None, None, None)
                .unwrap();
            self.bought = true;
        }
    }
}

#[test]
fn custom_commission_charges_the_flat_fee_on_both_legs() {
    let data = bars(&[
        (100.0, 101.0, 99.0, 100.0),
        (100.0, 101.0, 99.0, 101.0),
        (101.0, 102.0, 100.0, 102.0),
        (102.0, 103.0, 101.0, 103.0),
        (103.0, 104.0, 102.0, 104.0),
    ]);
    let bt = Backtest::new(
        data,
        BrokerConfig {
            cash: F64(10_000.0),
            spread: F64(0.0),
            commission: FlatFee(5.0),
            margin: F64(1.0),
            trade_on_close: false,
            hedging: false,
            exclusive_orders: false,
        },
    );
    let result = bt.run(BuyOnceFlat { bought: false }).unwrap();

    assert_eq!(result.closed_trades.len(), 1);
    let t = &result.closed_trades[0];
    assert!(
        (t.commission.0 - 10.0).abs() < 1e-9,
        "flat $5 fee should be charged on both entry and exit legs, got {}",
        t.commission.0
    );
}

/// Enters on moving-average crossings with a stop order above the price
/// (long) or a limit order above the price (short), each with SL and TP.
struct SmaCrossLimitStop {
    fast_window: usize,
    slow_window: usize,
    sma_fast: usize,
    sma_slow: usize,
}

impl<C: CommissionModel<F64>> Strategy<F64, NaiveDateTime, C> for SmaCrossLimitStop {
    fn init(&mut self, ctx: &mut Ctx<C>) {
        let close = ctx.data.full_close().to_vec();
        self.sma_fast = ctx.indicator(Indicator::new(
            format!("SMA({})", self.fast_window),
            sma(&close, self.fast_window),
        ));
        self.sma_slow = ctx.indicator(Indicator::new(
            format!("SMA({})", self.slow_window),
            sma(&close, self.slow_window),
        ));
    }

    fn next(&mut self, ctx: &mut Ctx<C>) {
        let fast = ctx.indicator_series(self.sma_fast).to_vec();
        let slow = ctx.indicator_series(self.sma_slow).to_vec();
        if fast.len() < 2 || slow.len() < 2 {
            return;
        }
        let (fast_now, fast_prev) = (fast[fast.len() - 1].0, fast[fast.len() - 2].0);
        let (slow_now, slow_prev) = (slow[slow.len() - 1].0, slow[slow.len() - 2].0);
        if fast_prev.is_nan() || fast_now.is_nan() || slow_prev.is_nan() || slow_now.is_nan() {
            return;
        }
        let crossed_up = fast_prev < slow_prev && fast_now > slow_now;
        let crossed_down = fast_prev > slow_prev && fast_now < slow_now;
        let price = ctx.data.close().last().unwrap().0;
        if crossed_up {
            ctx.buy(
                OrderSize::Fraction(F64(0.0001)),
                None,
                Some(F64(price * 1.001)),
                Some(F64(price * 0.99)),
                Some(F64(price * 1.02)),
                Some("long_stop_entry".to_string()),
            )
            .unwrap();
        } else if crossed_down {
            ctx.sell(
                OrderSize::Fraction(F64(0.0001)),
                Some(F64(price * 1.001)),
                None,
                Some(F64(price * 1.01)),
                Some(F64(price * 0.98)),
                Some("short_limit_entry".to_string()),
            )
            .unwrap();
        }
    }
}

/// Pseudo-random numbers in `[0, 1)` from a linear congruential generator.
fn uniform(state: &mut u64) -> f64 {
    *state = state.wrapping_mul(6364136223846793005).wrapping_add(1442695040888963407);
    (*state >> 11) as f64 / (1u64 << 53) as f64
}

#[test]
fn limit_and_stop_entries_with_brackets_keep_the_books_consistent() {
    let n = 3000;
    let mut state = 7u64;
    let start = NaiveDate::from_ymd_opt(2024, 1, 1)
        .unwrap()
        .and_hms_opt(0, 0, 0)
        .unwrap();
    let index: Vec<NaiveDateTime> = (0..n).map(|i| start + chrono::Duration::minutes(i as i64)).collect();
    let draws: Vec<Draw<F64>> = (0..n)
        .map(|_| Draw {
            shock: F64(uniform(&mut state) * 0.04 - 0.02),
            high_up: F64(uniform(&mut state) * 0.01),
            low_down: F64(uniform(&mut state) * 0.01),
            volume: F64(1000.0 + uniform(&mut state) * 9000.0),
        })
        .collect();
    let data = random_walk(index, &draws, F64(100.0), F64(0.0), F64(0.5)).unwrap();
    let bt = Backtest::new(
        data,
        BrokerConfig {
            cash: F64(1_000_000.0),
            commission: Commission::relative(F64(0.00002)),
            margin: F64(1.0 / 1000.0),
            exclusive_orders: false,
            ..Default::default()
        },
    );
    let result = bt
        .run(SmaCrossLimitStop { fast_window: 10, slow_window: 20, sma_fast: usize::MAX, sma_slow: usize::MAX })
        .unwrap();
    assert_eq!(result.equity_curve.len(), n);
    assert!(!result.closed_trades.is_empty(), "expected at least one closed trade");
    assert_eq!(result.stats.num_trades, result.closed_trades.len());
    for t in &result.closed_trades {
        assert!(t.exit_price.is_some() && t.exit_bar.is_some());
        assert!(t.size != 0);
        match t.tag.as_deref() {
            Some("long_stop_entry") => assert!(t.is_long()),
            Some("short_limit_entry") => assert!(t.is_short()),
            other => panic!("unexpected tag {other:?}"),
        }
        assert!(t.exit_bar.unwrap() >= t.entry_bar);
    }
    let mut ids: Vec<usize> = result.closed_trades.iter().map(|t| t.id.0).collect();
    ids.dedup();
    assert_eq!(ids.len(), result.closed_trades.len(), "each closed trade is listed once");
}
