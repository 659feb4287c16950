use backtesting::order::OrderSize as ResolvedOrderSize;
use backtesting::{
    backfill, best_run, compute_stats, sma, warmup_start_bar, Backtest, BacktestError, Broker,
    BrokerConfig, Commission, Data, Field, Indicator, Order, OrderId, OrderSize, OrderTable,
    random_walk, Draw, RunResult, Scalar, SmaCross, Trade, TradeId, Warning,
};
use std::sync::Arc;

/// Prices as binary floating point numbers.
#[derive(Debug, Clone, Copy, PartialEq, PartialOrd)]
struct F64(f64);

impl Scalar for F64 {
    fn zero() -> Self {
        F64(0.0)
    }
    fn one() -> Self {
        F64(1.0)
    }
    fn nan() -> Self {
        F64(f64::NAN)
    }
    fn infinity() -> Self {
        F64(f64::INFINITY)
    }
    fn neg_infinity() -> Self {
        F64(f64::NEG_INFINITY)
    }
    fn lowest() -> Self {
        F64(f64::MIN)
    }
    fn highest() -> Self {
        F64(f64::MAX)
    }
    fn epsilon() -> Self {
        F64(f64::EPSILON)
    }
    fn from_i64(v: i64) -> Self {
        F64(v as f64)
    }
    fn from_u64(v: u64) -> Self {
        F64(v as f64)
    }
    fn from_usize(v: usize) -> Self {
        F64(v as f64)
    }
    fn from_u128(v: u128) -> Self {
        F64(v as f64)
    }
    fn to_i64(self) -> i64 {
        self.0 as i64
    }
    fn plus(self, rhs: Self) -> Self {
        F64(self.0 + rhs.0)
    }
    fn minus(self, rhs: Self) -> Self {
        F64(self.0 - rhs.0)
    }
    fn times(self, rhs: Self) -> Self {
        F64(self.0 * rhs.0)
    }
    fn divided_by(self, rhs: Self) -> Self {
        F64(self.0 / rhs.0)
    }
    fn negated(self) -> Self {
        F64(-self.0)
    }
    fn abs(self) -> Self {
        F64(self.0.abs())
    }
    fn floor(self) -> Self {
        F64(self.0.floor())
    }
    fn round(self) -> Self {
        F64(self.0.round())
    }
    fn sqrt(self) -> Self {
        F64(self.0.sqrt())
    }
    fn ln(self) -> Self {
        F64(self.0.ln())
    }
    fn exp(self) -> Self {
        F64(self.0.exp())
    }
    fn powf(self, e: Self) -> Self {
        F64(self.0.powf(e.0))
    }
    fn powi(self, e: i32) -> Self {
        F64(self.0.powi(e))
    }
    fn maximum(self, rhs: Self) -> Self {
        F64(self.0.max(rhs.0))
    }
    fn minimum(self, rhs: Self) -> Self {
        F64(self.0.min(rhs.0))
    }
    fn lt(self, rhs: Self) -> bool {
        self.0 < rhs.0
    }
    fn le(self, rhs: Self) -> bool {
        self.0 <= rhs.0
    }
    fn gt(self, rhs: Self) -> bool {
        self.0 > rhs.0
    }
    fn ge(self, rhs: Self) -> bool {
        self.0 >= rhs.0
    }
    fn equals(self, rhs: Self) -> bool {
        self.0 == rhs.0
    }
    fn is_nan(self) -> bool {
        self.0.is_nan()
    }
    fn is_finite(self) -> bool {
        self.0.is_finite()
    }
    fn to_text(self) -> String {
        format!("{}", self.0)
    }
    fn to_debug_text(self) -> String {
        format!("{:?}", self.0)
    }
}

fn flat_data(price: f64, n: usize) -> Data<F64, usize> {
    let index = (0..n).collect();
    Data::new(
        index,
        vec![F64(price); n],
        vec![F64(price); n],
        vec![F64(price); n],
        vec![F64(price); n],
        vec![F64(1000.0); n],
    )
    .unwrap()
}

fn closes(values: &[f64]) -> Data<F64, usize> {
    let n = values.len();
    let col: Vec<F64> = values.iter().map(|v| F64(*v)).collect();
    Data::new((0..n).collect(), col.clone(), col.clone(), col.clone(), col, vec![F64(1.0); n]).unwrap()
}

fn config(cash: f64) -> BrokerConfig<F64, Commission<F64>> {
    BrokerConfig {
        cash: F64(cash),
        ..Default::default()
    }
}

fn trade(id: usize, size: i64, entry: f64, exit: Option<f64>, entry_bar: usize, exit_bar: Option<usize>, commission: f64) -> Trade<F64> {
    Trade {
        id: TradeId(id),
        size,
        entry_price: F64(entry),
        exit_price: exit.map(F64),
        entry_bar,
        exit_bar,
        sl_order: None,
        tp_order: None,
        open_sl: None,
        tag: None,
        commission: F64(commission),
    }
}

fn close_enough(a: f64, b: f64) -> bool {
    (a - b).abs() < 1e-6
}

#[test]
fn canceled_order_without_tp_does_not_open_a_trade() {
    let mut data = flat_data(100.0, 5);
    let config = BrokerConfig {
        cash: F64(100.0),
        margin: F64(1.0),
        ..Default::default()
    };
    let mut broker = Broker::new(config, 5).unwrap();
    data.set_length(2);

    broker
        .new_order(
            &data,
            ResolvedOrderSize::Units(1_000_000),
            None,
            None,
            None,
            None,
            None,
            None,
        )
        .unwrap();

    broker.advance(&data, 1).unwrap();

    assert!(
        broker.trades().is_empty(),
        "an order that failed margin checks must not open a trade"
    );
    assert!(
        !broker.warnings.is_empty(),
        "a margin-rejection warning should have been recorded"
    );
}

#[test]
fn fractional_size_rounds_correctly_at_fp_boundary() {
    let price = 99.999999999999_f64;
    let mut data = flat_data(price, 2);
    let config = BrokerConfig {
        cash: F64(price * 1000.0),
        margin: F64(1.0),
        commission: Commission::relative(F64(0.0)),
        ..Default::default()
    };
    let mut broker = Broker::new(config, 2).unwrap();
    data.set_length(1);

    broker
        .new_order(
            &data,
            ResolvedOrderSize::Fraction(F64(0.999999999)),
            None,
            None,
            None,
            None,
            None,
            None,
        )
        .unwrap();
    broker.advance(&data, 0).unwrap();

    let trades = broker.trades();
    assert_eq!(trades.len(), 1, "expected exactly one trade to open");
    assert!(
        trades[0].size >= 999,
        "unit count should not be truncated by fp rounding noise, got {}",
        trades[0].size
    );
}

#[test]
fn units_size_of_one_resolves_to_units_variant() {
    let resolved = OrderSize::Units(F64(1.0)).to_signed_size(true).unwrap();
    assert_eq!(resolved, ResolvedOrderSize::Units(1));
}

#[test]
fn fraction_just_below_one_resolves_to_fraction_variant() {
    let resolved = OrderSize::Fraction(F64(0.999999999))
        .to_signed_size(true)
        .unwrap();
    match resolved {
        ResolvedOrderSize::Fraction(f) => assert!((f.0 - 0.999999999).abs() < 1e-12),
        ResolvedOrderSize::Units(_) => panic!("expected Fraction variant, got Units"),
    }
}

#[test]
fn all_resolves_to_fraction_variant_not_units() {
    let resolved = OrderSize::<F64>::All.to_signed_size(true).unwrap();
    assert!(matches!(resolved, ResolvedOrderSize::Fraction(_)));
}

#[test]
fn sell_negates_resolved_size() {
    let resolved = OrderSize::Units(F64(5.0)).to_signed_size(false).unwrap();
    assert_eq!(resolved, ResolvedOrderSize::Units(-5));
}

#[test]
fn test_pl_long_trade() {
    let trade = trade(0, 10, 100.0, Some(110.0), 10, Some(15), 10.0);

    assert!(trade.is_long());
    assert!(!trade.is_short());

    // Price change: 10 units * ($110 - $100) = $100 gross gain.
    // Net P/L: $100 gain - $10 commission = $90.0
    assert_eq!(trade.pl(F64(0.0)).0, 90.0);

    // Position value = 10 * 100 = 1000
    // Gross return = (110 / 100) - 1 = +0.10 (+10%)
    // Commission pct = 10 / 1000 = 0.01 (1%)
    // Net return = 0.10 - 0.01 = 0.09 (+9%)
    assert!(close_enough(trade.pl_pct(F64(0.0)).0, 0.09));
}

#[test]
fn test_pl_short_trade() {
    let trade = trade(1, -10, 100.0, Some(90.0), 10, Some(15), 10.0);

    assert!(trade.is_short());

    // Price change: -10 units * ($90 - $100) = $100 gross gain.
    // Net P/L: $100 gain - $10 commission = $90.0
    assert_eq!(trade.pl(F64(0.0)).0, 90.0);

    // Gross return = -1 * (90 / 100 - 1) = +0.10 (+10%)
    // Net return = 0.10 - 0.01 = 0.09 (+9%)
    assert!(close_enough(trade.pl_pct(F64(0.0)).0, 0.09));
}

#[test]
fn open_trade_is_valued_at_the_last_price() {
    let t = trade(2, 4, 50.0, None, 0, None, 0.0);
    assert_eq!(t.pl(F64(60.0)).0, 40.0);
    assert_eq!(t.value(F64(60.0)).0, 240.0);
    let short = trade(3, -4, 50.0, None, 0, None, 0.0);
    assert_eq!(short.value(F64(60.0)).0, 240.0);
    assert_eq!(short.pl(F64(60.0)).0, -40.0);
}

#[test]
fn duplicate_shares_the_tag() {
    let mut t = trade(4, 1, 10.0, None, 0, None, 0.0);
    t.tag = Some(Arc::from("x"));
    let d = t.duplicate();
    assert!(Arc::ptr_eq(t.tag.as_ref().unwrap(), d.tag.as_ref().unwrap()));
    assert_eq!(d.id, t.id);
    assert_eq!(d.size, t.size);
}

#[test]
fn fraction_out_of_range_is_refused() {
    for f in [0.0, 1.0, 1.5, -0.2] {
        let r = OrderSize::Fraction(F64(f)).to_signed_size(true);
        assert!(matches!(r, Err(BacktestError::InvalidParameter(_))), "fraction {f}");
    }
}

#[test]
fn units_that_are_not_whole_or_positive_are_refused() {
    for u in [0.0, 0.5, 2.5, -3.0] {
        let r = OrderSize::Units(F64(u)).to_signed_size(false);
        assert!(matches!(r, Err(BacktestError::InvalidParameter(_))), "units {u}");
    }
}

#[test]
fn sell_negates_a_fraction() {
    match OrderSize::Fraction(F64(0.25)).to_signed_size(false).unwrap() {
        ResolvedOrderSize::Fraction(f) => assert_eq!(f.0, -0.25),
        ResolvedOrderSize::Units(_) => panic!("expected a fraction"),
    }
}

#[test]
fn data_refuses_empty_and_ragged_columns() {
    let empty = Data::<F64, usize>::new(vec![], vec![], vec![], vec![], vec![], vec![]);
    assert!(matches!(empty, Err(BacktestError::InvalidParameter(_))));
    let ragged = Data::new(vec![0usize, 1], vec![F64(1.0)], vec![F64(1.0); 2], vec![F64(1.0); 2], vec![F64(1.0); 2], vec![F64(1.0); 2]);
    assert!(matches!(ragged, Err(BacktestError::InvalidParameter(_))));
}

#[test]
fn data_visible_window_and_at() {
    let mut d = closes(&[1.0, 2.0, 3.0, 4.0]);
    assert_eq!(d.len(), 4);
    assert_eq!(d.full_len(), 4);
    d.set_length(2);
    assert_eq!(d.len(), 2);
    assert_eq!(d.close().len(), 2);
    assert_eq!(d.at(Field::Close, -1), Some(F64(2.0)));
    assert_eq!(d.at(Field::Close, -2), Some(F64(1.0)));
    assert_eq!(d.at(Field::Close, -3), None);
    assert_eq!(d.at(Field::Close, 0), None);
    assert_eq!(d.at(Field::Close, 2), None);
    assert_eq!(d.full_close().len(), 4);
    assert_eq!(d.index(), &[0usize, 1][..]);
}

#[test]
fn order_table_reads_back_what_was_written() {
    let mut t: OrderTable<F64> = OrderTable::with_capacity(2);
    let o = Order {
        id: OrderId(3),
        size: ResolvedOrderSize::Units(2),
        limit: None,
        stop: None,
        sl: None,
        tp: None,
        parent_trade: None,
        tag: None,
    };
    assert!(!t.contains(OrderId(3)));
    t.insert(OrderId(3), o);
    assert!(t.contains(OrderId(3)));
    assert!(!t.contains(OrderId(1)));
    assert_eq!(t.get(OrderId(3)).unwrap().id, OrderId(3));
    t.get_mut(OrderId(3)).unwrap().limit = Some(F64(7.0));
    assert_eq!(t.get(OrderId(3)).unwrap().limit, Some(F64(7.0)));
    let removed = t.remove(OrderId(3)).unwrap();
    assert_eq!(removed.size, ResolvedOrderSize::Units(2));
    assert!(t.get(OrderId(3)).is_none());
    assert!(t.remove(OrderId(3)).is_none());
}

#[test]
fn backfill_uses_the_next_recorded_equity_or_cash() {
    let r = backfill(vec![None, Some(F64(5.0)), None, Some(F64(7.0)), None], F64(9.0));
    let got: Vec<f64> = r.iter().map(|v| v.0).collect();
    assert_eq!(got, vec![5.0, 5.0, 7.0, 7.0, 9.0]);
    assert!(backfill(Vec::<Option<F64>>::new(), F64(1.0)).is_empty());
}

#[test]
fn warmup_start_bar_follows_the_longest_warmup() {
    assert_eq!(warmup_start_bar::<F64>(&[]), 1);
    let a = Indicator::new("a".to_string(), vec![F64(f64::NAN), F64(1.0), F64(2.0)]);
    let b = Indicator::new("b".to_string(), vec![F64(f64::NAN), F64(f64::NAN), F64(2.0)]);
    assert_eq!(a.warmup_bars(), 1);
    assert_eq!(b.warmup_bars(), 2);
    assert_eq!(warmup_start_bar(&[a, b]), 3);
}

#[test]
fn indicator_values_as_of_a_bar() {
    let ind = Indicator::new("x".to_string(), vec![F64(1.0), F64(2.0), F64(3.0)]).plot(false).overlay(true);
    assert!(!ind.plot);
    assert!(ind.overlay);
    assert_eq!(ind.as_of(1), &[F64(1.0), F64(2.0)][..]);
    assert_eq!(ind.as_of(10).len(), 3);
    assert_eq!(ind.value_at(2), F64(3.0));
}

#[test]
fn sma_averages_the_window_after_warmup() {
    let v: Vec<F64> = [1.0, 2.0, 3.0, 4.0, 5.0].iter().map(|x| F64(*x)).collect();
    let s = sma(&v, 3);
    assert_eq!(s.len(), 5);
    assert!(s[0].0.is_nan() && s[1].0.is_nan());
    assert_eq!(s[2].0, 2.0);
    assert_eq!(s[3].0, 3.0);
    assert_eq!(s[4].0, 4.0);
}

#[test]
fn commission_is_fixed_plus_relative_notional() {
    let c = Commission::fixed_and_relative(F64(1.0), F64(0.01));
    assert_eq!(c.compute(F64(-10.0), F64(50.0)).0, 6.0);
    assert_eq!(Commission::relative(F64(0.5)).compute(F64(2.0), F64(3.0)).0, 3.0);
}

#[test]
fn broker_refuses_bad_cash_and_margin() {
    assert!(matches!(Broker::new(config(0.0), 3), Err(BacktestError::InvalidParameter(_))));
    let bad_margin = BrokerConfig { cash: F64(10.0), margin: F64(1.5), ..Default::default() };
    assert!(matches!(Broker::new(bad_margin, 3), Err(BacktestError::InvalidParameter(_))));
    let zero_margin = BrokerConfig { cash: F64(10.0), margin: F64(0.0), ..Default::default() };
    assert!(matches!(Broker::new(zero_margin, 3), Err(BacktestError::InvalidParameter(_))));
}

#[test]
fn zero_size_order_is_refused_and_changes_nothing() {
    let mut data = flat_data(10.0, 3);
    data.set_length(1);
    let mut broker = Broker::new(config(1000.0), 3).unwrap();
    let r = broker.new_order(&data, ResolvedOrderSize::Units(0), None, None, None, None, None, None);
    assert!(matches!(r, Err(BacktestError::InvalidOrder(_))));
    assert!(broker.orders().is_empty());
}

#[test]
fn long_order_with_sl_above_price_is_refused() {
    let mut data = flat_data(10.0, 3);
    data.set_length(1);
    let mut broker = Broker::new(config(1000.0), 3).unwrap();
    let r = broker.new_order(&data, ResolvedOrderSize::Units(1), None, None, Some(F64(11.0)), Some(F64(12.0)), None, None);
    assert!(matches!(r, Err(BacktestError::InvalidOrder(_))));
    assert!(broker.orders().is_empty());
    let ok = broker.new_order(&data, ResolvedOrderSize::Units(1), None, None, Some(F64(9.0)), Some(F64(12.0)), None, None);
    assert_eq!(ok.unwrap(), OrderId(0));
    assert_eq!(broker.orders().len(), 1);
}

#[test]
fn closing_an_unknown_trade_is_refused() {
    let mut broker = Broker::new(config(1000.0), 3).unwrap();
    assert!(matches!(broker.request_trade_close(TradeId(7), F64(1.0)), Err(BacktestError::Other(_))));
    assert!(matches!(broker.request_trade_close(TradeId(0), F64(1.5)), Err(BacktestError::InvalidParameter(_))));
}

#[test]
fn market_order_fills_at_the_open_and_closes_in_full() {
    let mut data = closes(&[10.0, 12.0, 15.0]);
    let mut broker = Broker::new(BrokerConfig { cash: F64(1000.0), trade_on_close: false, ..Default::default() }, 3).unwrap();
    data.set_length(1);
    broker.advance(&data, 0).unwrap();
    let id = broker.new_order(&data, ResolvedOrderSize::Units(3), None, None, None, None, None, None).unwrap();
    assert_eq!(id, OrderId(0));
    data.set_length(2);
    broker.advance(&data, 1).unwrap();
    let open = broker.trades();
    assert_eq!(open.len(), 1);
    assert_eq!(open[0].size, 3);
    assert_eq!(open[0].entry_price, F64(12.0));
    assert_eq!(open[0].entry_bar, 1);
    assert!(broker.orders().is_empty());
    // the closing order takes the other sign
    let close_id = broker.request_trade_close(open[0].id, F64(1.0)).unwrap();
    let pending = broker.orders();
    assert_eq!(pending.len(), 1);
    assert_eq!(pending[0].id, close_id);
    assert_eq!(pending[0].size, ResolvedOrderSize::Units(-3));
    assert_eq!(pending[0].parent_trade, Some(open[0].id));
    data.set_length(3);
    broker.advance(&data, 2).unwrap();
    assert!(broker.trades().is_empty());
    let closed = broker.closed_trades();
    assert_eq!(closed.len(), 1);
    assert_eq!(closed[0].exit_price, Some(F64(15.0)));
    assert_eq!(closed[0].exit_bar, Some(2));
    assert_eq!(broker.cash(), F64(1009.0));
    let curve: Vec<Option<F64>> = broker.equity_curve().to_vec();
    assert_eq!(curve, vec![Some(F64(1000.0)), Some(F64(1000.0)), Some(F64(1009.0))]);
}

#[test]
fn canceling_an_order_removes_it_from_the_queue() {
    let mut data = flat_data(10.0, 3);
    data.set_length(1);
    let mut broker = Broker::new(config(1000.0), 3).unwrap();
    let a = broker.new_order(&data, ResolvedOrderSize::Units(1), Some(F64(5.0)), None, None, None, None, None).unwrap();
    let b = broker.new_order(&data, ResolvedOrderSize::Units(2), Some(F64(5.0)), None, None, None, None, None).unwrap();
    broker.cancel_order(a);
    let left = broker.orders();
    assert_eq!(left.len(), 1);
    assert_eq!(left[0].id, b);
    broker.cancel_order(a);
    assert_eq!(broker.orders().len(), 1);
}

#[test]
fn partial_close_keeps_the_remainder_open() {
    let mut data = closes(&[10.0, 10.0, 10.0, 10.0]);
    let mut broker = Broker::new(BrokerConfig { cash: F64(1000.0), trade_on_close: false, ..Default::default() }, 4).unwrap();
    data.set_length(1);
    broker.advance(&data, 0).unwrap();
    broker.new_order(&data, ResolvedOrderSize::Units(10), None, None, None, None, None, None).unwrap();
    data.set_length(2);
    broker.advance(&data, 1).unwrap();
    let t = broker.trades()[0].id;
    broker.request_trade_close(t, F64(0.3)).unwrap();
    data.set_length(3);
    broker.advance(&data, 2).unwrap();
    let open = broker.trades();
    let closed = broker.closed_trades();
    assert_eq!(open.len(), 1);
    assert_eq!(closed.len(), 1);
    assert_eq!(closed[0].size + open[0].size, 10);
    assert_eq!(closed[0].size, 3);
}

#[test]
fn running_out_of_money_closes_everything() {
    let mut data = closes(&[10.0, 10.0, 0.0, 5.0]);
    let mut broker = Broker::new(BrokerConfig { cash: F64(100.0), trade_on_close: false, ..Default::default() }, 4).unwrap();
    data.set_length(1);
    broker.advance(&data, 0).unwrap();
    broker.new_order(&data, ResolvedOrderSize::Units(10), None, None, None, None, None, None).unwrap();
    data.set_length(2);
    broker.advance(&data, 1).unwrap();
    assert_eq!(broker.trades().len(), 1);
    data.set_length(3);
    let r = broker.advance(&data, 2);
    assert!(matches!(r, Err(BacktestError::OutOfMoney)));
    assert!(broker.trades().is_empty());
    let curve = broker.equity_curve();
    assert_eq!(curve[2], Some(broker.cash()));
    assert_eq!(curve[3], Some(broker.cash()));
}

#[test]
fn take_warnings_moves_them_out() {
    let mut data = flat_data(100.0, 3);
    let mut broker = Broker::new(config(100.0), 3).unwrap();
    data.set_length(2);
    broker.new_order(&data, ResolvedOrderSize::Units(1_000), None, None, None, None, None, None).unwrap();
    broker.advance(&data, 1).unwrap();
    let w = broker.take_warnings();
    assert_eq!(w.len(), 1);
    assert!(matches!(w[0], Warning::OrderCanceled { bar: 1, .. }));
    assert!(broker.take_warnings().is_empty());
}

#[test]
fn error_messages_name_the_kind() {
    assert_eq!(BacktestError::OutOfMoney.message(), "account ran out of money");
    assert_eq!(BacktestError::InvalidOrder("x".to_string()).message(), "invalid order: x");
    assert_eq!(BacktestError::InvalidParameter("y".to_string()).message(), "invalid paramter: y");
    assert_eq!(BacktestError::UnknownStrategyParameter("z".to_string()).message(), "invalid strategy paramter: z");
    assert_eq!(BacktestError::IndicatorError("w".to_string()).message(), "indicator error: w");
    assert_eq!(BacktestError::Other("v".to_string()).message(), "v");
}

#[test]
fn stats_count_trades_and_bars() {
    let equity: Vec<F64> = [100.0, 110.0, 99.0, 121.0].iter().map(|x| F64(*x)).collect();
    let trades = vec![
        trade(0, 1, 100.0, Some(110.0), 0, Some(1), 0.0),
        trade(1, 1, 110.0, Some(100.0), 1, Some(3), 0.0),
    ];
    let close: Vec<F64> = [100.0, 105.0, 102.0, 110.0].iter().map(|x| F64(*x)).collect();
    let s = compute_stats(&equity, &trades, &close, 0, F64(252.0));
    assert_eq!(s.start_bar, 0);
    assert_eq!(s.end_bar, 3);
    assert_eq!(s.duration_bars, 3);
    assert_eq!(s.num_trades, 2);
    assert_eq!(s.max_trade_duration_bars, 2);
    assert!(close_enough(s.equity_final.0, 121.0));
    assert!(close_enough(s.equity_peak.0, 121.0));
    assert!(close_enough(s.return_pct.0, 21.0));
    assert!(close_enough(s.buy_and_hold_return_pct.0, 10.0));
    assert!(close_enough(s.win_rate_pct.0, 50.0));
    assert!(close_enough(s.max_drawdown_pct.0, 10.0));
    assert_eq!(s.max_drawdown_duration_bars, 1);
    assert!(close_enough(s.exposure_time_pct.0, 100.0));
}

fn empty_run(score: usize) -> RunResult<F64, usize> {
    let stats = compute_stats(&[F64(1.0)], &[], &[F64(1.0)], 0, F64(252.0));
    RunResult { strategy: score, stats, closed_trades: vec![], equity_curve: vec![], warnings: vec![] }
}

#[test]
fn best_run_takes_the_first_highest_score() {
    let runs = vec![empty_run(0), empty_run(1), empty_run(2)];
    let (i, r) = best_run(runs, &[F64(1.0), F64(3.0), F64(3.0)]).unwrap();
    assert_eq!(i, 1);
    assert_eq!(r.strategy, 1);
    assert!(matches!(best_run::<F64, usize>(vec![], &[]), Err(BacktestError::InvalidParameter(_))));
}

#[test]
fn sma_cross_buys_on_the_crossing_and_finalizes() {
    // Falls, then rises: the fast average crosses above the slow one once.
    let data = closes(&[10.0, 9.0, 8.0, 7.0, 6.0, 7.0, 9.0, 12.0, 15.0, 18.0, 20.0]);
    let bt = Backtest::new(data, BrokerConfig { cash: F64(10_000.0), commission: Commission::relative(F64(0.0)), ..Default::default() });
    let r = bt.run(SmaCross::new(2, 4)).unwrap();
    assert_eq!(r.stats.start_bar, 4);
    assert_eq!(r.equity_curve.len(), 11);
    assert_eq!(r.closed_trades.len(), 1);
    assert!(r.closed_trades[0].is_long());
    assert_eq!(r.stats.num_trades, 1);
    assert!(r.equity_curve[10].0 > 10_000.0);
    // the bars before the first simulated one carry its equity
    for j in 0..4 {
        assert_eq!(r.equity_curve[j], r.equity_curve[4]);
    }
    assert!(r.closed_trades.iter().all(|t| t.exit_price.is_some() && t.exit_bar.is_some()));
}

#[test]
fn finalize_off_leaves_the_trade_open() {
    let data = closes(&[10.0, 9.0, 8.0, 7.0, 6.0, 7.0, 9.0, 12.0, 15.0, 18.0, 20.0]);
    let bt = Backtest::new(data, config(10_000.0)).finalize_trades(false).periods_per_year(F64(365.0));
    let r = bt.run(SmaCross::new(2, 4)).unwrap();
    assert!(r.closed_trades.is_empty());
    assert_eq!(r.stats.num_trades, 0);
}

#[test]
fn run_refuses_a_non_positive_cash() {
    let data = closes(&[1.0, 2.0]);
    let bt = Backtest::new(data, config(-5.0));
    assert!(matches!(bt.run(SmaCross::new(1, 2)), Err(BacktestError::InvalidParameter(_))));
}

#[test]
fn random_walk_chains_each_open_to_the_previous_close() {
    let draw = |shock: f64, up: f64, down: f64, volume: f64| Draw {
        shock: F64(shock),
        high_up: F64(up),
        low_down: F64(down),
        volume: F64(volume),
    };
    let draws = vec![draw(0.01, 0.0, 0.0, 5.0), draw(-0.5, 0.1, 0.1, 6.0)];
    let d = random_walk(vec![0usize, 1], &draws, F64(100.0), F64(0.0), F64(60.0)).unwrap();
    assert_eq!(d.full_len(), 2);
    assert_eq!(d.open()[0], F64(100.0));
    assert!(close_enough(d.close()[0].0, 101.0));
    assert_eq!(d.open()[1], d.close()[0]);
    // the fall to about 50.5 stops at the floor
    assert_eq!(d.close()[1], F64(60.0));
    assert!(close_enough(d.high()[1].0, d.open()[1].0 * 1.1));
    assert!(close_enough(d.low()[1].0, 60.0 * 0.9));
    assert_eq!(d.volume(), &[F64(5.0), F64(6.0)][..]);
    let short = random_walk(vec![0usize], &draws, F64(1.0), F64(0.0), F64(0.5));
    assert!(matches!(short, Err(BacktestError::InvalidParameter(_))));
    let none = random_walk(Vec::<usize>::new(), &[], F64(1.0), F64(0.0), F64(0.5));
    assert!(matches!(none, Err(BacktestError::InvalidParameter(_))));
}

#[test]
fn canceling_the_order_just_placed_restores_the_queue() {
    let mut data = flat_data(10.0, 3);
    data.set_length(1);
    let mut broker = Broker::new(config(1000.0), 3).unwrap();
    broker.new_order(&data, ResolvedOrderSize::Units(1), Some(F64(5.0)), None, None, None, None, None).unwrap();
    let before: Vec<OrderId> = broker.orders().iter().map(|o| o.id).collect();
    let id = broker.new_order(&data, ResolvedOrderSize::Units(2), Some(F64(4.0)), None, None, None, None, None).unwrap();
    assert_eq!(id, OrderId(1));
    broker.cancel_order(id);
    let after: Vec<OrderId> = broker.orders().iter().map(|o| o.id).collect();
    assert_eq!(before, after);
}

#[test]
fn each_trade_is_open_or_closed_once() {
    let mut data = closes(&[10.0, 10.0, 10.0, 10.0]);
    let mut broker = Broker::new(BrokerConfig { cash: F64(1000.0), trade_on_close: false, ..Default::default() }, 4).unwrap();
    data.set_length(1);
    broker.advance(&data, 0).unwrap();
    broker.new_order(&data, ResolvedOrderSize::Units(10), None, None, None, None, None, None).unwrap();
    data.set_length(2);
    broker.advance(&data, 1).unwrap();
    let t = broker.trades()[0].id;
    broker.request_trade_close(t, F64(0.5)).unwrap();
    data.set_length(3);
    broker.advance(&data, 2).unwrap();
    let open: Vec<TradeId> = broker.trades().iter().map(|t| t.id).collect();
    let closed: Vec<TradeId> = broker.closed_trades().iter().map(|t| t.id).collect();
    assert_eq!(open, vec![TradeId(0)]);
    assert_eq!(closed, vec![TradeId(1)]);
    assert!(broker.trades().iter().all(|t| t.exit_price.is_none()));
    assert!(broker.closed_trades().iter().all(|t| t.exit_price.is_some() && t.exit_bar == Some(2)));
}

#[test]
fn exclusive_order_queues_the_close_of_every_open_trade() {
    let mut data = closes(&[10.0, 10.0, 10.0, 10.0]);
    let mut broker = Broker::new(BrokerConfig { cash: F64(1000.0), trade_on_close: false, exclusive_orders: true, ..Default::default() }, 4).unwrap();
    data.set_length(1);
    broker.advance(&data, 0).unwrap();
    broker.new_order(&data, ResolvedOrderSize::Units(3), None, None, None, None, None, None).unwrap();
    data.set_length(2);
    broker.advance(&data, 1).unwrap();
    assert_eq!(broker.trades().len(), 1);
    let pending_limit = broker.new_order(&data, ResolvedOrderSize::Units(1), Some(F64(1.0)), None, None, None, None, None).unwrap();
    let id = broker.new_order(&data, ResolvedOrderSize::Units(-2), None, None, None, None, None, None).unwrap();
    let orders = broker.orders();
    assert!(orders.iter().all(|o| o.id != pending_limit));
    assert_eq!(orders.last().unwrap().id, id);
    assert!(orders.iter().any(|o| o.parent_trade == Some(TradeId(0)) && o.size == ResolvedOrderSize::Units(-3)));
}

#[test]
fn removing_a_missing_stop_loss_succeeds() {
    let mut data = closes(&[10.0, 10.0, 10.0]);
    let mut broker = Broker::new(BrokerConfig { cash: F64(1000.0), trade_on_close: false, ..Default::default() }, 3).unwrap();
    data.set_length(1);
    broker.advance(&data, 0).unwrap();
    broker.new_order(&data, ResolvedOrderSize::Units(2), None, None, None, None, None, None).unwrap();
    data.set_length(2);
    broker.advance(&data, 1).unwrap();
    let t = broker.trades()[0].id;
    assert!(broker.set_trade_sl(&data, t, None).is_ok());
    assert!(broker.set_trade_tp(&data, t, None).is_ok());
    assert!(broker.trades()[0].sl_order.is_none());
    assert!(broker.set_trade_sl(&data, TradeId(9), None).is_err());
}

#[test]
fn a_pending_market_order_does_not_outlive_the_next_bar() {
    let mut data = closes(&[10.0, 10.0, 10.0]);
    // far too little cash: the order is canceled, not kept
    let mut broker = Broker::new(BrokerConfig { cash: F64(5.0), trade_on_close: false, ..Default::default() }, 3).unwrap();
    data.set_length(1);
    broker.advance(&data, 0).unwrap();
    let id = broker.new_order(&data, ResolvedOrderSize::Units(100), None, None, None, None, None, None).unwrap();
    assert_eq!(broker.orders().len(), 1);
    data.set_length(2);
    broker.advance(&data, 1).unwrap();
    assert!(broker.orders().iter().all(|o| o.id != id));
    assert!(broker.trades().is_empty());
}

#[test]
fn an_equity_that_is_not_a_number_is_left_unrecorded() {
    let mut data = closes(&[10.0, 10.0, f64::NAN, 10.0]);
    let mut broker = Broker::new(BrokerConfig { cash: F64(1000.0), trade_on_close: false, ..Default::default() }, 4).unwrap();
    data.set_length(1);
    broker.advance(&data, 0).unwrap();
    broker.new_order(&data, ResolvedOrderSize::Units(10), None, None, None, None, None, None).unwrap();
    data.set_length(2);
    broker.advance(&data, 1).unwrap();
    assert_eq!(broker.trades().len(), 1);
    data.set_length(3);
    assert!(broker.advance(&data, 2).is_ok());
    assert!(broker.equity_curve()[1].is_some());
    assert_eq!(broker.equity_curve()[2], None);
    data.set_length(4);
    broker.advance(&data, 3).unwrap();
    let curve = broker.equity_curve().to_vec();
    let filled = backfill(curve.clone(), F64(0.0));
    assert_eq!(Some(filled[2]), curve[3]);
}

#[test]
fn a_request_to_close_a_trade_closes_it_on_the_next_bar() {
    let mut data = closes(&[10.0, 10.0, 10.0, 10.0]);
    let mut broker = Broker::new(BrokerConfig { cash: F64(1000.0), trade_on_close: false, ..Default::default() }, 4).unwrap();
    data.set_length(1);
    broker.advance(&data, 0).unwrap();
    broker.new_order(&data, ResolvedOrderSize::Units(7), None, None, None, None, None, None).unwrap();
    data.set_length(2);
    broker.advance(&data, 1).unwrap();
    let t = broker.trades()[0].id;
    let id = broker.request_trade_close(t, F64(1.0)).unwrap();
    let request = broker.orders().into_iter().find(|o| o.id == id).unwrap();
    assert_eq!(request.size, ResolvedOrderSize::Units(-7));
    assert_eq!(request.parent_trade, Some(t));
    data.set_length(3);
    broker.advance(&data, 2).unwrap();
    assert!(broker.trades().is_empty());
    assert!(broker.orders().iter().all(|o| o.id != id));
    assert_eq!(broker.closed_trades().len(), 1);
    assert_eq!(broker.closed_trades()[0].id, t);
}

#[test]
fn an_exclusive_order_keeps_the_stop_loss_of_an_open_trade() {
    let mut data = closes(&[10.0, 10.0, 10.0, 10.0]);
    let mut broker = Broker::new(BrokerConfig { cash: F64(1000.0), trade_on_close: false, exclusive_orders: true, ..Default::default() }, 4).unwrap();
    data.set_length(1);
    broker.advance(&data, 0).unwrap();
    broker.new_order(&data, ResolvedOrderSize::Units(3), None, None, None, None, None, None).unwrap();
    data.set_length(2);
    broker.advance(&data, 1).unwrap();
    let t = broker.trades()[0].id;
    broker.set_trade_sl(&data, t, Some(F64(5.0))).unwrap();
    let sl = broker.trades()[0].sl_order.unwrap();
    let id = broker.new_order(&data, ResolvedOrderSize::Units(2), None, None, None, None, None, None).unwrap();
    let orders = broker.orders();
    assert!(orders.iter().any(|o| o.id == sl && o.stop == Some(F64(5.0))));
    assert_eq!(orders.last().unwrap().id, id);
    assert!(orders.iter().any(|o| o.parent_trade == Some(t) && o.stop.is_none() && o.size == ResolvedOrderSize::Units(-3)));
    assert_eq!(broker.trades().len(), 1);
}

#[test]
fn an_opposite_order_closes_the_oldest_trades_first() {
    let mut data = closes(&[10.0, 10.0, 10.0, 10.0, 10.0]);
    let mut broker = Broker::new(BrokerConfig { cash: F64(1000.0), trade_on_close: false, ..Default::default() }, 5).unwrap();
    data.set_length(1);
    broker.advance(&data, 0).unwrap();
    broker.new_order(&data, ResolvedOrderSize::Units(3), None, None, None, None, None, None).unwrap();
    data.set_length(2);
    broker.advance(&data, 1).unwrap();
    broker.new_order(&data, ResolvedOrderSize::Units(4), None, None, None, None, None, None).unwrap();
    data.set_length(3);
    broker.advance(&data, 2).unwrap();
    let first = broker.trades()[0].id;
    let second = broker.trades()[1].id;
    broker.new_order(&data, ResolvedOrderSize::Units(-5), None, None, None, None, None, None).unwrap();
    data.set_length(4);
    broker.advance(&data, 3).unwrap();
    let open = broker.trades();
    assert_eq!(open.len(), 1);
    assert_eq!(open[0].id, second);
    assert_eq!(open[0].size, 2);
    assert!(open.iter().all(|t| t.size > 0));
    let closed = broker.closed_trades();
    assert_eq!(closed[0].id, first);
    assert_eq!(closed[0].size, 3);
    assert_eq!(closed.iter().map(|t| t.size).sum::<i64>(), 5);
}

#[test]
fn a_stop_loss_stays_until_its_trade_closes() {
    let mut data = closes(&[10.0, 10.0, 10.0, 10.0, 10.0]);
    let mut broker = Broker::new(BrokerConfig { cash: F64(1000.0), trade_on_close: false, ..Default::default() }, 5).unwrap();
    data.set_length(1);
    broker.advance(&data, 0).unwrap();
    broker.new_order(&data, ResolvedOrderSize::Units(5), None, None, None, None, None, None).unwrap();
    data.set_length(2);
    broker.advance(&data, 1).unwrap();
    let t = broker.trades()[0].id;
    broker.set_trade_sl(&data, t, Some(F64(5.0))).unwrap();
    let sl = broker.trades()[0].sl_order.unwrap();
    data.set_length(3);
    broker.advance(&data, 2).unwrap();
    assert!(broker.orders().iter().any(|o| o.id == sl));
    assert_eq!(broker.trades().len(), 1);
    broker.request_trade_close(t, F64(1.0)).unwrap();
    data.set_length(4);
    broker.advance(&data, 3).unwrap();
    assert!(broker.trades().is_empty());
    assert!(broker.orders().iter().all(|o| o.id != sl));
}

#[test]
fn a_refused_bracket_names_the_prices_as_debug_text() {
    let mut data = flat_data(10.0, 3);
    data.set_length(1);
    let mut broker = Broker::new(config(1000.0), 3).unwrap();
    let r = broker.new_order(&data, ResolvedOrderSize::Units(1), None, None, Some(F64(11.0)), None, None, None);
    match r {
        Err(BacktestError::InvalidOrder(m)) => {
            assert_eq!(m, "Long orders require: SL (Some(11.0)) < LIMIT (10) < TP (None)");
        }
        _ => panic!("expected an invalid order"),
    }
}

#[test]
fn market_orders_fill_at_the_previous_bar_when_trading_on_the_close() {
    let mut data = closes(&[10.0, 10.0, 10.0, 10.0]);
    let mut broker = Broker::new(BrokerConfig { cash: F64(1000.0), trade_on_close: true, ..Default::default() }, 4).unwrap();
    data.set_length(1);
    broker.advance(&data, 0).unwrap();
    broker.new_order(&data, ResolvedOrderSize::Units(3), None, None, None, None, None, None).unwrap();
    data.set_length(2);
    broker.advance(&data, 1).unwrap();
    assert_eq!(broker.trades()[0].entry_bar, 0);
    let t = broker.trades()[0].id;
    broker.request_trade_close(t, F64(1.0)).unwrap();
    data.set_length(3);
    broker.advance(&data, 2).unwrap();
    assert_eq!(broker.closed_trades()[0].exit_bar, Some(1));
}

#[test]
fn market_orders_fill_at_the_current_bar_otherwise() {
    let mut data = closes(&[10.0, 10.0, 10.0, 10.0]);
    let mut broker = Broker::new(BrokerConfig { cash: F64(1000.0), trade_on_close: false, ..Default::default() }, 4).unwrap();
    data.set_length(1);
    broker.advance(&data, 0).unwrap();
    broker.new_order(&data, ResolvedOrderSize::Units(3), Some(F64(20.0)), None, None, None, Some(Arc::from("x")), None).unwrap();
    data.set_length(2);
    broker.advance(&data, 1).unwrap();
    let t = &broker.trades()[0];
    assert_eq!(t.entry_bar, 1);
    assert_eq!(t.tag.as_deref(), Some("x"));
}

#[test]
fn closing_orders_for_a_closed_trade_are_accepted_and_dropped() {
    let mut data = closes(&[10.0, 10.0, 10.0, 10.0, 10.0]);
    let mut broker = Broker::new(BrokerConfig { cash: F64(1000.0), trade_on_close: false, ..Default::default() }, 5).unwrap();
    data.set_length(1);
    broker.advance(&data, 0).unwrap();
    broker.new_order(&data, ResolvedOrderSize::Units(2), None, None, None, None, None, None).unwrap();
    data.set_length(2);
    broker.advance(&data, 1).unwrap();
    let t = broker.trades()[0].id;
    let zero = broker.new_order(&data, ResolvedOrderSize::Units(0), None, None, None, None, None, Some(t));
    assert!(matches!(zero, Err(BacktestError::InvalidOrder(_))));
    broker.request_trade_close(t, F64(1.0)).unwrap();
    data.set_length(3);
    broker.advance(&data, 2).unwrap();
    assert!(broker.trades().is_empty());
    let id = broker.new_order(&data, ResolvedOrderSize::Units(2), None, None, None, None, None, Some(t)).unwrap();
    assert!(broker.orders().iter().any(|o| o.id == id));
    data.set_length(4);
    broker.advance(&data, 3).unwrap();
    assert!(broker.orders().iter().all(|o| o.id != id));
    assert!(broker.trades().is_empty());
    assert_eq!(broker.closed_trades().len(), 1);
}

#[test]
fn recorded_warnings_are_those_taken_out() {
    let mut data = flat_data(100.0, 5);
    let config = BrokerConfig { cash: F64(100.0), margin: F64(1.0), ..Default::default() };
    let mut broker = Broker::new(config, 5).unwrap();
    data.set_length(2);
    broker.new_order(&data, ResolvedOrderSize::Units(1_000_000), None, None, None, None, None, None).unwrap();
    broker.advance(&data, 1).unwrap();
    let seen = broker.recorded_warnings().len();
    assert!(seen > 0);
    assert_eq!(broker.take_warnings().len(), seen);
    assert!(broker.recorded_warnings().is_empty());
}
