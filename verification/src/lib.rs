pub mod backtest;
pub mod broker;
pub mod commission;
pub mod data;
pub mod error;
pub mod indicator;
pub mod order;
pub mod position;
pub mod scalar;
pub mod sma;
pub mod stats;
pub mod strategy;
pub mod synthetic;
pub mod trade;

pub use backtest::{backfill, best_run, Backtest, RunResult};
pub use broker::{Broker, BrokerConfig, Warning};
pub use commission::{Commission, CommissionModel};
pub use data::{Data, Field};
pub use error::{BacktestError, BtResult};
pub use indicator::{warmup_start_bar, Indicator};
pub use order::{Order, OrderId, OrderTable, TradeId};
pub use position::Position;
pub use scalar::Scalar;
pub use sma::{sma, SmaCross};
pub use stats::{compute_stats, Stats};
pub use strategy::{Context, OrderSize, Strategy};
pub use synthetic::{random_walk, Draw};
pub use trade::Trade;
