use vstd::prelude::*;

verus! {

/// Everything that can go wrong in a backtest.
#[non_exhaustive]
#[derive(Debug)]
pub enum BacktestError {
    /// The account ran out of money.
    OutOfMoney,
    /// An order that cannot be placed.
    InvalidOrder(String),
    /// A parameter outside its range.
    InvalidParameter(String),
    /// A strategy parameter that the strategy does not know.
    UnknownStrategyParameter(String),
    /// An indicator that cannot be computed.
    IndicatorError(String),
    /// Anything else, such as an unknown trade id.
    Other(String),
}

impl BacktestError {
    /// The message that describes the error.
    pub fn message(&self) -> (r: String)
        ensures
            r@ == match self {
                BacktestError::OutOfMoney => "account ran out of money"@,
                BacktestError::InvalidOrder(m) => "invalid order: "@ + m@,
                BacktestError::InvalidParameter(m) => "invalid paramter: "@ + m@,
                BacktestError::UnknownStrategyParameter(m) => "invalid strategy paramter: "@ + m@,
                BacktestError::IndicatorError(m) => "indicator error: "@ + m@,
                BacktestError::Other(m) => m@,
            },
    {
        match self {
            BacktestError::OutOfMoney => "account ran out of money".to_owned(),
            BacktestError::InvalidOrder(m) => "invalid order: ".to_owned().concat(m.as_str()),
            BacktestError::InvalidParameter(m) => "invalid paramter: ".to_owned().concat(m.as_str()),
            BacktestError::UnknownStrategyParameter(m) => "invalid strategy paramter: ".to_owned().concat(m.as_str()),
            BacktestError::IndicatorError(m) => "indicator error: ".to_owned().concat(m.as_str()),
            BacktestError::Other(m) => m.clone(),
        }
    }
}

pub type BtResult<T> = Result<T, BacktestError>;

} // verus!
