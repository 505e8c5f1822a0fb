//! Event-driven backtesting of Kalshi YES/NO prediction-market contracts:
//! an L2 order book, a merged market-event stream, maker-only execution
//! simulation with latency, and market-making strategies.

pub mod kalshi_types;
pub mod kalshi_l2_book;
pub mod kalshi_strategy;
pub mod kalshi_exec_sim;
pub mod kalshi_event_stream;
pub mod kalshi_backtest;
pub mod kalshi_viz;
pub mod kalshi_csv_io;
pub mod kalshi_files;
pub mod kalshi_json;
pub mod kalshi_feed;
pub mod kalshi_markets;


pub use kalshi_backtest::KalshiBacktest;
pub use kalshi_types::{SimConfig, Side};
