//! Measuring tools for two perpetual-futures venues, Lighter and Hyperliquid: order book
//! reconstruction, feed statistics and the replay of recorded order books.

pub mod double;
pub mod rounding;
pub mod arithmetic;
pub mod exact;
pub mod text;
pub mod json;
pub mod args;
pub mod recordings;
pub mod tick;
pub mod lighter_book;
pub mod lighter;
pub mod rebuilding;
pub mod hyperliquid;
pub mod snapshots;
pub mod ws_recorder;
pub mod operating;
pub mod sorting;
pub mod percentile;
pub mod feed_analyzer;
pub mod histories;
pub mod feeds;
pub mod measures;
pub mod spread_replay;
pub mod trades;
pub mod depth;
pub mod rounded;
pub mod arbitrage;
pub mod evaluations;
pub mod arguments;
pub mod replaying;
pub mod reporting;
