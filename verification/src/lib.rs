//! Aggregation of order books from two exchanges into one top-N summary.
pub mod decimal;
pub mod data_types;
pub mod data_tunnel;
pub mod book_worker;
pub mod merge_laws;
pub mod json;
pub mod book_json;
pub mod binance;
pub mod bitstamp;
pub mod data_handler;
pub mod feed;
pub mod summary_manager;
pub mod bookworker;
pub mod databus;
pub mod price_level;
pub mod reader_laws;
pub mod ladder_tail;
mod text_shift;
mod text_prefix;
