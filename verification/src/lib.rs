//! Vertex matching engine: price-time priority order books, user balances
//! with order locks, trade settlement and snowflake identifiers.

pub mod book_model;
pub mod engine;
pub mod grpc;
pub mod level_info;
pub mod order;
pub mod order_modify;
pub mod orderbook;
pub mod proto;
pub mod redis;
pub mod snowflake_id;
pub mod trade;
pub mod trading_pair;
pub mod types;
pub mod user;
pub mod wal;
