//! Windowed average prices of a trading symbol, computed from raw trade
//! records with exact decimal arithmetic.

pub mod binance_api;
pub mod decimal;
pub mod digits;
pub mod json;
pub mod provider;
pub mod time_window;
pub mod tokens;
