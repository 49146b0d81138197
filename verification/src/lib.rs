//! Verified core of a grid-trading bot for the Backpack exchange: fixed-point
//! decimal amounts, the grid strategy's decisions, order bookkeeping, risk
//! control, request signing and the websocket session's decisions.

pub mod decimal;
pub mod text;
pub mod config;
pub mod api;
pub mod order_manager;
pub mod risk_manager;
pub mod strategy;
