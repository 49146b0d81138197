//! The exchange's REST and websocket interfaces.
pub mod rest;
pub mod signing;
pub mod websocket;
