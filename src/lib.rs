//! Decoder for the one-line telemetry reports of a Jetson board's `tegrastats`
//! tool, and the store that keeps the last report that decoded.

pub mod lexeme;
pub mod snapshot;
pub mod parser;
pub mod app;
