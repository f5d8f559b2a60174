//! Per-year inflation series with extremal queries and compounded projections.
//!
//! Rates are fixed-point integers in millionths (`28_000` stands for 2.8 %),
//! and money is an integer amount of whatever smallest unit the caller picks.
pub mod comparison;
pub mod laws;
pub mod series;
pub mod tracker;
