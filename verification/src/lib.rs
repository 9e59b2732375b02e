//! Crafting arbitrage: which items can be crafted for less than they sell for on
//! the trading post, and what has to be bought for them.
//!
//! Nothing here reads a file or a socket. The caller fetches and stores; the
//! library says what to ask for, what a reply means, what comes next, and what
//! to show.

pub mod analysis;
pub mod api;
pub mod cache;
pub mod calendar;
pub mod columns;
pub mod config;
pub mod crafting;
pub mod favorites;
pub mod icons;
pub mod item;
pub mod listings;
pub mod money;
pub mod order;
pub mod prefs;
pub mod profit;
pub mod recipe;
pub mod report;
pub mod request;
pub mod session;
pub mod simulation;
pub mod summary;
pub mod table;
pub mod text;
pub mod velocity;
