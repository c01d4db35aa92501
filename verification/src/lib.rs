//! Market-data collection rules for the Binance USDT-margined futures feed.
//!
//! The crate holds everything of the collector that decides or computes: order
//! books and how they attach to a stream, request pacing, symbol discovery, CSV
//! rows and files, counters. Sockets, files and clocks stay with the caller,
//! which hands in plain values: times as integers, prices and quantities either
//! as the text that came over the wire or as the bit pattern of the number.

pub mod collectors;
pub mod config;
pub mod constants;
pub mod models;
pub mod rest;
pub mod sorting;
pub mod symbol_maps;
pub mod text;
pub mod text_set;
pub mod utils;
pub mod websocket;

pub use config::Config;
