//! Requests over HTTP: budgets, retries, proxies.

pub mod client;
pub mod limiter;
pub mod proxy_manager;
pub mod proxy_usage_tracker;

pub use client::RestClient;
pub use proxy_manager::ProxyManager;
pub use proxy_usage_tracker::{ProxyUsageRecord, ProxyUsageTracker};
