//! What is collected: order books, polled data, the set of symbols.

pub mod attach;
pub mod book;
pub mod orderbook_manager;
pub mod rest_collector;
pub mod startup;
pub mod symbol_discovery;

pub use orderbook_manager::OrderbookManager;
pub use rest_collector::RestCollector;
pub use symbol_discovery::{SymbolDiscovery, SymbolSetTracker};
