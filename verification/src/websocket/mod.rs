//! Streams: connections, buffers, and what becomes of each message.

pub mod connection_manager;
pub mod message_handler;

pub use connection_manager::WebSocketManager;
pub use message_handler::{MessageHandler, MessageStats};
