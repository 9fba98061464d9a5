//! BIT:E, a key-value database with subscriptions: the protocol, the
//! parsers, the ordered store, the subscriptions and the decisions of the
//! server's threads, with their contracts.
pub mod protocol;
pub mod message;
pub mod reader;
pub mod writer;
pub mod connection;
pub mod cursor;
pub mod text;
pub mod parser;
pub mod keys;
pub mod numbers;
pub mod store;
pub mod json;
pub mod tree;
pub mod data;
pub mod subs;
pub mod assoc;
pub mod cleaner;
pub mod heartbeat;
pub mod db;
pub mod parse;
pub mod msg;
pub mod frame;
pub mod conn;
pub mod map;
pub mod server;
pub mod line_server;
