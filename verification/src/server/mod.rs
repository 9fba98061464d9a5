//! The text server: its one-line text protocol, its data map and how a
//! worker answers a request.
pub mod db;
pub mod dispatch;
pub mod heartbeat;
pub mod map;
pub mod parse;
pub mod subs;
