//! Verified core of a multi-window keyboard multiplexer: controller
//! bindings, the routing table from pressed keys to controller actions, the
//! decisions taken on each key event, and the small parsers used to find game
//! windows.

pub mod bitset;
pub mod keys;
pub mod bindings;
pub mod routes;
pub mod state;
pub mod events;
pub mod toon;
pub mod laws;
