//! A Chord-style ring of nodes that share a circular key space.
//!
//! Each node owns the arc of ids that ends at its own id, routes lookups hop
//! by hop through a small finger table, and hands part of its arc to a node
//! that joins. The crate holds the protocol: ring arithmetic, the wire
//! messages, the routing table and the node's transition function. Sockets
//! and the console are the caller's business: a node is fed received bytes
//! and answers with the list of actions to carry out.

pub mod address;
pub mod console;
pub mod entries;
pub mod error;
pub mod json;
pub mod message;
pub mod node;
pub mod parameter;
pub mod ring;
pub mod route;
pub mod table;
pub mod text;
pub mod walk;
