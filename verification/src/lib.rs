//! A memcached-style key-value cache: a bounded store that evicts the least
//! recently used entry, the text protocol that drives it, and the routing of
//! keys to the nodes of a fixed cluster.
//!
//! The store is [`cache::LruCache`]: an index, [`striped_map`], from keys to
//! the slots of a recency list, [`recency`]. What can be a key says [`key`].
//! A node answers the requests of [`commands`] from its store, at the time
//! of [`clock`]. A client writes its requests with [`request`], for one node
//! as [`client`] and for a cluster as [`cluster_client`]; [`text`] is what
//! both sides share of reading and writing lines.
//!
//! Nothing here opens a connection or waits: the functions say what is to be
//! sent and what comes of what was received.

pub mod cache;
pub mod client;
pub mod clock;
pub mod cluster_client;
pub mod commands;
pub mod key;
pub mod recency;
pub mod request;
pub mod striped_map;
pub mod text;
