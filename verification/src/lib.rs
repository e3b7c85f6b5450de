//! Core of a Kademlia distributed hash table that runs over data channels:
//! identifier arithmetic, routing table, topic storage, the iterative
//! search, and the decisions of the transport overlay.

pub mod config;
pub mod conn;
pub mod connector;
pub mod consts;
pub mod dht;
pub mod error;
pub mod events;
pub mod handshake;
pub mod id;
pub mod identity;
pub mod kbucket;
pub mod ktree;
pub mod protocol;
pub mod registry;
pub mod search;
pub mod seqs;
pub mod sort;
pub mod storage;
pub mod transport;
