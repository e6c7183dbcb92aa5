//! A producer for Azure Event Hubs over the HTTP REST API that sets no partition key, so that the
//! broker distributes the events round-robin over all partitions.
//!
//! The crate holds what the producer decides and computes; opening connections, reading the
//! command line and waiting for Ctrl-C belong to the program around it.

pub mod config;
pub mod connection;
pub mod producer;
pub mod request;
pub mod text;
pub mod text_laws;
pub mod text_lemmas;
pub mod token;
