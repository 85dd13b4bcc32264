//! ZetMQ: a subject-based publish/subscribe message broker.
//!
//! This crate holds the broker's logic with machine-checked contracts:
//! the binary frame codec, subject parsing and wildcard matching, the
//! routing trie and engine, subscriptions and queue groups, stream storage
//! and consumers, and the server's permission checks.

pub mod admin;
pub mod auth;
pub mod broker;
pub mod client;
pub mod codec;
pub mod command;
pub mod config;
pub mod consumer;
pub mod delivery;
pub mod dispatcher;
pub mod error;
pub mod frame;
pub mod headers;
pub mod id;
pub mod memory;
pub mod message;
pub mod metrics;
pub mod queue_group;
pub mod registry;
pub mod segment;
pub mod session;
pub mod stream;
pub mod stream_cmd;
pub mod routing;
pub mod subject;
pub mod subject_pattern;
pub mod subscription;
pub mod text;
pub mod trie;
pub mod wire;
