//! Verified core of a Media-over-QUIC relay.

pub mod auth;
pub mod bandwidth;
pub mod bytes;
pub mod catalog_dts;
pub mod chat;
pub mod consumer;
pub mod demo;
pub mod dts_service;
pub mod dts_tracker;
pub mod filter;
pub mod local;
pub mod namespace;
pub mod privacypass;
pub mod producer;
pub mod quic_stats;
pub mod relay;
pub mod session_publisher;
pub mod subscriber_registry;
pub mod text;
pub mod top_n_events;
pub mod top_n_tracker;
