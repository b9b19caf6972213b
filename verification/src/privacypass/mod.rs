//! Privacy Pass tokens: challenges, redemption and key stores.

pub mod challenge;
pub mod error;
pub mod framing;
pub mod hook;
pub mod keys;
pub mod stores;
pub mod token;
pub mod wire;
