//! Who may do what.

pub mod access_token;
pub mod c4m;
pub mod cat;
pub mod cose;
pub mod types;
