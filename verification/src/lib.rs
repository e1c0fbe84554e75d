//! Media containers over a group-based transport.
pub mod container;
pub mod encryption;
pub mod error;
pub mod net;
pub mod payload;
pub mod poll;
pub mod time;

pub use error::{Error, Result};
