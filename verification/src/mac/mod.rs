//! The MAC layer: addresses, decoding errors and beacon frames.

pub mod address;
pub mod beacon;

pub use address::{DecodeError, ExtendedAddress, ShortAddress};
