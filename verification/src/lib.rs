//! IEEE 802.15.4 frame elements, decoded from and encoded into byte buffers.

pub mod mac;
