//! LSB steganography library: hides a framed, encrypted byte payload in the
//! least-significant bits of RGBA pixel channels of one or more PNG carriers,
//! and recovers it losslessly.

pub mod bits;
pub mod carrier;
pub mod chunks;
pub mod codec;
pub mod common;
pub mod crypto;
pub mod errors;
pub mod resize;
