//! Client-side logic of a multisig vault: proposal lifecycle, vault
//! transaction messages and their byte encoding, and the resolution of the
//! address-lookup tables that a stored message references.

pub mod address;
pub mod lifecycle;
pub mod resolve;
pub mod message;
pub mod assemble;
pub mod compile;
pub mod commands;
