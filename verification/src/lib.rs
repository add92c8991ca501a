//! A codec between bytes and Konami-code token strings, and a repeating-key
//! additive cipher layered on top of it.

pub mod error;
pub mod automaton;
pub mod cipher;
pub mod codec;
pub mod grammar;
pub mod laws;
pub mod pending;

pub use error::KonamiParseError;
pub use codec::{byte_to_konami, bytes_to_konami, konami_to_bytes};
pub use cipher::{decrypt, encrypt};
