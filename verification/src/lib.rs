//! A hashids-style codec: reversibly encodes sequences of unsigned integers
//! into short, shuffled, alphanumeric strings and decodes them back.
//!
//! The obfuscation is salt-keyed and deterministic, but explicitly not
//! cryptographically secure: its purpose is to make sequential identifiers
//! look non-sequential, not to resist a motivated attacker.

pub mod codec;
pub mod config;
pub mod hex;
pub mod laws;
pub mod numeral;
pub mod shuffle;
pub mod util;

pub use codec::create_nhash;
pub use codec::Harsh;
pub use codec::HarshBuilder;
pub use config::alphabet_and_separators;
pub use config::guards;
pub use config::unique_alphabet;
pub use config::Error;
pub use numeral::hash;
pub use numeral::unhash;
pub use shuffle::shuffle;
