//! An in-memory registry mapping binary function/event selectors (4-byte or
//! 32-byte hashes used in smart-contract ABIs) to the human-readable
//! signatures they were derived from, parsed from a line-oriented export
//! format (`<hex-selector>,<signature-text>` per line).

pub mod abi;
pub mod error;
pub mod parsing;
pub mod registry;
pub mod selector;

pub use abi::{abi_parsed, digit_runs_fit};
pub use error::Error;
pub use parsing::{parse_hex_string_to_bytes, parse_line, parse_selector};
pub use registry::EvmSelectors;
pub use selector::Selector;
