//! Decoding and integrity checking of TLS `ESNIKeys` records.

pub mod checksum;
pub mod decoder;
pub mod encode;
pub mod laws;
pub mod query;
pub mod record;

pub use checksum::{check_digest, checksum_domain, parse_esnikeys, verify_checksum};
pub use decoder::DecodeError;
pub use query::prefix_esni;
pub use record::{parse, CipherSuite, ESNIKeys, KeyShareEntry, ParseError};
