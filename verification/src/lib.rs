//! Encoding, decoding, checksumming and validation of AIDA64 license keys.

pub mod alphabet;
pub mod checksum;
pub mod date;
pub mod edition;
pub mod external;
pub mod key;
