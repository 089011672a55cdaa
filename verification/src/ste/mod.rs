//! Silent threshold encryption: any large enough set of parties can decrypt under an aggregate of
//! independently chosen keys.
pub mod aggregate;
pub mod crs;
pub mod decryption;
pub mod encryption;
pub mod partial;
pub mod setup;
pub mod utils;
