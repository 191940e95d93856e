//! Hybrid public-key file encryption: ML-KEM-1024 together with P-384, SHA-256 and
//! ChaCha20-Poly1305.
//!
//! The crate holds the file formats, the key handling, the stream framing and the decisions
//! of the program. Reading files, starting processes and drawing windows are left to its
//! callers.

pub mod body;
pub mod chunks;
pub mod container;
pub mod control;
pub mod error;
pub mod field;
pub mod filepick;
pub mod fingerprint;
pub mod fresh;
pub mod gui;
pub mod hardening;
pub mod header;
pub mod job;
pub mod keyfile;
pub mod passphrase;
pub mod primitives;
pub mod secure;
pub mod secure_string;
pub mod status;
pub mod stream;
pub mod strength;
pub mod tamper;
pub mod text;
pub mod wire;
