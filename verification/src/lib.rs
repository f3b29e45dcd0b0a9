//! Inline `ansible-vault` encryption and decryption for YAML documents.

pub mod actions;
pub mod cli;
pub mod config;
pub mod crypto;
pub mod document_laws;
pub mod documents;
pub mod editing;
pub mod format_laws;
pub mod hexadecimal;
pub mod installer;
pub mod literal;
pub mod password;
pub mod pattern;
pub mod reading;
pub mod resolution;
pub mod resolution_laws;
pub mod round_trip;
pub mod server;
pub mod source_laws;
pub mod text;
pub mod vault;
pub mod view_laws;
