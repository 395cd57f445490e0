//! A local encrypted key-value secret store.
//!
//! A single file on disk holds a set of string key/value pairs, encrypted at
//! rest under a user-supplied password.  The crate provides the cryptographic
//! envelope that turns a password and a plaintext mapping into an opaque byte
//! blob and back, a typestate file lifecycle that keeps "decrypted in memory"
//! and "persisted and encrypted" statically apart, a session registry that
//! tracks several open files by alias with best-effort bulk persistence, and
//! the command grammar of the interactive front end.

pub mod bytesutil;
pub mod crypto;
pub mod envelope;
pub mod driver;
pub mod dummy_drivers;
pub mod file;
pub mod mapping;
pub mod parser;
pub mod repl;
