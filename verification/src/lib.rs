//! Encrypted `.env` files and environment profiles.
//!
//! The library holds the logic of the tool: the format of an encrypted
//! environment file, key checking and key transport, the `.env` parser,
//! profile bookkeeping, the project configuration and the `.gitignore`
//! maintenance. Reading and writing files is left to the caller.

pub mod text;
pub mod config;
pub mod crypto;
pub mod gitignore;
pub mod profile;
pub mod run;
