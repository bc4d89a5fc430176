//! Encrypted profiles of environment variables.
//!
//! A profile is an ordered set of variables (`vars`) written as a line
//! payload (`payload`), sealed by one of two schemes (`cipher`) and framed
//! in a self-identifying envelope (`envelope`). `profile` binds these
//! together; `store` holds the rules of the profiles directory and of
//! plaintext export; `dotenv` reads variables from dotenv text.

pub mod cipher;
pub mod date;
pub mod dotenv;
pub mod envelope;
pub mod error;
pub mod payload;
pub mod profile;
pub mod recipients;
pub mod store;
pub mod vars;
