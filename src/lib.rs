//! Parsing of secret definitions written as dotenv lines or shell `export`
//! statements, and the bookkeeping of a profile's stored secrets.
pub mod escape;
pub mod grammar;
pub mod input;
pub mod joining;
pub mod profile;
