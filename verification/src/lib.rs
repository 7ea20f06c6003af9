//! A verified movie-catalog library.
//!
//! The library loads delimited movie records (title, year, languages,
//! rating) from CSV text, validates each row against field-level rules,
//! and answers read-only queries over the validated records: titles by
//! year, the best-rated record of each year, and records by language.
//! A companion module prepares grouped output and file selection for a
//! small directory-organizing front end.

pub mod bytes;
pub mod csv_input;
pub mod loader;
pub mod menu;
pub mod numbers;
pub mod organize;
pub mod queries;
pub mod record;

pub use bytes::trim;
