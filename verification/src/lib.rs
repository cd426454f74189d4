//! Serves records parsed from a CSV source as JSON resources, behind an
//! optional authenticated session layer.
//!
//! The crate is organised around two cores: ingestion (fetch text, index it
//! into an `id -> Product` map, serve lookups from shared state) and the
//! authentication subsystem (signed session tokens, CSRF tokens, and the
//! per-request session extraction that combines them).

pub mod b64;
mod clock;
pub mod config;
pub mod data;
pub mod csrf;
pub mod error;
pub mod hexstr;
pub mod jsontext;
pub mod jwt;
pub mod model;
pub mod settings;
pub mod strutil;
pub mod user;
