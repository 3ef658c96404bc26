//! Build-time generation of typed localisation tables.
//!
//! A catalog is a sequence of (key path, value) pairs. From the default
//! locale's paths the library derives a nested record schema, from every other
//! locale's catalog a sequence that falls back to the default where a key is
//! missing, and from either a nested initialiser, as source text.

pub mod path;
pub mod order;
pub mod views;
pub mod catalog;
pub mod merge;
pub mod schema;
pub mod schema_laws;
pub mod instance;
pub mod instance_laws;
pub mod naming;
pub mod text;
pub mod render;
pub mod locales;
pub mod storage;
pub mod pages;
