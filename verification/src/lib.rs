//! dupehound: finds functions duplicated by renaming, by fingerprinting the
//! structure of their bodies (robust winnowing over normalized token streams).
//!
//! This crate holds the verified core: fingerprinting, normalization, the
//! inverted index, scoring, import suggestions and the text parsers the
//! commands rely on.

pub mod check;
pub mod cluster;
pub mod config;
pub mod extract;
pub mod fingerprint;
pub mod gitsnap;
pub mod history;
pub mod index;
pub mod lang;
pub mod mcp;
pub mod normalize;
pub mod parse;
pub mod report;
pub mod scan;
pub mod score;
pub mod style;
pub mod suggest;
pub mod text;
pub mod walk;
