//! Package-metadata reasoning for an ALPM (pacman) package browser.
//!
//! The crate provides a total version comparator with ALPM ordering rules,
//! a compact package-reference scheme over a set of package databases,
//! a dependency matching and reverse-lookup engine, a small query-language
//! compiler for list filtering, and a file-list deduplication pass.

pub mod deps;
pub mod desc;
pub mod filter;
pub mod load;
pub mod packages;
pub mod query_syntax;
pub mod upgrades;
pub mod util;
pub mod vercmp;
