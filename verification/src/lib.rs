//! Opening lines of public-domain Japanese literature: the rules that pick
//! authors, works, archive links and the first quotable sentence out of a
//! mirrored archive, and the queries that serve the resulting table.

pub mod chars;
pub mod excerpt;
pub mod extractor;
pub mod locator;
pub mod models;
pub mod order;
pub mod page;
pub mod quotes;
pub mod records;
