//! Translation lookup over layered catalogs, with locale fallback.

pub mod backend;
pub mod resolve;
pub mod text;
