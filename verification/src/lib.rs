//! Verified core of a small SQL playground for uploaded JSON and CSV files:
//! how an uploaded file is named and typed, the catalog of loaded tables,
//! how query results are cut down for display, and how a parser message is
//! turned into an editor diagnostic.

pub mod catalog;
pub mod naming;
pub mod results;
pub mod text;
pub mod validation;
