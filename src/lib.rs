//! A project-wide text search engine: literal and regular-expression queries,
//! inclusion/exclusion path filters, and match ranges over a chunked text buffer.

pub mod engines;
pub mod laws;
pub mod path_matcher;
pub mod query;
pub mod scan;
pub mod text;
