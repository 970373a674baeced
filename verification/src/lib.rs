//! Storage core of a small relational engine: a chunked on-disk value index
//! and the paginated cursor that a full table scan fills.

pub mod alba_types;
pub mod bucket;
pub mod index_laws;
pub mod index_model;
pub mod indexing;
pub mod layout;
pub mod lexer_functions;
pub mod query;
pub mod scan;
