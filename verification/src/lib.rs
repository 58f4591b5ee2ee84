//! An embedded document store with integrated full-text search.
//!
//! Callers insert schema-less records — lists of (field name, field value)
//! pairs — under a caller-chosen external identifier, and retrieve them by
//! identifier or by free-text query.  The store is built from four
//! components: a field dictionary mapping field names to compact numeric
//! ids, a bidirectional external/internal id map, a document store keyed by
//! internal id, and an inverted text index from normalized tokens to the
//! documents containing them.  Ingestion updates all four atomically;
//! search ranks candidates by the number of distinct query tokens they
//! match and caps the result at a caller-given limit.

pub mod db;
pub mod errors;
pub mod extids;
pub mod fields;
pub mod index;
pub mod laws;
pub mod rank;
pub mod store;
pub mod tokenize;
pub mod value;
