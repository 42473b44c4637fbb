//! Streaming, event-based parser for UDON, a unified document-and-data notation.
//!
//! Input arrives in chunks that are kept in an append-only arena; the parser turns
//! complete lines into structural events (elements, attributes, values, prose,
//! comments, dynamics) and queues them in a bounded ring for a consumer.

pub mod span;
pub mod arena;
pub mod event;
pub mod ring;
pub mod scalar;
pub mod value;
pub mod scan;
pub mod parser;
