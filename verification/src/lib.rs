//! Extraction, aggregation and resolution of chat references found in a
//! message history: link texts and mention annotations are classified into
//! typed references, deduplicated under a case-normalized identity, counted,
//! and finally filtered and ranked for output.

pub mod aggregate;
pub mod chars;
pub mod crawl;
pub mod credentials;
pub mod links;
pub mod mentions;
pub mod resolve;
pub mod utf16;
