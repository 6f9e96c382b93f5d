//! Extracts shell command text from fenced code blocks of a Markdown
//! document, selecting the blocks whose fence info-string is satisfied by the
//! host's os-release identity and a caller-supplied set of context tags.

pub mod context;
pub mod error;
pub mod events;
pub mod fence;
pub mod filter;
pub mod osrel;
pub mod scan;
