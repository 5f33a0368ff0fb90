//! Document-synchronization and semantic-highlighting core of a small
//! language server.
//!
//! The crate keeps, per open document, a line-oriented text buffer together
//! with a collection of single-line highlight tokens, applies incremental
//! edit notifications to the buffer, translates each edit into the byte
//! descriptor an incremental parser expects, and delta-encodes the token
//! collection into the flat array the editor protocol mandates.
//!
//! All positions and columns in this crate are byte-based (UTF-8 code
//! units): a column counts bytes from the start of its line.

pub mod bni;
pub mod document;
pub mod initialize;
pub mod line_list;
pub mod message;
pub mod position;
pub mod range;
pub mod semantic;
pub mod semantic_hub;
pub mod set_trace;
pub mod text_document;
pub mod uri_map;
