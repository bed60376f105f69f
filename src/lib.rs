//! Core of an assistant that edits circuit schematic text files: it decodes a
//! streamed model response, decides whether it is prose or a structured edit
//! batch, and applies line-range edits to a document.
pub mod text;
pub mod json;
pub mod document;
pub mod patch;
pub mod events;
pub mod payload;
pub mod decoder;
pub mod stream_laws;
pub mod history;
pub mod listing;
pub mod state;
pub mod request;
pub mod batch_laws;
