//! Fragment-based rich-document note model with its synchronization engine.
//!
//! A note is an ordered sequence of text and image fragments. This crate holds
//! the document model and its structural edit operations (split on image
//! insertion, coalesce on deletion), the reconstruction of notes from flat
//! per-fragment storage rows together with the inverse flattening, the
//! caret-to-document position mapping, the edit debounce scheduler, and the
//! request-slot bookkeeping of the synchronization client. Every function here
//! carries a contract checked by Verus.

pub mod caret;
pub mod data;
pub mod edits;
pub mod images;
pub mod internal_error;
pub mod reconstruct;
pub mod scheduler;
pub mod surface;
pub mod sync_client;
pub mod todo;
