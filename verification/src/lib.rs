//! Core engine of a safety-first duplicate file finder.
//!
//! The library holds the decisions of the engine: grouping files by size and
//! content digests, word-based file name similarity, perceptual-hash and
//! frame-signature clustering, cache record encodings, cleanup-tool rules and
//! the checks made before any file operation. Reading the disk, running
//! external programs and talking to the user interface is left to callers,
//! which hand the results in as plain values.

pub mod action;
pub mod bits;
pub mod bktree;
pub mod cache;
pub mod folders;
pub mod fuzzy;
pub mod grouping;
pub mod hash;
pub mod hex;
pub mod images;
pub mod models;
pub mod music;
pub mod order;
pub mod progress;
pub mod scan;
pub mod tags;
pub mod text;
pub mod tools;
pub mod union_find;
pub mod videos;
