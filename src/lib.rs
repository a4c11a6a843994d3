//! Splitting and joining PDF documents.
//!
//! The library works on an in-memory model of a PDF object store. Its core copies the
//! part of a document reachable from one object into a detached, cycle-free tree, and
//! re-materializes such a tree into a fresh document under newly allocated identities.

use vstd::prelude::*;

pub mod burst;
pub mod dates;
pub mod errors;
pub mod input;
pub mod object;
pub mod pages;
pub mod select;
pub mod these;
pub mod tree;

pub use object::{Dictionary, Document, Object, ObjectId, Stream, StringFormat};
