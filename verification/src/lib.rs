//! A verified PDF composition engine.
//!
//! The library models a PDF document as an in-memory object graph and
//! implements, as verified code, the operations a page-composition tool
//! needs: merging pages selected from several source documents into one
//! new document, renumbering object identifiers so that independently
//! parsed graphs can be pooled, pruning objects that are unreachable from
//! the trailer, compressing eligible streams, and synthesizing a one-page
//! document from a decoded raster image.  Byte-level parsing, byte-level
//! serialization and page rasterization are collaborator concerns: a shell
//! around the library performs them and exchanges plain values with it.

pub mod error;
pub mod graph;
pub mod licenses;
pub mod loader;
pub mod model;
pub mod names;
pub mod project;
pub mod synth;
pub mod text;

pub use error::{Error, UpdateError};
pub use model::{Dict, DictEntry, DocumentGraph, GraphEntry, ObjectId, PdfObject, Stream};
pub use licenses::License;
pub use loader::SourceKind;
pub use project::{Page, Project, Rotation, Selector, Source, SourceFile};
