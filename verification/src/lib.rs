//! Core of a document viewer: every file shown in the window arrives as one of a
//! handful of document forms, and this crate decides which one and fills it in.

pub mod strs;
pub mod natural;
pub mod json;
pub mod text;
pub mod doc;
pub mod formats;
pub mod scan;
pub mod csvread;
pub mod xmlread;
pub mod ziparch;
pub mod opening;

pub use doc::{Doc, Limits, ext_of, mime_of, category};
pub use opening::{open_document, reading_for, Reading, Contents};
pub use scan::FileEntry;
