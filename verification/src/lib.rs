//! Form-field and text-layout logic for PDF documents, over a plain model of
//! a document's object table.

pub mod pdf;
pub mod text;
pub mod render;
pub mod paths;
pub mod rename;
pub mod listing;
pub mod fill;
pub mod content;
