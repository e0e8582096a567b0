//! A library for reading and writing the building blocks of PDF files,
//! with its logic verified by Verus.

pub mod filters;
pub mod format;
pub mod xref;
pub mod error;
pub mod object;
pub mod names;
pub mod strings;
pub mod writer;
pub mod content;
pub mod parser;
pub mod content_parser;
pub mod decode;
pub mod xref_stream;
pub mod file_structure;
pub mod encryption;
pub mod document;
pub mod encodings;
pub mod round_trip;
pub mod reader;
pub mod object_stream;
pub mod pages;
pub mod processor;
pub mod text;
