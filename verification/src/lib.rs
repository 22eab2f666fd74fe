//! Rendering of structured license documents (title, copyright notice, body
//! paragraphs) from streamed markup into wrapped plain text, and what
//! generating license files needs beside it: output formats, lists of
//! output paths, license expressions and the contents that are fetched.

pub mod config;
pub mod error;
pub mod format;
pub mod license;
pub mod lines;
pub mod markup;
pub mod notice;
pub mod paths;
pub mod plain;
pub mod reading;
pub mod render;
pub mod text;
pub mod wrap;
