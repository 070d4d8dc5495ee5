//! Extraction of gettext messages from mustache templates.

pub mod catalog_reading;
pub mod cli;
pub mod extractor;
pub mod regex_collection;
pub mod text;
