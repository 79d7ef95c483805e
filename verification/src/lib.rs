//! A terminal reader's core: the text, MOBI, EPUB and progress logic behind it.
pub mod cli;
pub mod config;
pub mod epub_doc;
pub mod library;
pub mod mobi;
pub mod progress;
pub mod reader;
pub mod rootfile;
pub mod strs;
pub mod text;
