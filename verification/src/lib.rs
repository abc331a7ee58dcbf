//! Core of a minimal web browser: an HTML tokenizer and tree-construction
//! automaton that populate a DOM arena, together with the URL decomposer and
//! HTTP-response model that feed them, and a printer for the resulting tree.

pub mod attribute;
pub mod browser;
pub mod client;
pub mod dom;
pub mod error;
pub mod http;
pub mod page;
pub mod parser;
pub mod text;
pub mod token;
pub mod url;
pub mod utils;
