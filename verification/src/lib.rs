pub mod cli;
pub mod credentials;
pub mod digest;
pub mod document;
pub mod dom;
pub mod error;
pub mod fs_source;
pub mod highlight;
pub mod index;
pub mod links;
pub mod mirror;
pub mod number;
pub mod order;
pub mod page;
pub mod paths;
pub mod pattern;
pub mod pieces;
pub mod service;
pub mod text;
pub mod text_set;
pub mod tui;
