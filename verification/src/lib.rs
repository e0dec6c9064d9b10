//! Carina: a functional infrastructure management library.

pub mod aws;
pub mod cli;
pub mod ec2;
pub mod graph;
pub mod interpreter;
pub mod lsp;
pub mod module;
pub mod module_resolver;
pub mod effect;
pub mod formatter;
pub mod parser;
pub mod plan;
pub mod resource;
pub mod schema;
pub mod text;
