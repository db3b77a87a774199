//! Project-template resolution engine: a parser for the hybrid
//! metadata-plus-code template document format, loaders for bundled and
//! remotely fetched template sets, and the registry merge that orders the
//! final template list by explicit placement hints.

pub mod manifest;
pub mod parser;
pub mod registry;
pub mod render;
pub mod text;
pub mod roundtrip;
pub mod template;
