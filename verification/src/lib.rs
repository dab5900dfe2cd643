//! Content pipeline core: path text utilities, link resolution and rewriting,
//! the note graph with its CSR encoding, JSON assembly and related-note tokens.

pub mod strs;
pub mod text;
pub mod links;
pub mod order;
pub mod graph;
pub mod le;
pub mod json;
pub mod excerpt;
pub mod layout;
pub mod related;
pub mod scan;
pub mod stage;
pub mod timefmt;
pub mod pipeline;
pub mod query;
pub mod graph_laws;
pub mod contract;

pub use crate::contract::Report;
pub use crate::pipeline::Options;
