//! Interchange formats for topologies.
pub mod dot;
pub mod dot_read;
pub mod graph6;
pub mod graphml;
pub mod graphml_read;
pub mod text;
