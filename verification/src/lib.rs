//! Event-level YAML parsing: turns YAML text into the stream of
//! parse events (stream, document, mapping, sequence and scalar events).
pub mod text;
pub mod event;
pub mod scalar;
pub mod model;
pub mod document;
pub mod stream;
pub mod token;
pub mod parser;
pub mod laws;
pub mod pairs;
pub mod ranges;
pub mod line_laws;
pub mod locality;
pub mod blanking;
pub mod block_laws;
pub mod flat_laws;
pub mod nested_laws;
