//! A compiler and tick-by-tick simulator for a small hierarchical
//! hardware-description language with tri-state signals.

pub mod bit;
pub mod names;
pub mod stream;
pub mod model;
pub mod info;
pub mod component;
pub mod laws;
pub mod assignments;
pub mod parser;
pub mod factory;
pub mod lines;
pub mod syntax;
pub mod wave_json;
pub mod emit_json;
pub mod trace;
pub mod delay;
pub mod renaming;
pub mod settle;
pub mod chains;
