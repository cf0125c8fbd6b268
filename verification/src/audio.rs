//! The m4a engine: its pack, its sequencer and its integer tables.

pub mod calls;
pub mod check;
pub mod data;
pub mod engine;
pub mod laws;
pub mod mixer;
pub mod rules;
pub mod subset;
pub mod tables;
pub mod wav;
