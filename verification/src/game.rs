//! The world: what it is made of, how it is walked, and what is drawn of it.

pub mod bake;
pub mod calls;
pub mod coherence;
pub mod data;
pub mod laws;
pub mod look;
pub mod map;
pub mod play;
pub mod player;
pub mod rules;
pub mod scene;
pub mod state;
pub mod ui;
pub mod views;
pub mod world;
