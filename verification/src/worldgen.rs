//! The making of the world pack from a source tree of the game.

pub mod art;
pub mod behaviors;
pub mod doors;
pub mod drawings;
pub mod extract;
pub mod font;
pub mod graphics;
pub mod json;
pub mod land;
pub mod laws;
pub mod layouts;
pub mod maps;
pub mod reading;
pub mod realms;
pub mod stitch;
pub mod tilesets;
