//! Open-world exploration of Hoenn as a verified library: the pack formats,
//! the world model, the movement and warp rules, the m4a sequencer and the
//! extractors that derive both packs from the source tree.

pub mod audio;
pub mod backends;
pub mod codec;
pub mod files;
pub mod formats;
pub mod game;
pub mod musicgen;
pub mod single;
pub mod text;
pub mod types;
pub mod worldgen;
