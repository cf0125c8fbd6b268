//! From a source tree to the music pack: songs, voices, samples and tables.

pub mod bank;
pub mod extract;
pub mod laws;
pub mod midi;
pub mod source;
pub mod wav;
