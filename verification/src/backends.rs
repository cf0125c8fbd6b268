//! What the backends decide: what streams and when, what passes between the
//! game loop and the page, and the order of draws.

pub mod audio_web;
pub mod blit;
pub mod draw;
pub mod headless;
pub mod laws;
pub mod save_web;
pub mod songs;
