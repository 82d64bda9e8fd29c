//! Verified core of the `whoa` terminal screensaver: the decoders for the
//! battle-background data, the grid rules of the text animations, and the
//! small utilities the animations share.

pub mod anim;
pub mod config;
pub mod hat;
pub mod seed;
mod random;

pub use hat::{pull_seed_content, Hat};
