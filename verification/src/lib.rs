//! Client-side window decorations: layout, pointer handling, blur and shadow.

pub mod accuracy;
pub mod binary32;
pub mod binary64;
pub mod blur_screen;
pub mod decorations;
pub mod fading;
pub mod falloff;
pub mod kde_blur;
pub mod kde_shadow;
pub mod number;
pub mod pattern;
mod powers;
pub mod region;
mod rounding;
pub mod shadow_pieces;
pub mod shadow_screen;
pub mod steps;
pub mod title;
