//! A small task-manager core: a glyph cache and software rasteriser that
//! paint into an RGBA frame buffer, and the process table with its sorting
//! and scrolling rules.

pub mod font_names;
pub mod frame;
pub mod glyph;
pub mod laws;
pub mod processes;
pub mod view;
pub mod world;
