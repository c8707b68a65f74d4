//! A small roguelike core library.
//!
//! The heart of the crate is [`fov`], a field-of-view computation on a 2D
//! integer tile grid by symmetric shadowcasting with exact rational slope
//! arithmetic.  [`points`] holds the point, rectangle and line geometry the
//! grid world is built from, and [`world`]
//! the tile classification a game shell draws with.

pub mod fov;
pub mod points;
pub mod world;
