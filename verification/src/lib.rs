//! A first-person tile-maze renderer: ray marching against a fixed 16 x 16
//! grid, perspective wall columns sampled from a texture atlas, a sky and
//! ground backdrop, a top-down minimap overlay, and circular player
//! collision.
//!
//! World geometry is carried in fixed-point `i64` scalars (see [`fixed`]),
//! so every query and every pixel of a frame is an exact integer function of
//! the map, the texture atlas and the player pose.

pub mod atlas;
pub mod fixed;
pub mod game;
pub mod image;
pub mod map;
pub mod player;

pub use atlas::TextureAtlas;
pub use fixed::FP_ONE;
pub use game::Game;
pub use image::{ImageData, ImageError, Pixel};
pub use map::TileMap;
pub use player::{Player, RayHit};
