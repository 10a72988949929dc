//! A grid-maze ray caster on integer geometry.
//!
//! World coordinates are whole numbers; a maze cell spans `block_size`
//! coordinate steps along each axis. Angles are counted in steps of a
//! caller-supplied direction table. Every function carries a contract,
//! and Verus proves each of them but the one that hands bytes to the
//! picture decoder.

pub mod geometry;
pub mod trig;
pub mod maze;
pub mod player;
pub mod framebuffer;
pub mod caster;
pub mod anim;
pub mod textures;
pub mod path;
pub mod sprite;
pub mod renderer;
pub mod minimap;
pub mod menu;
pub mod game;
