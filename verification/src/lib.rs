//! Window management of a Wayland compositor.

pub mod arrangement;
pub mod backend;
pub mod command;
pub mod geometry;
pub mod geometry_laws;
pub mod handlers;
pub mod input;
pub mod input_laws;
pub mod render;
pub mod sequences;
pub mod space;
pub mod stack_laws;
pub mod state;
pub mod toplevel;
