//! Where the desktop is shown.

pub mod frame_laws;
pub mod winit;
