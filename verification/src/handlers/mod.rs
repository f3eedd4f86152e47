//! Reactions to what clients do.

pub mod compositor;
pub mod fits;
pub mod fits_laws;
pub mod foreign_toplevel;
pub mod layer_shell;
pub mod scope_laws;
pub mod step_laws;
pub mod surface_laws;
pub mod toplevel_shell;
pub mod toplevel_shell_laws;
pub mod xdg_activation;
pub mod xdg_shell;
