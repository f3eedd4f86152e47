//! Toplevel windows: mapping, focus, stacking, maximizing and fullscreen.
//!
//! Every handler is stated twice: as a function from [`StateView`] to [`StateView`], and as a
//! method of [`State`] that is shown to do just that.

pub mod dialog_laws;
pub mod focus;
pub mod focus_laws;
pub mod laws;
pub mod layout;
pub mod lifecycle;
pub mod mapping_laws;
pub mod mode_laws;
pub mod modes;
pub mod placement_laws;
pub mod popups;
