# wlcompositor

The decisions of a small Wayland compositor, as a library whose behaviour is stated in contracts and
proved with Verus: which window has the focus, where windows, dialogs and tooltips go, what a
maximize or fullscreen request does, what a click reaches, what a frame shows while the session is
locked, and what other clients are told about the windows.

- `src/state.rs` holds the desktop and its mathematical value, and takes in the facts about it.
  Windows, layers and popups are numbers.
- `src/handlers/` reacts to what clients do: `xdg_shell/` (windows and popups), `layer_shell.rs`,
  `compositor.rs` (commits), `xdg_activation.rs`, `foreign_toplevel/` (the toplevel list), and
  `toplevel_shell.rs`, a shell without dialogs, popups and window modes. `fits.rs` tests
  whether a reaction keeps every coordinate in its range.
- `src/input.rs`, `src/render.rs` and `src/backend/` decide about input, frames and the window the
  desktop is shown in.
- `src/command.rs` lists what the display side is asked to do.
- `app/` is the program around it: it tells the library what happens and carries out its commands.

A handler is a function from one desktop to the next, written as a `spec fn` of `StateView`, and a
method of `State` that is proved to compute it. Functions named `law_...` state what holds of several
handlers together.
