//! Layer surfaces: panels, launchers and wallpapers.

use vstd::prelude::*;
use crate::command::Command;
use crate::space::{Interactivity, Layer, LayerKind};
use crate::state::{State, StateView};

verus! {

broadcast use vstd::std_specs::hash::group_hash_axioms;

impl Layer {
    pub open spec fn on_demand_spec(self) -> bool {
        (self.kind == LayerKind::Overlay || self.kind == LayerKind::Top) && self.interactivity
            == Interactivity::OnDemand
    }

    /// Whether this layer takes keyboard focus when it opens: it asks for it on demand, and it is
    /// above the windows. Layers below the windows are focused by clicks only.
    pub fn takes_focus_on_open(&self) -> (r: bool)
        ensures
            r == self.on_demand_spec(),
    {
        (self.kind == LayerKind::Overlay || self.kind == LayerKind::Top) && self.interactivity
            == Interactivity::OnDemand
    }
}

impl StateView {
    /// The layer whose surface is `surface`.
    pub open spec fn layer(self, surface: u64) -> Layer
        recommends
            self.is_layer(surface),
    {
        let output = self.outputs[self.layer_output(surface)];
        output.layers@[crate::handlers::xdg_shell::popups::layer_index(output, surface)]
    }

    /// The output for a new layer surface: the one asked for, else the first.
    pub open spec fn new_layer_output(self, requested: Option<u64>) -> Option<u64> {
        if requested is Some {
            requested
        } else if self.outputs.len() > 0 {
            Some(self.outputs[0].id)
        } else {
            None
        }
    }

    pub open spec fn new_layer_surface(self, surface: u64, requested: Option<u64>) -> StateView {
        match self.new_layer_output(requested) {
            Some(output) => self.emit(Command::MapLayer { surface, output }),
            None => self,
        }
    }

    pub open spec fn layer_destroyed(self, surface: u64) -> StateView {
        let s = if self.is_layer(surface) {
            self.emit(
                Command::UnmapLayer {
                    surface,
                    output: self.outputs[self.layer_output(surface)].id,
                },
            )
        } else {
            self
        };
        StateView {
            layer_shell_on_demand_focus: if self.layer_shell_on_demand_focus == Some(surface) {
                None
            } else {
                self.layer_shell_on_demand_focus
            },
            ..s
        }
    }

    /// A commit of `surface` after which the layers were laid out anew.
    #[verifier::opaque]
    pub open spec fn layer_commit(self, surface: u64, layout_changed: bool) -> StateView {
        if !self.is_layer(surface) {
            self
        } else {
            let first = !self.layer(surface).initial_configure_sent;
            let s1 = if first {
                self.emit(Command::SendLayerConfigure { surface })
            } else {
                self
            };
            let s2 = if layout_changed {
                s1.reflow_toplevels()
            } else {
                s1
            };
            if first && self.layer(surface).on_demand_spec() {
                StateView { layer_shell_on_demand_focus: Some(surface), ..s2 }
            } else {
                s2
            }
        }
    }

    /// The layer that is owed the keyboard focus and does not have it; none while the session is
    /// locked.
    pub open spec fn owed_focus(self) -> Option<u64> {
        if self.is_locked || self.layer_shell_on_demand_focus == self.keyboard_focus {
            None
        } else {
            self.layer_shell_on_demand_focus
        }
    }

    pub open spec fn give_owed_focus(self, serial: u32) -> StateView {
        match self.owed_focus() {
            Some(surface) => self.set_keyboard_focus(Some(surface), serial),
            None => self,
        }
    }

    /// Whether a commit of `surface` stays within the coordinate range.
    pub open spec fn layer_commit_fits(self, surface: u64, layout_changed: bool) -> bool {
        self.is_layer(surface) && layout_changed ==> self.reflow_fits()
    }
}

impl State {
    /// A client created a layer surface. It is mapped at once; focus and configure wait for its
    /// first commit.
    pub fn new_layer_surface(&mut self, surface: u64, requested: Option<u64>)
        requires
            old(self)@.wf(),
        ensures
            final(self)@ == old(self)@.new_layer_surface(surface, requested),
            final(self)@.wf(),
    {
        let output: u64 = match requested {
            Some(output) => output,
            None => {
                if self.space.outputs.len() == 0 {
                    return;
                }
                self.space.outputs[0].id
            },
        };
        self.emit(Command::MapLayer { surface, output });
    }

    /// The layer surface `surface` is gone: it is unmapped, and focus is no longer owed to it.
    /// Windows stay where they are.
    pub fn layer_destroyed(&mut self, surface: u64)
        requires
            old(self)@.wf(),
        ensures
            final(self)@ == old(self)@.layer_destroyed(surface),
            final(self)@.wf(),
    {
        if let Some((i, _)) = self.find_layer(surface) {
            let output: u64 = self.space.outputs[i].id;
            self.emit(Command::UnmapLayer { surface, output });
        }
        if let Some(owed) = self.layer_shell_on_demand_focus {
            if owed == surface {
                self.layer_shell_on_demand_focus = None;
            }
        }
    }
}

impl State {
    /// Gives the keyboard focus to the layer that is owed it.
    pub fn give_owed_focus(&mut self, serial: u32)
        requires
            old(self)@.wf(),
        ensures
            final(self)@ == old(self)@.give_owed_focus(serial),
            final(self)@.wf(),
    {
        if self.is_locked {
            return;
        }
        if let Some(owed) = self.layer_shell_on_demand_focus {
            let focused: bool = match self.keyboard_focus {
                Some(focus) => focus == owed,
                None => false,
            };
            if !focused {
                self.set_keyboard_focus(Some(owed), serial);
            }
        }
    }
}

/// The layer side of a commit: sends the initial configure, places the windows anew when the
/// layout changed, and remembers that a new layer is owed keyboard focus. Returns whether
/// `surface` is a layer surface.
pub fn handle_commit(state: &mut State, surface: u64, layout_changed: bool) -> (known: bool)
    requires
        old(state)@.wf(),
        old(state)@.layer_commit_fits(surface, layout_changed),
    ensures
        final(state)@ == old(state)@.layer_commit(surface, layout_changed),
        known == old(state)@.is_layer(surface),
        !known ==> final(state)@ == old(state)@,
        final(state)@.wf(),
        final(state)@.windows.dom() == old(state)@.windows.dom(),
{
    reveal(StateView::layer_commit);
    let (needs_configure, on_demand): (bool, bool) = match state.find_layer(surface) {
        Some((i, j)) => {
            let layer = state.space.outputs[i].layers[j];
            (!layer.initial_configure_sent, layer.takes_focus_on_open())
        },
        None => {
            return false;
        },
    };
    if needs_configure {
        state.emit(Command::SendLayerConfigure { surface });
    }
    if layout_changed {
        proof {
            let s = old(state)@;
            if needs_configure {
                lemma_fits_ignores_commands(s, Command::SendLayerConfigure { surface });
            }
        }
        state.reflow_toplevels();
    }
    if needs_configure && on_demand {
        state.layer_shell_on_demand_focus = Some(surface);
    }
    true
}

/// Whether placing the windows anew fits does not depend on what is queued.
proof fn lemma_fits_ignores_commands(s: StateView, c: Command)
    requires
        s.reflow_fits(),
    ensures
        s.emit(c).reflow_fits(),
{
    if let Some(zone) = s.zone() {
        let ws = crate::space::windows_of(s.elements);
        lemma_reflow_ignores_commands(s, c, ws, zone);
    }
}

proof fn lemma_reflow_ignores_commands(
    s: StateView,
    c: Command,
    ws: Seq<u64>,
    zone: crate::geometry::Rect,
)
    ensures
        s.reflow_windows_fit(ws, zone) ==> s.emit(c).reflow_windows_fit(ws, zone),
        s.emit(c).reflow_windows(ws, zone).windows == s.reflow_windows(ws, zone).windows,
        s.emit(c).reflow_windows(ws, zone).elements == s.reflow_windows(ws, zone).elements,
    decreases ws.len(),
{
    if ws.len() > 0 {
        lemma_reflow_ignores_commands(s, c, ws.drop_last(), zone);
        let a = s.reflow_windows(ws.drop_last(), zone);
        let b = s.emit(c).reflow_windows(ws.drop_last(), zone);
        let w = ws.last();
        assert(a.windows == b.windows && a.elements == b.elements);
        assert(a.reflow_window(w, zone).elements == b.reflow_window(w, zone).elements);
    }
}

/// A layer is owed the focus when it opens just if it asks for it on demand and lies above the
/// windows; a layer that is open already is not owed it by another commit.
pub proof fn law_upper_layers_take_focus_on_open(
    s: StateView,
    surface: u64,
    layout_changed: bool,
)
    requires
        s.is_layer(surface),
        s.layer_shell_on_demand_focus != Some(surface),
    ensures
        s.layer_commit(surface, layout_changed).layer_shell_on_demand_focus == Some(surface) <==> {
            &&& !s.layer(surface).initial_configure_sent
            &&& s.layer(surface).interactivity == Interactivity::OnDemand
            &&& s.layer(surface).kind == LayerKind::Overlay || s.layer(surface).kind
                == LayerKind::Top
        },
        s.layer_destroyed(surface).layer_shell_on_demand_focus == s.layer_shell_on_demand_focus,
{
    reveal(StateView::layer_commit);
    let t = if !s.layer(surface).initial_configure_sent {
        s.emit(Command::SendLayerConfigure { surface })
    } else {
        s
    };
    if let Some(zone) = t.zone() {
        lemma_reflow_owes_nothing(t, crate::space::windows_of(t.elements), zone);
    }
}

/// A commit of a layer that leaves the layout as it is moves no window.
pub proof fn law_same_layout_moves_no_window(s: StateView, surface: u64)
    ensures
        s.layer_commit(surface, false).elements == s.elements,
        s.layer_commit(surface, false).windows == s.windows,
{
    reveal(StateView::layer_commit);
}

/// A layer that is gone is owed no focus.
pub proof fn law_gone_layers_are_owed_nothing(s: StateView, surface: u64)
    ensures
        s.layer_destroyed(surface).layer_shell_on_demand_focus != Some(surface),
        s.layer_destroyed(surface).elements == s.elements,
{
}

/// Placing windows anew does not change which layer is owed the focus.
proof fn lemma_reflow_owes_nothing(s: StateView, ws: Seq<u64>, zone: crate::geometry::Rect)
    ensures
        s.reflow_windows(ws, zone).layer_shell_on_demand_focus == s.layer_shell_on_demand_focus,
    decreases ws.len(),
{
    if ws.len() > 0 {
        lemma_reflow_owes_nothing(s, ws.drop_last(), zone);
    }
}

} // verus!
