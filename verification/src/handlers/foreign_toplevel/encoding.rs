//! The payload of the wlr `state` event: one 32-bit number per state, in native byte order.

use vstd::prelude::*;
use wayland_protocols_wlr::foreign_toplevel::v1::server::zwlr_foreign_toplevel_handle_v1;
use crate::toplevel::WindowMode;

verus! {

/// A state that the payload can list.
#[derive(Clone, Copy, Debug, PartialEq, Eq, Structural)]
pub enum ListedState {
    Maximized,
    Activated,
    Fullscreen,
}

impl ListedState {
    /// The number that the protocol gives to the state.
    pub open spec fn code(self) -> u32 {
        match self {
            ListedState::Maximized => 0,
            ListedState::Activated => 2,
            ListedState::Fullscreen => 3,
        }
    }
}

/// The number whose digits to the base 256 are `bytes`, the lowest first.
pub open spec fn little_endian(bytes: Seq<u8>) -> int {
    bytes[0] + 0x100 * bytes[1] + 0x1_0000 * bytes[2] + 0x100_0000 * bytes[3]
}

/// Whether `bytes` are `n`, the lowest byte first if `lowest_first`, else the highest.
pub open spec fn encodes(bytes: Seq<u8>, n: u32, lowest_first: bool) -> bool {
    bytes.len() == 4 && n == if lowest_first {
        little_endian(bytes)
    } else {
        little_endian(bytes.reverse())
    }
}

/// The number of a state, as the `From` conversion of `zwlr_foreign_toplevel_handle_v1::State` to
/// `u32` gives it. The protocol description lists maximized as 0, activated as 2 and fullscreen
/// as 3.
#[verifier::external_body]
fn state_code(state: ListedState) -> (code: u32)
    ensures
        code == state.code(),
{
    u32::from(match state {
        ListedState::Maximized => zwlr_foreign_toplevel_handle_v1::State::Maximized,
        ListedState::Activated => zwlr_foreign_toplevel_handle_v1::State::Activated,
        ListedState::Fullscreen => zwlr_foreign_toplevel_handle_v1::State::Fullscreen,
    })
}

/// The bytes of `n` as `u32::to_ne_bytes` gives them: its memory representation, lowest or highest
/// byte first. Which of the two depends on the machine and is not stated.
#[verifier::external_body]
fn native_bytes(n: u32) -> (bytes: [u8; 4])
    ensures
        encodes(bytes@, n, true) || encodes(bytes@, n, false),
{
    n.to_ne_bytes()
}

/// The bytes of `n` in the order that `lowest_first` names.
fn encode(n: u32, lowest_first: bool) -> (bytes: [u8; 4])
    ensures
        encodes(bytes@, n, lowest_first),
{
    let a: u8 = (n % 0x100) as u8;
    let b: u8 = (n / 0x100 % 0x100) as u8;
    let c: u8 = (n / 0x1_0000 % 0x100) as u8;
    let d: u8 = (n / 0x100_0000) as u8;
    let bytes = if lowest_first {
        [a, b, c, d]
    } else {
        [d, c, b, a]
    };
    proof {
        if !lowest_first {
            assert(bytes@.reverse() =~= seq![a, b, c, d]);
        }
    }
    bytes
}

/// The states that can be listed, each encoded for this machine.
#[derive(Clone, Copy, Debug, PartialEq, Eq)]
pub struct StateCodes {
    pub maximized: [u8; 4],
    pub fullscreen: [u8; 4],
    pub activated: [u8; 4],
}

impl StateCodes {
    /// Whether every entry encodes its state in the order that `lowest_first` names.
    pub open spec fn in_order(self, lowest_first: bool) -> bool {
        &&& encodes(self.maximized@, ListedState::Maximized.code(), lowest_first)
        &&& encodes(self.fullscreen@, ListedState::Fullscreen.code(), lowest_first)
        &&& encodes(self.activated@, ListedState::Activated.code(), lowest_first)
    }

    /// Whether every entry encodes its state, all in one of the two byte orders that machines use.
    pub open spec fn wf(self) -> bool {
        self.in_order(true) || self.in_order(false)
    }

    /// The payload for a toplevel in `mode`.
    pub open spec fn payload(self, mode: WindowMode, focused: bool) -> Seq<u8> {
        (match mode {
            WindowMode::Maximized => self.maximized@,
            WindowMode::Fullscreen => self.fullscreen@,
            WindowMode::Floating => Seq::empty(),
        }) + (if focused {
            self.activated@
        } else {
            Seq::empty()
        })
    }

    /// The encodings in the byte order that `one`, the number one, is written in.
    pub fn like(one: [u8; 4]) -> (r: Self)
        requires
            encodes(one@, 1, true) || encodes(one@, 1, false),
        ensures
            encodes(one@, 1, true) ==> r.in_order(true),
            encodes(one@, 1, false) ==> r.in_order(false),
    {
        let lowest_first: bool = one[0] == 1;
        proof {
            assert(one@.reverse()[0] == one@[3]);
            assert(one@.reverse()[1] == one@[2]);
            assert(one@.reverse()[2] == one@[1]);
            assert(one@.reverse()[3] == one@[0]);
        }
        StateCodes {
            maximized: encode(state_code(ListedState::Maximized), lowest_first),
            fullscreen: encode(state_code(ListedState::Fullscreen), lowest_first),
            activated: encode(state_code(ListedState::Activated), lowest_first),
        }
    }

    /// The encodings that this machine uses: in the byte order that it has for the number one.
    pub fn native() -> (r: Self)
        ensures
            r.wf(),
    {
        Self::like(native_bytes(1))
    }
}

fn push_bytes(v: &mut Vec<u8>, bytes: [u8; 4])
    ensures
        final(v)@ == old(v)@ + bytes@,
{
    v.push(bytes[0]);
    v.push(bytes[1]);
    v.push(bytes[2]);
    v.push(bytes[3]);
    assert(v@ =~= old(v)@ + bytes@);
}

/// The wlr `state` payload for a toplevel in `mode` with or without the focus.
pub fn to_state_vec(codes: &StateCodes, mode: WindowMode, focused: bool) -> (states: Vec<u8>)
    ensures
        states@ == codes.payload(mode, focused),
{
    let mut states: Vec<u8> = Vec::new();
    match mode {
        WindowMode::Maximized => push_bytes(&mut states, codes.maximized),
        WindowMode::Fullscreen => push_bytes(&mut states, codes.fullscreen),
        WindowMode::Floating => {},
    }
    if focused {
        push_bytes(&mut states, codes.activated);
    }
    assert(states@ =~= codes.payload(mode, focused));
    states
}

/// Different modes and different focus give different payloads.
pub proof fn law_payload_tells_states_apart(
    codes: StateCodes,
    mode: WindowMode,
    focused: bool,
    other_mode: WindowMode,
    other_focused: bool,
)
    requires
        codes.wf(),
        codes.payload(mode, focused) == codes.payload(other_mode, other_focused),
    ensures
        mode == other_mode,
        focused == other_focused,
{
    let a = codes.payload(mode, focused);
    let b = codes.payload(other_mode, other_focused);
    assert(codes.maximized@ =~= a.take(4) || mode != WindowMode::Maximized);
    assert(codes.fullscreen@ =~= a.take(4) || mode != WindowMode::Fullscreen);
    assert(codes.maximized@ =~= b.take(4) || other_mode != WindowMode::Maximized);
    assert(codes.fullscreen@ =~= b.take(4) || other_mode != WindowMode::Fullscreen);
    assert(codes.activated@ =~= a.take(4) || mode != WindowMode::Floating || !focused);
    assert(codes.activated@ =~= b.take(4) || other_mode != WindowMode::Floating || !other_focused);
    let lowest_first = codes.in_order(true);
    lemma_first_digit(codes.maximized@, 0, lowest_first);
    lemma_first_digit(codes.fullscreen@, 3, lowest_first);
    lemma_first_digit(codes.activated@, 2, lowest_first);
}

/// A number below 256 has one byte other than zero at most, at one of the two ends.
proof fn lemma_first_digit(bytes: Seq<u8>, n: u32, lowest_first: bool)
    requires
        encodes(bytes, n, lowest_first),
        n < 256,
    ensures
        bytes[0] + bytes[3] == n,
{
    assert(bytes.reverse()[0] == bytes[3]);
    assert(bytes.reverse()[1] == bytes[2]);
    assert(bytes.reverse()[2] == bytes[1]);
    assert(bytes.reverse()[3] == bytes[0]);
}

} // verus!
