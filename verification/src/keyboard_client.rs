//! The event-handling core of the daemon.
//!
//! A [`KeyboardClient`] consumes key events one by one: a press enters
//! the key into the chord state and, when the key is no modifier and the
//! pressed set makes a chord, looks the chord up in the shared
//! keybinding table and decides the command to launch; a release takes
//! the key out and never launches anything. The events arrive from the
//! input layer already translated and resolved: the surrounding process
//! reads the devices, adds the keymap numbering offset to each hardware
//! keycode, resolves keysym and name, and hands the result in as a
//! [`PressedKey`].

use crate::chord_state::{
    chord_spec, remove_code, spec_add, trigger_names, ChordState, KeyInfo, PressedKey,
};
use crate::command_runner::{dispatch_spec, CommandRunner, CommandSpec};
use crate::keybindings::Keybindings;
use crate::keysym::is_modifier_sym;
use vstd::prelude::*;

verus! {

/// The offset between the hardware keycodes the input layer reports and
/// the numbering the keymap layer resolves.
pub const KEYCODE_OFFSET: u32 = 8;

/// Translates a hardware keycode to keymap numbering.
pub fn translate_keycode(raw: u32) -> (r: u32)
    requires
        raw <= u32::MAX - KEYCODE_OFFSET,
    ensures
        r == raw + KEYCODE_OFFSET,
{
    raw + KEYCODE_OFFSET
}

/// Consumes key events, tracks the chord state, and decides dispatches.
pub struct KeyboardClient {
    chord_state: ChordState,
}

impl KeyboardClient {
    /// The keys currently held down, in canonical keycode order.
    pub closed spec fn pressed(&self) -> Seq<KeyInfo> {
        self.chord_state@
    }

    /// The client's chord state is well formed.
    pub closed spec fn wf(&self) -> bool {
        self.chord_state.wf()
    }

    /// Creates a client with no key pressed.
    pub fn new() -> (r: Self)
        ensures
            r.wf(),
            r.pressed() == Seq::<KeyInfo>::empty(),
    {
        KeyboardClient { chord_state: ChordState::new() }
    }

    /// Handles a single key event.
    ///
    /// A press enters the key into the pressed set. When the pressed key
    /// is no modifier and the set now holds exactly one non-modifier —
    /// that key — the canonical chord is looked up in the shared table
    /// and the bound command, if there is one, is returned for the
    /// caller to launch. A modifier press, an incomplete or ambiguous
    /// set, an unbound chord and a blank command line all decide
    /// nothing, and no release ever triggers a dispatch.
    pub fn keyboard_event_handler(
        &mut self,
        key: PressedKey,
        is_press: bool,
        keybindings: &Keybindings,
    ) -> (r: Option<CommandSpec>)
        requires
            old(self).wf(),
        ensures
            final(self).wf(),
            final(self).pressed() == if is_press {
                spec_add(old(self).pressed(), key@)
            } else {
                remove_code(old(self).pressed(), key.code)
            },
            !is_press ==> r is None,
            is_press && is_modifier_sym(key.sym) ==> r is None,
            is_press && !is_modifier_sym(key.sym) && chord_spec(final(self).pressed()) is None
                ==> r is None,
            match r {
                Some(cmd) => {
                    &&& is_press
                    &&& !is_modifier_sym(key.sym)
                    &&& chord_spec(final(self).pressed()) is Some
                    &&& exists|m: Map<Seq<char>, Seq<char>>|
                        #[trigger] dispatch_spec(m, chord_spec(final(self).pressed()).unwrap())
                            == Some((cmd.program@, cmd.args.deep_view()))
                },
                None => true,
            },
    {
        if is_press {
            let is_mod = ChordState::is_modifier_keysym(key.sym);
            self.chord_state.add_key(key);

            // A non-modifier press may complete a chord.
            if !is_mod {
                if let Some(keychord) = self.chord_state.get_keychord() {
                    let r = CommandRunner::exec_action(keybindings, keychord.as_str());
                    proof {
                        if r is Some {
                            let cmd = r.unwrap();
                            let m = choose|m: Map<Seq<char>, Seq<char>>|
                                #[trigger] dispatch_spec(m, keychord@) == Some(
                                    (cmd.program@, cmd.args.deep_view()),
                                );
                            assert(chord_spec(self.chord_state@).unwrap() == keychord@);
                        }
                    }
                    return r;
                }
            }
            None
        } else {
            self.chord_state.remove_key(key.code);
            None
        }
    }
}

} // verus!
