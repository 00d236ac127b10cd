//! Classification of key symbols.
//!
//! A key symbol (keysym) is the layout-resolved numeric identity of a key,
//! as produced by the keymap-resolution layer. A fixed range of keysyms
//! denotes modifier keys: both Shift keys, both Control keys, both Alt,
//! Meta, Super and Hyper keys, Caps Lock and Shift Lock. A chord consists
//! of any number of modifiers plus exactly one non-modifier trigger key,
//! so this classification decides which press events may complete a chord.

use vstd::prelude::*;

verus! {

/// Keysym value of the left Shift key.
pub const KEYSYM_SHIFT_L: u32 = 0xffe1;
/// Keysym value of the right Shift key.
pub const KEYSYM_SHIFT_R: u32 = 0xffe2;
/// Keysym value of the left Control key.
pub const KEYSYM_CONTROL_L: u32 = 0xffe3;
/// Keysym value of the right Control key.
pub const KEYSYM_CONTROL_R: u32 = 0xffe4;
/// Keysym value of Caps Lock.
pub const KEYSYM_CAPS_LOCK: u32 = 0xffe5;
/// Keysym value of Shift Lock.
pub const KEYSYM_SHIFT_LOCK: u32 = 0xffe6;
/// Keysym value of the left Meta key.
pub const KEYSYM_META_L: u32 = 0xffe7;
/// Keysym value of the right Meta key.
pub const KEYSYM_META_R: u32 = 0xffe8;
/// Keysym value of the left Alt key.
pub const KEYSYM_ALT_L: u32 = 0xffe9;
/// Keysym value of the right Alt key.
pub const KEYSYM_ALT_R: u32 = 0xffea;
/// Keysym value of the left Super key.
pub const KEYSYM_SUPER_L: u32 = 0xffeb;
/// Keysym value of the right Super key.
pub const KEYSYM_SUPER_R: u32 = 0xffec;
/// Keysym value of the left Hyper key.
pub const KEYSYM_HYPER_L: u32 = 0xffed;
/// Keysym value of the right Hyper key.
pub const KEYSYM_HYPER_R: u32 = 0xffee;

/// A keysym is a modifier exactly when it is one of the fourteen modifier
/// keysyms: the Shift, Control, Alt, Meta, Super and Hyper pairs, Caps Lock
/// and Shift Lock. Those fourteen values are contiguous.
pub open spec fn is_modifier_sym(sym: u32) -> bool {
    KEYSYM_SHIFT_L <= sym <= KEYSYM_HYPER_R
}

} // verus!
