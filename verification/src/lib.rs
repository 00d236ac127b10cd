//! A keyboard-shortcut daemon library: chord recognition over a stream of
//! key press/release events, a hot-reloadable keybinding table, and
//! non-blocking command dispatch decisions.
//!
//! The library holds the logic of the daemon: tracking the set of pressed
//! keys, deriving a canonical chord string, parsing the keybinding
//! configuration text, swapping the active table atomically, debouncing
//! file-change notifications, and deciding which command a chord launches.
//! The surrounding process — reading devices, watching files, spawning
//! commands — hands this library plain values and acts on what it returns.

pub mod keysym;
pub mod strutil;
pub mod chord_state;
pub mod keybindings;
pub mod user_config;
pub mod command_runner;
pub mod keyboard_client;
pub mod watcher;
