//! Deciding which command a chord launches.
//!
//! The dispatcher's decision is pure: look the canonical chord string up
//! in the keybinding table and split the bound command line on
//! whitespace into a program and its arguments. A chord with no binding
//! is a successful no-op — no error, nothing to launch — and so is a
//! binding whose command line holds no token. What this module returns,
//! the surrounding process spawns detached, with output suppressed, and
//! hands to a reaper; dispatch itself never waits on the child.

use crate::keybindings::{Keybindings, KeybindingTable};
use crate::strutil::{split_tokens, tokens_spec};
use vstd::prelude::*;

verus! {

/// A command ready to launch: the program and its arguments, split from
/// the bound command line on whitespace.
pub struct CommandSpec {
    /// The program to run: the first whitespace-separated token.
    pub program: String,
    /// The remaining tokens, in order.
    pub args: Vec<String>,
}

/// What dispatching a chord against a table does: nothing when the chord
/// is unbound or its command line holds no token, else the launch of the
/// command line's first token with the rest as arguments.
pub open spec fn dispatch_spec(m: Map<Seq<char>, Seq<char>>, chord: Seq<char>) -> Option<
    (Seq<char>, Seq<Seq<char>>),
> {
    if m.contains_key(chord) && tokens_spec(m[chord]).len() > 0 {
        Some((tokens_spec(m[chord])[0], tokens_spec(m[chord]).skip(1)))
    } else {
        None
    }
}

/// Executes actions bound to chords, by deciding what to launch; the
/// launch itself is the surrounding process's part.
pub struct CommandRunner;

impl CommandRunner {
    /// Decides the action for a chord against one table: the command to
    /// launch, or nothing. A chord with no binding is a no-op, never an
    /// error; so is a binding bound to a blank command line.
    pub fn action_for(table: &KeybindingTable, keychord: &str) -> (r: Option<CommandSpec>)
        ensures
            !table@.contains_key(keychord@) ==> r is None,
            match r {
                Some(cmd) => dispatch_spec(table@, keychord@) == Some(
                    (cmd.program@, cmd.args.deep_view()),
                ),
                None => dispatch_spec(table@, keychord@) is None,
            },
    {
        let raw_command = match table.lookup(keychord) {
            Some(cmd) => cmd,
            None => {
                return None;
            },
        };
        Self::split_command(raw_command.as_str())
    }

    /// Splits a raw command line on whitespace into the program and its
    /// arguments. A line with no token means no command was configured:
    /// the result is nothing, a successful no-op.
    pub fn split_command(raw_command: &str) -> (r: Option<CommandSpec>)
        ensures
            match r {
                Some(cmd) => tokens_spec(raw_command@).len() > 0 && cmd.program@ == tokens_spec(
                    raw_command@,
                )[0] && cmd.args.deep_view() == tokens_spec(raw_command@).skip(1),
                None => tokens_spec(raw_command@).len() == 0,
            },
    {
        let mut parts = split_tokens(raw_command);
        if parts.len() == 0 {
            return None;
        }
        let ghost toks = tokens_spec(raw_command@);
        let program = parts.remove(0);
        assert(program@ == toks[0]);
        assert(parts.deep_view() =~= toks.skip(1)) by {
            assert(forall|m: int|
                0 <= m < parts@.len() ==> parts.deep_view()[m] == #[trigger] parts@[m]@);
        }
        Some(CommandSpec { program, args: parts })
    }

    /// Decides the action for a chord against the shared table: the
    /// [`Self::action_for`] answer of one consistent snapshot. A chord
    /// with no binding in that snapshot is a no-op.
    pub fn exec_action(keybindings: &Keybindings, keychord: &str) -> (r: Option<CommandSpec>)
        ensures
            exists|m: Map<Seq<char>, Seq<char>>|
                match r {
                    Some(cmd) => #[trigger] dispatch_spec(m, keychord@) == Some(
                        (cmd.program@, cmd.args.deep_view()),
                    ),
                    None => dispatch_spec(m, keychord@) is None,
                },
    {
        let raw_command = match keybindings.lookup(keychord) {
            Some(cmd) => cmd,
            None => {
                proof {
                    let m = Map::<Seq<char>, Seq<char>>::empty();
                    assert(!m.contains_key(keychord@));
                    assert(dispatch_spec(m, keychord@) is None);
                }
                return None;
            },
        };
        let ghost m0 = choose|m: Map<Seq<char>, Seq<char>>|
            m.contains_key(keychord@) && raw_command@ == m[keychord@];
        let r = Self::split_command(raw_command.as_str());
        proof {
            match r {
                Some(ref cmd) => {
                    assert(dispatch_spec(m0, keychord@) == Some(
                        (cmd.program@, cmd.args.deep_view()),
                    ));
                },
                None => {
                    assert(dispatch_spec(m0, keychord@) is None);
                },
            }
        }
        r
    }
}

} // verus!
