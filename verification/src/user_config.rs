//! Parsing and reloading of the user's keybinding configuration.
//!
//! The configuration is line-oriented text: blank lines and lines whose
//! first non-blank character is `#` are skipped; every other line must be
//! `chord-spec: command-line`, split at the first colon. The chord side
//! is normalized — whitespace removed, `+` turned into spaces — so that
//! it matches the canonical chord strings the chord state derives. The
//! command side is trimmed and kept verbatim. A line with no colon, an
//! empty chord side or an empty command side is a parse error carrying
//! the 1-based line number and the offending line.
//!
//! A reload parses the whole text first and swaps the active table only
//! on success: a broken edit never blanks out the working bindings.

use crate::keybindings::{KeybindingTable, Keybindings};
use crate::strutil::{
    find_char, first_index_of, lemma_first_index_of, lines_spec, normalize_key_spec, split_lines,
    trim, trim_spec,
};
use vstd::prelude::*;

verus! {

/// A malformed configuration line: the 1-based line number and the
/// trimmed text of the line.
#[derive(Debug)]
pub struct ConfigParseError {
    /// 1-based number of the offending line.
    pub line: usize,
    /// The offending line, trimmed of surrounding whitespace.
    pub text: String,
}

impl ConfigParseError {
    /// The error as one line of text, naming the line number and the
    /// offending line.
    pub fn message(&self) -> (r: String)
        ensures
            r@ == "Invalid key-value pair on line "@ + crate::strutil::decimal_digits(
                self.line as nat,
            ) + ": '"@ + self.text@ + "'"@,
    {
        let mut r = String::new();
        r.append("Invalid key-value pair on line ");
        let digits = crate::strutil::format_usize(self.line);
        r.append(digits.as_str());
        r.append(": '");
        r.append(self.text.as_str());
        r.append("'");
        proof {
            assert(r@ =~= "Invalid key-value pair on line "@ + crate::strutil::decimal_digits(
                self.line as nat,
            ) + ": '"@ + self.text@ + "'"@);
        }
        r
    }
}

/// What one configuration line means: nothing (blank or comment), one
/// key/command binding, or a malformed line.
pub enum LineOutcome {
    Skip,
    Entry(Seq<char>, Seq<char>),
    Bad,
}

/// The meaning of one configuration line. The line is trimmed; a blank
/// or `#`-led line is skipped; the rest must split at the first colon
/// into a non-empty normalized chord and a non-empty trimmed command.
pub open spec fn parse_line_spec(l: Seq<char>) -> LineOutcome {
    let t = trim_spec(l);
    if t.len() == 0 || t[0] == '#' {
        LineOutcome::Skip
    } else {
        let ci = first_index_of(t, ':');
        if ci == t.len() {
            LineOutcome::Bad
        } else {
            let k = normalize_key_spec(t.subrange(0, ci));
            let v = trim_spec(t.skip(ci + 1));
            if k.len() == 0 || v.len() == 0 {
                LineOutcome::Bad
            } else {
                LineOutcome::Entry(k, v)
            }
        }
    }
}

/// The mapping a sequence of lines defines: each binding line in turn
/// binds its chord, so a later line overrides an earlier one with the
/// same chord.
pub open spec fn config_map(ls: Seq<Seq<char>>) -> Map<Seq<char>, Seq<char>>
    decreases ls.len(),
{
    if ls.len() == 0 {
        Map::empty()
    } else {
        let m = config_map(ls.drop_last());
        match parse_line_spec(ls.last()) {
            LineOutcome::Entry(k, v) => m.insert(k, v),
            _ => m,
        }
    }
}

/// The index of the first malformed line, or the number of lines when
/// every line is well formed.
pub open spec fn first_bad(ls: Seq<Seq<char>>) -> int
    decreases ls.len(),
{
    if ls.len() == 0 {
        0
    } else if parse_line_spec(ls[0]) is Bad {
        0
    } else {
        1 + first_bad(ls.drop_first())
    }
}

/// The first-malformed index is an index into the lines, no line before
/// it is malformed, and the line at it (if any) is.
pub proof fn lemma_first_bad(ls: Seq<Seq<char>>)
    ensures
        0 <= first_bad(ls) <= ls.len(),
        forall|j: int| 0 <= j < first_bad(ls) ==> !(parse_line_spec(#[trigger] ls[j]) is Bad),
        first_bad(ls) < ls.len() ==> parse_line_spec(ls[first_bad(ls)]) is Bad,
    decreases ls.len(),
{
    if ls.len() > 0 && !(parse_line_spec(ls[0]) is Bad) {
        lemma_first_bad(ls.drop_first());
        assert forall|j: int| 0 <= j < first_bad(ls) implies !(parse_line_spec(
            #[trigger] ls[j],
        ) is Bad) by {
            if j > 0 {
                assert(ls[j] == ls.drop_first()[j - 1]);
            }
        }
    }
}

/// Text in which every line is blank or a comment parses to the empty
/// table, and never to an error — whatever the lines are.
pub proof fn lemma_skipped_lines_make_empty_table(ls: Seq<Seq<char>>)
    requires
        forall|i: int| 0 <= i < ls.len() ==> parse_line_spec(#[trigger] ls[i]) is Skip,
    ensures
        first_bad(ls) == ls.len(),
        config_map(ls) == Map::<Seq<char>, Seq<char>>::empty(),
    decreases ls.len(),
{
    lemma_first_bad(ls);
    if first_bad(ls) < ls.len() {
        assert(parse_line_spec(ls[first_bad(ls)]) is Bad);
    }
    if ls.len() == 0 {
        assert(config_map(ls) =~= Map::<Seq<char>, Seq<char>>::empty());
    } else {
        assert(forall|i: int|
            0 <= i < ls.drop_last().len() ==> parse_line_spec(
                #[trigger] ls.drop_last()[i],
            ) is Skip) by {
            assert(forall|i: int|
                0 <= i < ls.drop_last().len() ==> #[trigger] ls.drop_last()[i] == ls[i]);
        }
        lemma_skipped_lines_make_empty_table(ls.drop_last());
        assert(parse_line_spec(ls.last()) is Skip);
    }
}

/// Loading and reloading of the keybinding configuration.
pub struct UserConfig;

impl UserConfig {
    /// Parses one configuration line.
    ///
    /// Returns nothing for a line that binds nothing (blank or
    /// comment), the chord/command pair for a binding line, and an
    /// error naming the line for a malformed one. `line_num` is the
    /// 0-based index of the line in its file.
    pub fn parse_line(line: &str, line_num: usize) -> (r: Option<
        Result<(String, String), ConfigParseError>,
    >)
        requires
            line_num < usize::MAX,
        ensures
            match r {
                None => parse_line_spec(line@) is Skip,
                Some(Ok((k, v))) => parse_line_spec(line@) == LineOutcome::Entry(k@, v@),
                Some(Err(e)) => parse_line_spec(line@) is Bad && e.line == line_num + 1
                    && e.text@ == trim_spec(line@),
            },
    {
        let t = trim(line);
        let t_len = t.unicode_len();

        // Ignore whitespace and comments.
        if t_len == 0 || t.get_char(0) == '#' {
            return None;
        }

        // Split at the first colon only.
        let colon = find_char(t, ':');
        proof {
            lemma_first_index_of(t@, ':');
        }
        match colon {
            None => Some(
                Err(ConfigParseError { line: line_num + 1, text: t.to_owned() }),
            ),
            Some(ci) => {
                // Normalize the chord side, trim the command side.
                let key_part = t.substring_char(0, ci);
                let value_part = t.substring_char(ci + 1, t_len);
                let key = crate::strutil::normalize_key(key_part);
                let value = trim(value_part);
                if key.as_str().is_empty() || value.is_empty() {
                    Some(Err(ConfigParseError { line: line_num + 1, text: t.to_owned() }))
                } else {
                    Some(Ok((key, value.to_owned())))
                }
            },
        }
    }

    /// Parses the whole configuration text into a keybinding table.
    ///
    /// Empty text, and text of only blank and comment lines, give the
    /// empty table — not an error. A malformed line gives the error for
    /// the first such line, counted from 1. When one chord is bound
    /// twice, the last binding wins.
    pub fn parse_config(content: &str) -> (r: Result<KeybindingTable, ConfigParseError>)
        ensures
            ({
                let ls = lines_spec(content@);
                match r {
                    Ok(t) => first_bad(ls) == ls.len() && t@ == config_map(ls),
                    Err(e) => first_bad(ls) < ls.len() && e.line == first_bad(ls) + 1
                        && e.text@ == trim_spec(ls[first_bad(ls)]),
                }
            }),
    {
        let lines = split_lines(content);
        let ghost ls = lines_spec(content@);
        proof {
            lemma_first_bad(ls);
        }
        let mut table = KeybindingTable::new();
        let mut i: usize = 0;
        proof {
            assert(ls.subrange(0, 0) =~= Seq::<Seq<char>>::empty());
            assert(table@ =~= config_map(ls.subrange(0, 0)));
        }
        while i < lines.len()
            invariant
                0 <= i <= ls.len(),
                ls == lines_spec(content@),
                lines.deep_view() == ls,
                lines@.len() == ls.len(),
                table@ == config_map(ls.subrange(0, i as int)),
                forall|j: int| 0 <= j < i ==> !(parse_line_spec(#[trigger] ls[j]) is Bad),
            decreases ls.len() - i,
        {
            assert(lines@[i as int]@ == ls[i as int]);
            proof {
                let pre = ls.subrange(0, i as int);
                let cur = ls.subrange(0, i as int + 1);
                assert(cur.drop_last() =~= pre);
                assert(cur.last() == ls[i as int]);
            }
            match Self::parse_line(lines[i].as_str(), i) {
                None => {},
                Some(Ok((key, value))) => {
                    table.insert(key, value);
                },
                Some(Err(e)) => {
                    proof {
                        lemma_first_bad(ls);
                        let fb = first_bad(ls);
                        if fb < i as int {
                            assert(!(parse_line_spec(ls[fb]) is Bad));
                        }
                        if fb > i as int {
                            assert(!(parse_line_spec(ls[i as int]) is Bad));
                        }
                    }
                    return Err(e);
                },
            }
            i = i + 1;
        }
        proof {
            assert(ls.subrange(0, ls.len() as int) =~= ls);
            lemma_first_bad(ls);
            let fb = first_bad(ls);
            if fb < ls.len() {
                assert(!(parse_line_spec(ls[fb]) is Bad));
            }
        }
        Ok(table)
    }

    /// Re-parses configuration text into a table held by the caller.
    ///
    /// On success the table is replaced wholesale by the parsed
    /// bindings. On a parse error the table is left fully intact: a
    /// broken edit never costs the working bindings.
    pub fn reload_table(table: &mut KeybindingTable, content: &str) -> (r: Result<
        (),
        ConfigParseError,
    >)
        ensures
            ({
                let ls = lines_spec(content@);
                match r {
                    Ok(()) => first_bad(ls) == ls.len() && final(table)@ == config_map(ls),
                    Err(e) => *final(table) == *old(table) && first_bad(ls) < ls.len()
                        && e.line == first_bad(ls) + 1 && e.text@ == trim_spec(
                        ls[first_bad(ls)],
                    ),
                }
            }),
    {
        match Self::parse_config(content) {
            Ok(new_table) => {
                *table = new_table;
                Ok(())
            },
            Err(e) => Err(e),
        }
    }

    /// Re-parses configuration text and swaps the shared table on
    /// success. On a parse error the active table is not touched, and
    /// the error names the first malformed line.
    pub fn reload_config(content: &str, keybindings: &Keybindings) -> (r: Result<
        (),
        ConfigParseError,
    >)
        ensures
            ({
                let ls = lines_spec(content@);
                match r {
                    Ok(()) => first_bad(ls) == ls.len(),
                    Err(e) => first_bad(ls) < ls.len() && e.line == first_bad(ls) + 1
                        && e.text@ == trim_spec(ls[first_bad(ls)]),
                }
            }),
    {
        match Self::parse_config(content) {
            Ok(new_table) => {
                keybindings.swap(new_table);
                Ok(())
            },
            Err(e) => Err(e),
        }
    }
}

} // verus!
