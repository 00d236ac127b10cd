//! The keybinding table: canonical chord strings mapped to command lines.
//!
//! A [`KeybindingTable`] is a plain association of chord strings with the
//! command lines they launch; when one chord is defined twice, the last
//! definition wins, and that policy is part of the contract. A
//! [`Keybindings`] wraps a table in a verified readers-writer lock so the
//! event loop can look chords up while a reload replaces the whole table:
//! a reader sees either the fully-old or the fully-new table, never a
//! mixture, and [`Keybindings::swap`] replaces the table in one step.

use crate::strutil::str_eq;
use vstd::prelude::*;
use vstd::rwlock::RwLock;

verus! {

/// The mapping that a sequence of key/command pairs defines: each pair
/// in turn binds its key, so a later pair overrides an earlier one with
/// the same key.
pub open spec fn pairs_map(s: Seq<(String, String)>) -> Map<Seq<char>, Seq<char>>
    decreases s.len(),
{
    if s.len() == 0 {
        Map::empty()
    } else {
        pairs_map(s.drop_last()).insert(s.last().0@, s.last().1@)
    }
}

/// When an index holds the key and no later index does, the map carries
/// that index's value for the key.
proof fn lemma_pairs_map_match(s: Seq<(String, String)>, k: Seq<char>, i: int)
    requires
        0 <= i < s.len(),
        s[i].0@ == k,
        forall|j: int| i < j < s.len() ==> #[trigger] s[j].0@ != k,
    ensures
        pairs_map(s).contains_key(k),
        pairs_map(s)[k] == s[i].1@,
    decreases s.len(),
{
    if i == s.len() - 1 {
    } else {
        assert(s.last().0@ != k);
        assert(forall|j: int|
            i < j < s.drop_last().len() ==> #[trigger] s.drop_last()[j].0@ != k);
        lemma_pairs_map_match(s.drop_last(), k, i);
    }
}

/// When no index holds the key, the map has no entry for it.
proof fn lemma_pairs_map_no_match(s: Seq<(String, String)>, k: Seq<char>)
    requires
        forall|j: int| 0 <= j < s.len() ==> #[trigger] s[j].0@ != k,
    ensures
        !pairs_map(s).contains_key(k),
    decreases s.len(),
{
    if s.len() > 0 {
        assert(s.last().0@ != k);
        lemma_pairs_map_no_match(s.drop_last(), k);
    }
}

/// A table of keybindings: canonical chord strings, each bound to the
/// command line it launches.
pub struct KeybindingTable {
    entries: Vec<(String, String)>,
}

impl KeybindingTable {
    /// The mapping from chord string to command line that the table
    /// defines.
    pub closed spec fn view(&self) -> Map<Seq<char>, Seq<char>> {
        pairs_map(self.entries@)
    }

    /// Creates an empty table.
    pub fn new() -> (r: Self)
        ensures
            r@ == Map::<Seq<char>, Seq<char>>::empty(),
    {
        KeybindingTable { entries: Vec::new() }
    }

    /// Binds a chord string to a command line. A chord bound before is
    /// re-bound: the last definition wins.
    pub fn insert(&mut self, key: String, value: String)
        ensures
            final(self)@ == old(self)@.insert(key@, value@),
    {
        let ghost s = self.entries@;
        let ghost kv = key@;
        let ghost vv = value@;
        self.entries.push((key, value));
        proof {
            assert(self.entries@.drop_last() =~= s);
            assert(self.entries@.last().0@ == kv);
            assert(self.entries@.last().1@ == vv);
        }
    }

    /// Looks a chord up and returns its command line, if the chord is
    /// bound.
    pub fn lookup(&self, chord: &str) -> (r: Option<String>)
        ensures
            match r {
                Some(v) => self@.contains_key(chord@) && v@ == self@[chord@],
                None => !self@.contains_key(chord@),
            },
    {
        let ghost s = self.entries@;
        let mut i: usize = self.entries.len();
        while i > 0
            invariant
                0 <= i <= s.len(),
                self.entries@ == s,
                forall|j: int| i <= j < s.len() ==> #[trigger] s[j].0@ != chord@,
            decreases i,
        {
            i = i - 1;
            if str_eq(self.entries[i].0.as_str(), chord) {
                proof {
                    lemma_pairs_map_match(s, chord@, i as int);
                }
                return Some(self.entries[i].1.clone());
            }
        }
        proof {
            lemma_pairs_map_no_match(s, chord@);
        }
        None
    }

    /// Whether the table binds no chord at all.
    pub fn is_empty(&self) -> (r: bool)
        ensures
            r == (self@ == Map::<Seq<char>, Seq<char>>::empty()),
    {
        proof {
            if self.entries@.len() > 0 {
                let k = self.entries@.last().0@;
                assert(self@.contains_key(k));
                assert(self@ != Map::<Seq<char>, Seq<char>>::empty()) by {
                    assert(!Map::<Seq<char>, Seq<char>>::empty().contains_key(k));
                }
            } else {
                assert(self@ =~= Map::<Seq<char>, Seq<char>>::empty());
            }
        }
        self.entries.len() == 0
    }
}

/// The predicate a [`Keybindings`] lock maintains of its table. Every
/// table is acceptable: the lock guards against torn reads, not against
/// any table content.
pub open spec fn any_table() -> spec_fn(KeybindingTable) -> bool {
    |t: KeybindingTable| true
}

/// The shared, hot-reloadable keybinding table: one table behind a
/// verified readers-writer lock. The event loop reads it on every
/// qualifying key press while the configuration watcher may replace it;
/// a reader always sees one whole table, never a partial mix of two.
pub struct Keybindings {
    lock: RwLock<KeybindingTable, spec_fn(KeybindingTable) -> bool>,
}

impl Keybindings {
    /// The lock was made with the [`any_table`] predicate: any table may
    /// be stored in it.
    #[verifier::type_invariant]
    closed spec fn wf(&self) -> bool {
        self.lock.pred() == any_table()
    }

    /// Creates a shared table with no bindings.
    pub fn new() -> (r: Self) {
        Keybindings { lock: RwLock::new(KeybindingTable::new(), Ghost(any_table())) }
    }

    /// Atomically replaces the entire active table. Readers observe
    /// either the fully-old or the fully-new table.
    pub fn swap(&self, new_table: KeybindingTable) {
        proof {
            use_type_invariant(self);
        }
        let (old_table, handle) = self.lock.acquire_write();
        handle.release_write(new_table);
    }

    /// Looks a chord up in the current table: the result is the
    /// [`KeybindingTable::lookup`] answer of one consistent snapshot of
    /// the table. The read never blocks writers indefinitely and never
    /// observes a half-updated table.
    pub fn lookup(&self, chord: &str) -> (r: Option<String>)
        ensures
            r is Some ==> exists|m: Map<Seq<char>, Seq<char>>|
                #[trigger] m.contains_key(chord@) && r.unwrap()@ == m[chord@],
            r is None ==> exists|m: Map<Seq<char>, Seq<char>>| !(#[trigger] m.contains_key(
                chord@,
            )),
    {
        let read_handle = self.lock.acquire_read();
        let table = read_handle.borrow();
        let r = table.lookup(chord);
        proof {
            let m = table@;
            assert(match r {
                Some(v) => m.contains_key(chord@) && v@ == m[chord@],
                None => !m.contains_key(chord@),
            });
        }
        read_handle.release_read();
        r
    }
}

} // verus!
