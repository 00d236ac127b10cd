//! Tracking of currently pressed keys and chord derivation.
//!
//! A [`ChordState`] holds the set of keys that are depressed right now,
//! each with its layout-resolved keysym and symbolic name. Keys are
//! identified by their hardware keycode: pressing a key that is already
//! down changes nothing, and the set is capped at a fixed capacity so
//! that lost release events cannot grow it without bound. From the
//! pressed set a canonical chord string is derived on demand: the
//! alphabetically sorted modifier names followed by the single
//! non-modifier name, joined by spaces. The chord exists exactly when
//! one non-modifier key is down.

use crate::keysym::{
    is_modifier_sym, KEYSYM_ALT_L, KEYSYM_ALT_R, KEYSYM_CAPS_LOCK, KEYSYM_CONTROL_L,
    KEYSYM_CONTROL_R, KEYSYM_HYPER_L, KEYSYM_HYPER_R, KEYSYM_META_L, KEYSYM_META_R,
    KEYSYM_SHIFT_L, KEYSYM_SHIFT_LOCK, KEYSYM_SHIFT_R, KEYSYM_SUPER_L, KEYSYM_SUPER_R,
};
use crate::strutil::{join_spaced, join_with_spaces, lex_le, lex_le_str};
use vstd::prelude::*;
use vstd::multiset::Multiset;
use vstd::seq_lib::group_seq_properties;

verus! {

/// The most keys the pressed set will hold at once. A physical keyboard
/// cannot sustain more simultaneous presses; past this bound new presses
/// are dropped rather than tracked.
pub const MAX_PRESSED_KEYS: usize = 16;

/// What the state records of one pressed key: the hardware keycode, the
/// layout-resolved keysym, and the keysym's symbolic name.
#[verifier::ext_equal]
pub struct KeyInfo {
    pub code: u32,
    pub sym: u32,
    pub name: Seq<char>,
}

/// One pressed key as the event source reports it: the hardware keycode
/// with the keysym and symbolic name the keymap layer resolved for it.
pub struct PressedKey {
    /// Hardware keycode, already translated to keymap numbering.
    pub code: u32,
    /// Layout-resolved keysym of the key.
    pub sym: u32,
    /// Symbolic name of the keysym, as configuration files spell it.
    pub name: String,
}

impl View for PressedKey {
    type V = KeyInfo;

    open spec fn view(&self) -> KeyInfo {
        KeyInfo { code: self.code, sym: self.sym, name: self.name@ }
    }
}

/// Manages the state of currently pressed keys for chord detection.
pub struct ChordState {
    pressed: Vec<PressedKey>,
}

/// The entries, ordered by strictly increasing keycode. Strict order
/// makes the sequence a canonical image of the pressed-key set: two
/// states that hold the same keys are equal.
pub open spec fn codes_sorted(s: Seq<KeyInfo>) -> bool {
    forall|i: int, j: int| 0 <= i < j < s.len() ==> s[i].code < s[j].code
}

/// Whether some entry carries the given keycode.
pub open spec fn has_code(s: Seq<KeyInfo>, code: u32) -> bool {
    exists|i: int| 0 <= i < s.len() && s[i].code == code
}

/// The sequence with the entry inserted at its sorted position.
pub open spec fn insert_sorted(s: Seq<KeyInfo>, k: KeyInfo) -> Seq<KeyInfo>
    decreases s.len(),
{
    if s.len() == 0 {
        seq![k]
    } else if k.code < s[0].code {
        seq![k] + s
    } else {
        seq![s[0]] + insert_sorted(s.drop_first(), k)
    }
}

/// The sequence without the entry that carries the given keycode.
pub open spec fn remove_code(s: Seq<KeyInfo>, code: u32) -> Seq<KeyInfo>
    decreases s.len(),
{
    if s.len() == 0 {
        s
    } else if s[0].code == code {
        s.drop_first()
    } else {
        seq![s[0]] + remove_code(s.drop_first(), code)
    }
}

/// What one press does to the pressed set: nothing when the set is full
/// or the key is already down, else a sorted insert.
pub open spec fn spec_add(s: Seq<KeyInfo>, k: KeyInfo) -> Seq<KeyInfo> {
    if s.len() >= MAX_PRESSED_KEYS || has_code(s, k.code) {
        s
    } else {
        insert_sorted(s, k)
    }
}

/// Inserting at the sorted position of a sorted sequence means splitting
/// it at the first index whose code is not below the new one.
proof fn lemma_insert_sorted_at(s: Seq<KeyInfo>, k: KeyInfo, i: int)
    requires
        0 <= i <= s.len(),
        forall|j: int| 0 <= j < i ==> s[j].code < k.code,
        i < s.len() ==> s[i].code > k.code,
    ensures
        insert_sorted(s, k) == s.subrange(0, i) + seq![k] + s.skip(i),
    decreases i,
{
    if s.len() == 0 {
        assert(insert_sorted(s, k) =~= s.subrange(0, i) + seq![k] + s.skip(i));
    } else if i == 0 {
        assert(k.code < s[0].code);
        assert(insert_sorted(s, k) =~= s.subrange(0, 0) + seq![k] + s.skip(0));
    } else {
        assert(s[0].code < k.code);
        assert(forall|j: int| 0 <= j < i - 1 ==> s.drop_first()[j].code < k.code) by {
            assert(forall|j: int|
                0 <= j < i - 1 ==> #[trigger] s.drop_first()[j] == s[j + 1]);
        }
        assert(i - 1 < s.drop_first().len() ==> s.drop_first()[i - 1].code > k.code);
        lemma_insert_sorted_at(s.drop_first(), k, i - 1);
        assert(insert_sorted(s, k) =~= s.subrange(0, i) + seq![k] + s.skip(i)) by {
            assert(s.drop_first().subrange(0, i - 1) =~= s.subrange(0, i).drop_first());
            assert(s.drop_first().skip(i - 1) =~= s.skip(i));
        }
    }
}

/// A sorted insert keeps the codes sorted, keeps the length bound, and
/// adds exactly the new entry.
proof fn lemma_insert_sorted_props(s: Seq<KeyInfo>, k: KeyInfo)
    requires
        codes_sorted(s),
        !has_code(s, k.code),
    ensures
        codes_sorted(insert_sorted(s, k)),
        insert_sorted(s, k).len() == s.len() + 1,
        insert_sorted(s, k).to_multiset() == s.to_multiset().insert(k),
        forall|c: u32| has_code(insert_sorted(s, k), c) <==> (has_code(s, c) || c == k.code),
    decreases s.len(),
{
    broadcast use group_seq_properties;

    if s.len() == 0 {
        assert(insert_sorted(s, k) =~= seq![k]);
        assert(seq![k] =~= Seq::<KeyInfo>::empty().push(k));
        assert(insert_sorted(s, k).to_multiset() =~= s.to_multiset().insert(k));
        assert forall|c: u32| has_code(insert_sorted(s, k), c) implies (has_code(s, c) || c
            == k.code) by {
            let i = choose|i: int|
                0 <= i < insert_sorted(s, k).len() && insert_sorted(s, k)[i].code == c;
            assert(insert_sorted(s, k)[i] == k);
        }
        assert(has_code(insert_sorted(s, k), k.code)) by {
            assert(insert_sorted(s, k)[0].code == k.code);
        }
    } else if k.code < s[0].code {
        let r = seq![k] + s;
        assert(insert_sorted(s, k) == r);
        assert(r.len() == s.len() + 1);
        assert(codes_sorted(r)) by {
            assert(forall|j: int| 1 <= j < r.len() ==> #[trigger] r[j] == s[j - 1]);
        }
        assert(r.to_multiset() == s.to_multiset().insert(k)) by {
            assert(seq![k].to_multiset() =~= Multiset::<KeyInfo>::empty().insert(k));
            vstd::seq_lib::lemma_multiset_commutative(seq![k], s);
            assert(r.to_multiset() =~= s.to_multiset().insert(k));
        }
        assert forall|c: u32| has_code(r, c) implies (has_code(s, c) || c == k.code) by {
            let i = choose|i: int| 0 <= i < r.len() && r[i].code == c;
            if i > 0 {
                assert(r[i] == s[i - 1]);
            }
        }
        assert(has_code(r, k.code)) by {
            assert(r[0].code == k.code);
        }
        assert forall|c: u32| has_code(s, c) implies has_code(r, c) by {
            let i = choose|i: int| 0 <= i < s.len() && s[i].code == c;
            assert(r[i + 1] == s[i]);
        }
    } else {
        let tail = s.drop_first();
        assert(!has_code(tail, k.code)) by {
            if has_code(tail, k.code) {
                let i = choose|i: int| 0 <= i < tail.len() && tail[i].code == k.code;
                assert(s[i + 1] == tail[i]);
            }
        }
        assert(s[0].code != k.code) by {
            if s[0].code == k.code {
                assert(has_code(s, k.code));
            }
        }
        assert(k.code > s[0].code);
        assert(codes_sorted(tail)) by {
            assert(forall|j: int| 0 <= j < tail.len() ==> #[trigger] tail[j] == s[j + 1]);
        }
        lemma_insert_sorted_props(tail, k);
        let rt = insert_sorted(tail, k);
        let r = seq![s[0]] + rt;
        assert(insert_sorted(s, k) == r);
        assert(codes_sorted(r)) by {
            assert(forall|j: int| 1 <= j < r.len() ==> #[trigger] r[j] == rt[j - 1]);
            assert forall|j: int| 1 <= j < r.len() implies r[0].code < #[trigger] r[j].code by {
                assert(has_code(rt, rt[j - 1].code));
                assert(has_code(tail, rt[j - 1].code) || rt[j - 1].code == k.code);
                if has_code(tail, rt[j - 1].code) {
                    let m = choose|m: int|
                        0 <= m < tail.len() && tail[m].code == rt[j - 1].code;
                    assert(tail[m] == s[m + 1]);
                }
            }
        }
        assert(r.to_multiset() == s.to_multiset().insert(k)) by {
            vstd::seq_lib::lemma_multiset_commutative(seq![s[0]], rt);
            vstd::seq_lib::lemma_multiset_commutative(seq![s[0]], tail);
            assert(seq![s[0]] + tail =~= s);
            assert(r.to_multiset() =~= s.to_multiset().insert(k));
        }
        assert forall|c: u32| has_code(r, c) implies (has_code(s, c) || c == k.code) by {
            let i = choose|i: int| 0 <= i < r.len() && r[i].code == c;
            if i > 0 {
                assert(r[i] == rt[i - 1]);
                assert(has_code(rt, c));
                if has_code(tail, c) {
                    let m = choose|m: int| 0 <= m < tail.len() && tail[m].code == c;
                    assert(s[m + 1] == tail[m]);
                }
            }
        }
        assert(has_code(r, k.code)) by {
            assert(has_code(rt, k.code));
            let i = choose|i: int| 0 <= i < rt.len() && rt[i].code == k.code;
            assert(r[i + 1] == rt[i]);
        }
        assert forall|c: u32| has_code(s, c) implies has_code(r, c) by {
            let i = choose|i: int| 0 <= i < s.len() && s[i].code == c;
            if i == 0 {
                assert(r[0].code == c);
            } else {
                assert(tail[i - 1] == s[i]);
                assert(has_code(tail, c));
                assert(has_code(rt, c));
                let m = choose|m: int| 0 <= m < rt.len() && rt[m].code == c;
                assert(r[m + 1] == rt[m]);
            }
        }
    }
}

impl ChordState {
    /// The pressed keys, ordered by keycode.
    pub closed spec fn view(&self) -> Seq<KeyInfo> {
        self.pressed@.map_values(|k: PressedKey| k@)
    }

    /// The state is well formed: entries are ordered by strictly
    /// increasing keycode (so no key appears twice) and there are at
    /// most [`MAX_PRESSED_KEYS`] of them.
    pub open spec fn wf(&self) -> bool {
        &&& codes_sorted(self@)
        &&& self@.len() <= MAX_PRESSED_KEYS
    }

    /// Creates a new, empty `ChordState`.
    pub fn new() -> (r: Self)
        ensures
            r.wf(),
            r@ == Seq::<KeyInfo>::empty(),
    {
        let r = ChordState { pressed: Vec::new() };
        assert(r@ =~= Seq::<KeyInfo>::empty());
        r
    }

    /// Adds a key to the set of currently pressed keys. Pressing a key
    /// that is already down changes nothing. When the set is full the
    /// press is dropped and `true` is returned so the caller can log the
    /// condition; the daemon itself carries on.
    pub fn add_key(&mut self, key: PressedKey) -> (dropped: bool)
        requires
            old(self).wf(),
        ensures
            final(self).wf(),
            final(self)@ == spec_add(old(self)@, key@),
            dropped == (old(self)@.len() >= MAX_PRESSED_KEYS && !has_code(
                old(self)@,
                key.code,
            )),
    {
        let ghost s = self@;
        let ghost k = key@;
        // Find the sorted position of the keycode, or the key itself.
        let mut i: usize = 0;
        while i < self.pressed.len() && self.pressed[i].code < key.code
            invariant
                0 <= i <= self.pressed@.len(),
                self@ == s,
                key@ == k,
                forall|j: int| 0 <= j < i ==> self@[j].code < key.code,
            decreases self.pressed@.len() - i,
        {
            assert(self@[i as int] == self.pressed@[i as int]@);
            i = i + 1;
        }
        assert(i < self.pressed@.len() ==> self@[i as int].code >= key.code) by {
            if i < self.pressed@.len() {
                assert(self@[i as int] == self.pressed@[i as int]@);
            }
        }
        if i < self.pressed.len() && self.pressed[i].code == key.code {
            // Already pressed: nothing changes.
            assert(self@[i as int].code == key.code);
            assert(has_code(s, k.code));
            return false;
        }
        assert(!has_code(s, k.code)) by {
            if has_code(s, k.code) {
                let j = choose|j: int| 0 <= j < s.len() && s[j].code == k.code;
            }
        }
        if self.pressed.len() >= MAX_PRESSED_KEYS {
            // The set is full: drop the press.
            return true;
        }
        proof {
            if i < self.pressed@.len() {
                assert(s[i as int].code != k.code);
            }
            lemma_insert_sorted_at(s, k, i as int);
            lemma_insert_sorted_props(s, k);
        }
        self.pressed.insert(i, key);
        assert(self@ =~= s.subrange(0, i as int) + seq![k] + s.skip(i as int)) by {
            assert(forall|j: int|
                0 <= j < self@.len() ==> self@[j] == #[trigger] self.pressed@[j]@);
        }
        false
    }

    /// Removes a key from the set of currently pressed keys. Removing a
    /// key that is not down is a no-op.
    pub fn remove_key(&mut self, code: u32)
        requires
            old(self).wf(),
        ensures
            final(self).wf(),
            final(self)@ == remove_code(old(self)@, code),
    {
        let ghost s = self@;
        proof {
            lemma_remove_code_props(s, code);
        }
        let mut i: usize = 0;
        while i < self.pressed.len() && self.pressed[i].code != code
            invariant
                0 <= i <= self.pressed@.len(),
                self@ == s,
                forall|j: int| 0 <= j < i ==> self@[j].code != code,
            decreases self.pressed@.len() - i,
        {
            assert(self@[i as int] == self.pressed@[i as int]@);
            i = i + 1;
        }
        if i < self.pressed.len() {
            assert(self@[i as int] == self.pressed@[i as int]@);
            assert(self@[i as int].code == code);
            proof {
                lemma_remove_code_at(s, code, i as int);
            }
            self.pressed.remove(i);
            assert(self@ =~= s.subrange(0, i as int) + s.skip(i as int + 1)) by {
                assert(forall|j: int|
                    0 <= j < self@.len() ==> self@[j] == #[trigger] self.pressed@[j]@);
            }
        } else {
            proof {
                lemma_remove_code_absent(s, code);
            }
        }
    }

    /// Derives the canonical chord of the pressed set, if there is one.
    ///
    /// A chord exists exactly when one non-modifier key is down, with
    /// any number of modifiers (none is allowed: a bare key is a valid
    /// chord). The string is canonical: the modifier names sorted
    /// alphabetically, then the non-modifier name, joined by single
    /// spaces — the same form the configuration parser produces, so
    /// press order never matters for lookup.
    pub fn get_keychord(&self) -> (r: Option<String>)
        ensures
            r is Some <==> trigger_names(self@).len() == 1,
            chord_spec(self@) == match r {
                Some(c) => Some(c@),
                None => None::<Seq<char>>,
            },
    {
        let mut mods: Vec<String> = Vec::new();
        let mut trigs: Vec<String> = Vec::new();
        let ghost s = self@;
        let mut i: usize = 0;
        proof {
            reveal(Seq::filter);
            assert(s.subrange(0, 0) =~= Seq::<KeyInfo>::empty());
            assert(mods.deep_view() =~= modifier_names(s.subrange(0, 0)));
            assert(trigs.deep_view() =~= trigger_names(s.subrange(0, 0)));
        }
        while i < self.pressed.len()
            invariant
                0 <= i <= self.pressed@.len(),
                self@ == s,
                mods.deep_view() == modifier_names(s.subrange(0, i as int)),
                trigs.deep_view() == trigger_names(s.subrange(0, i as int)),
            decreases self.pressed@.len() - i,
        {
            let ghost k = s[i as int];
            assert(k == self.pressed@[i as int]@);
            proof {
                let pre = s.subrange(0, i as int);
                let cur = s.subrange(0, i as int + 1);
                assert(cur =~= pre.push(k));
                lemma_partition_step(pre, k);
            }
            let name = self.pressed[i].name.clone();
            assert(name@ == k.name);
            if Self::is_modifier_keysym(self.pressed[i].sym) {
                proof {
                    assert(mods.deep_view().push(name@) =~= modifier_names(
                        s.subrange(0, i as int),
                    ).push(k.name));
                }
                mods.push(name);
                proof {
                    assert(mods.deep_view() =~= modifier_names(s.subrange(0, i as int + 1)))
                        by {
                        assert(forall|m: int|
                            0 <= m < mods@.len() ==> mods.deep_view()[m] == #[trigger] mods@[m]@);
                    }
                }
            } else {
                trigs.push(name);
                proof {
                    assert(trigs.deep_view() =~= trigger_names(s.subrange(0, i as int + 1)))
                        by {
                        assert(forall|m: int|
                            0 <= m < trigs@.len() ==> trigs.deep_view()[m] == #[trigger] trigs@[m]@);
                    }
                }
            }
            i = i + 1;
        }
        proof {
            assert(s.subrange(0, self.pressed@.len() as int) =~= s);
        }
        // A valid chord always has exactly one non-modifier key.
        if trigs.len() != 1 {
            return None;
        }
        let mut parts = sort_names(&mods);
        let trigger = trigs.pop().unwrap();
        assert(trigger@ == trigger_names(s)[0]);
        proof {
            assert(parts.deep_view().push(trigger@) =~= modifier_names(s).sort_by(
                lex_leq(),
            ).push(trigger_names(s)[0]));
        }
        parts.push(trigger);
        proof {
            assert(parts.deep_view() =~= modifier_names(s).sort_by(lex_leq()).push(
                trigger_names(s)[0],
            )) by {
                assert(forall|m: int|
                    0 <= m < parts@.len() ==> parts.deep_view()[m] == #[trigger] parts@[m]@);
            }
        }
        let keychord = join_with_spaces(&parts);
        Some(keychord)
    }

    /// Checks whether a keysym denotes a modifier key: one of the Shift,
    /// Control, Alt, Meta, Super and Hyper pairs, Caps Lock or Shift
    /// Lock. Scroll Lock is deliberately not a modifier: holding it does
    /// not take part in chords.
    pub fn is_modifier_keysym(sym: u32) -> (r: bool)
        ensures
            r == is_modifier_sym(sym),
    {
        sym == KEYSYM_SHIFT_L || sym == KEYSYM_SHIFT_R || sym == KEYSYM_CONTROL_L || sym
            == KEYSYM_CONTROL_R || sym == KEYSYM_CAPS_LOCK || sym == KEYSYM_SHIFT_LOCK || sym
            == KEYSYM_META_L || sym == KEYSYM_META_R || sym == KEYSYM_ALT_L || sym
            == KEYSYM_ALT_R || sym == KEYSYM_SUPER_L || sym == KEYSYM_SUPER_R || sym
            == KEYSYM_HYPER_L || sym == KEYSYM_HYPER_R
    }
}

/// The lexicographic string order as a sorting relation.
pub open spec fn lex_leq() -> spec_fn(Seq<char>, Seq<char>) -> bool {
    |a: Seq<char>, b: Seq<char>| lex_le(a, b)
}

/// The names of the pressed modifier keys, in keycode order.
pub open spec fn modifier_names(s: Seq<KeyInfo>) -> Seq<Seq<char>> {
    s.filter(|k: KeyInfo| is_modifier_sym(k.sym)).map_values(|k: KeyInfo| k.name)
}

/// The names of the pressed non-modifier keys, in keycode order.
pub open spec fn trigger_names(s: Seq<KeyInfo>) -> Seq<Seq<char>> {
    s.filter(|k: KeyInfo| !is_modifier_sym(k.sym)).map_values(|k: KeyInfo| k.name)
}

/// The canonical chord of a pressed set: defined exactly when one
/// non-modifier key is down, and then the alphabetically sorted modifier
/// names followed by that key's name, joined by single spaces.
pub open spec fn chord_spec(s: Seq<KeyInfo>) -> Option<Seq<char>> {
    if trigger_names(s).len() == 1 {
        Some(join_spaced(modifier_names(s).sort_by(lex_leq()).push(trigger_names(s)[0])))
    } else {
        None
    }
}

/// Appending one key to the pressed set extends one name partition and
/// leaves the other unchanged.
pub proof fn lemma_partition_step(pre: Seq<KeyInfo>, k: KeyInfo)
    ensures
        is_modifier_sym(k.sym) ==> modifier_names(pre.push(k)) == modifier_names(pre).push(
            k.name,
        ) && trigger_names(pre.push(k)) == trigger_names(pre),
        !is_modifier_sym(k.sym) ==> trigger_names(pre.push(k)) == trigger_names(pre).push(
            k.name,
        ) && modifier_names(pre.push(k)) == modifier_names(pre),
{
    reveal(Seq::filter);
    assert(pre.push(k).drop_last() =~= pre);
    assert(pre.push(k).last() == k);
    if is_modifier_sym(k.sym) {
        assert(modifier_names(pre.push(k)) =~= modifier_names(pre).push(k.name));
        assert(trigger_names(pre.push(k)) =~= trigger_names(pre));
    } else {
        assert(trigger_names(pre.push(k)) =~= trigger_names(pre).push(k.name));
        assert(modifier_names(pre.push(k)) =~= modifier_names(pre));
    }
}

/// Sorts strings into lexicographic order.
fn sort_names(v: &Vec<String>) -> (r: Vec<String>)
    ensures
        r.deep_view() == v.deep_view().sort_by(lex_leq()),
{
    broadcast use vstd::seq_lib::group_to_multiset_ensures;

    proof {
        crate::strutil::lemma_lex_le_total_ordering();
    }
    let mut out: Vec<String> = Vec::new();
    let mut i: usize = 0;
    assert(out.deep_view().to_multiset() =~= v.deep_view().subrange(0, 0).to_multiset());
    while i < v.len()
        invariant
            0 <= i <= v@.len(),
            vstd::relations::sorted_by(out.deep_view(), lex_leq()),
            out.deep_view().to_multiset() == v.deep_view().subrange(0, i as int).to_multiset(),
        decreases v@.len() - i,
    {
        let x = v[i].clone();
        let ghost xv = x@;
        // Find the insertion point: past every name that sorts at or
        // before the new one.
        let mut j: usize = 0;
        while j < out.len() && lex_le_str(out[j].as_str(), x.as_str())
            invariant
                0 <= j <= out@.len(),
                forall|m: int| 0 <= m < j ==> lex_le(#[trigger] out.deep_view()[m], xv),
                x@ == xv,
            decreases out@.len() - j,
        {
            assert(out.deep_view()[j as int] == out@[j as int]@);
            j = j + 1;
        }
        proof {
            let dv = out.deep_view();
            if (j as int) < dv.len() {
                assert(dv[j as int] == out@[j as int]@);
                assert(!lex_le(dv[j as int], xv));
                crate::strutil::lemma_lex_le_connected(dv[j as int], xv);
                assert(lex_le(xv, dv[j as int]));
            }
            let nv = dv.insert(j as int, xv);
            assert(vstd::relations::sorted_by(nv, lex_leq())) by {
                assert forall|a: int, b: int| 0 <= a < b < nv.len() implies lex_leq()(
                    nv[a],
                    nv[b],
                ) by {
                    crate::strutil::lemma_lex_le_refl(xv);
                    if a < j && b < j {
                        assert(nv[a] == dv[a] && nv[b] == dv[b]);
                    } else if a < j && b == j {
                        assert(nv[a] == dv[a] && nv[b] == xv);
                    } else if a < j && b > j {
                        assert(nv[a] == dv[a] && nv[b] == dv[b - 1]);
                        if b - 1 == a {
                            assert(lex_le(dv[a], xv));
                            crate::strutil::lemma_lex_le_trans(nv[a], xv, nv[b]);
                        }
                    } else if a == j && b > j {
                        assert(nv[a] == xv && nv[b] == dv[b - 1]);
                        assert(lex_le(xv, dv[j as int]));
                        if j < b - 1 {
                            assert(lex_leq()(dv[j as int], dv[b - 1]));
                            crate::strutil::lemma_lex_le_trans(xv, dv[j as int], dv[b - 1]);
                        }
                    } else {
                        assert(a > j || (a == j && b == j));
                        assert(nv[a] == dv[a - 1] && nv[b] == dv[b - 1]);
                    }
                }
            }
        }
        let ghost dv = out.deep_view();
        out.insert(j, x);
        proof {
            assert(out.deep_view() =~= dv.insert(j as int, xv)) by {
                assert(forall|m: int|
                    0 <= m < out@.len() ==> out.deep_view()[m] == #[trigger] out@[m]@);
            }
            let pre = v.deep_view().subrange(0, i as int);
            let cur = v.deep_view().subrange(0, i as int + 1);
            assert(cur =~= pre.push(xv)) by {
                assert(v.deep_view()[i as int] == v@[i as int]@);
            }
            vstd::seq_lib::to_multiset_build(pre, xv);
            assert(cur.to_multiset() == pre.to_multiset().insert(xv));
            vstd::seq_lib::to_multiset_insert(dv, j as int, xv);
            assert(dv.insert(j as int, xv).to_multiset() == dv.to_multiset().insert(xv));
        }
        i = i + 1;
    }
    proof {
        assert(v.deep_view().subrange(0, v@.len() as int) =~= v.deep_view());
        v.deep_view().lemma_sort_by_ensures(lex_leq());
        vstd::seq_lib::lemma_sorted_unique(
            out.deep_view(),
            v.deep_view().sort_by(lex_leq()),
            lex_leq(),
        );
    }
    out
}

/// Removing a keycode never grows the sequence and keeps the sorted
/// order.
proof fn lemma_remove_code_props(s: Seq<KeyInfo>, code: u32)
    ensures
        remove_code(s, code).len() <= s.len(),
        codes_sorted(s) ==> codes_sorted(remove_code(s, code)),
    decreases s.len(),
{
    if s.len() > 0 && s[0].code != code {
        let tail = s.drop_first();
        lemma_remove_code_props(tail, code);
        if codes_sorted(s) {
            assert(codes_sorted(tail)) by {
                assert(forall|j: int| 0 <= j < tail.len() ==> #[trigger] tail[j] == s[j + 1]);
            }
            let rt = remove_code(tail, code);
            let r = seq![s[0]] + rt;
            assert(codes_sorted(r)) by {
                assert(forall|j: int| 1 <= j < r.len() ==> #[trigger] r[j] == rt[j - 1]);
                assert forall|j: int| 1 <= j < r.len() implies r[0].code < #[trigger] r[j].code by {
                    lemma_remove_code_subset(tail, code, j - 1);
                }
            }
        }
    }
}

/// Every entry of the removal result is an entry of the sequence it
/// came from.
proof fn lemma_remove_code_subset(s: Seq<KeyInfo>, code: u32, i: int)
    requires
        0 <= i < remove_code(s, code).len(),
    ensures
        exists|j: int| 0 <= j < s.len() && s[j] == remove_code(s, code)[i],
    decreases s.len(),
{
    if s.len() == 0 {
    } else if s[0].code == code {
        assert(s[i + 1] == remove_code(s, code)[i]);
    } else {
        let rt = remove_code(s.drop_first(), code);
        if i == 0 {
            assert(s[0] == remove_code(s, code)[0]);
        } else {
            assert(remove_code(s, code)[i] == rt[i - 1]);
            lemma_remove_code_subset(s.drop_first(), code, i - 1);
            let j = choose|j: int|
                0 <= j < s.drop_first().len() && s.drop_first()[j] == rt[i - 1];
            assert(s[j + 1] == rt[i - 1]);
        }
    }
}

/// When the keycode sits at the first index that carries it, removal
/// splices it out there.
proof fn lemma_remove_code_at(s: Seq<KeyInfo>, code: u32, i: int)
    requires
        0 <= i < s.len(),
        s[i].code == code,
        forall|j: int| 0 <= j < i ==> s[j].code != code,
    ensures
        remove_code(s, code) == s.subrange(0, i) + s.skip(i + 1),
    decreases i,
{
    if i == 0 {
        assert(remove_code(s, code) =~= s.subrange(0, 0) + s.skip(1));
    } else {
        assert(s[0].code != code);
        let tail = s.drop_first();
        assert(tail[i - 1].code == code);
        assert(forall|j: int| 0 <= j < i - 1 ==> #[trigger] tail[j].code != code) by {
            assert(forall|j: int| 0 <= j < i - 1 ==> #[trigger] tail[j] == s[j + 1]);
        }
        lemma_remove_code_at(tail, code, i - 1);
        assert(remove_code(s, code) =~= s.subrange(0, i) + s.skip(i + 1)) by {
            assert(tail.subrange(0, i - 1) =~= s.subrange(0, i).drop_first());
            assert(tail.skip(i) =~= s.skip(i + 1));
        }
    }
}

/// A pressed key is in a sequence exactly when it is its head or in its
/// tail.
proof fn lemma_has_code_cons(s: Seq<KeyInfo>)
    requires
        s.len() > 0,
    ensures
        forall|c: u32| has_code(s, c) <==> (s[0].code == c || has_code(s.drop_first(), c)),
{
    assert forall|c: u32| has_code(s, c) implies (s[0].code == c || has_code(
        s.drop_first(),
        c,
    )) by {
        let i = choose|i: int| 0 <= i < s.len() && s[i].code == c;
        if i > 0 {
            assert(s.drop_first()[i - 1] == s[i]);
        }
    }
    assert forall|c: u32| (s[0].code == c || has_code(s.drop_first(), c)) implies has_code(
        s,
        c,
    ) by {
        if s[0].code == c {
            assert(s[0].code == c);
        } else {
            let i = choose|i: int| 0 <= i < s.drop_first().len() && s.drop_first()[i].code == c;
            assert(s[i + 1] == s.drop_first()[i]);
        }
    }
}

/// Under strictly sorted codes, removal takes out exactly the entries
/// that carry the removed keycode.
proof fn lemma_remove_code_mem(s: Seq<KeyInfo>, code: u32)
    requires
        codes_sorted(s),
    ensures
        forall|c: u32| has_code(remove_code(s, code), c) <==> (has_code(s, c) && c != code),
    decreases s.len(),
{
    if s.len() == 0 {
    } else {
        let tail = s.drop_first();
        assert(codes_sorted(tail)) by {
            assert(forall|j: int| 0 <= j < tail.len() ==> #[trigger] tail[j] == s[j + 1]);
        }
        lemma_has_code_cons(s);
        if s[0].code == code {
            // The head goes; sortedness says nothing behind it carries
            // the same keycode.
            assert(remove_code(s, code) == tail);
            assert(!has_code(tail, code)) by {
                if has_code(tail, code) {
                    let i = choose|i: int| 0 <= i < tail.len() && tail[i].code == code;
                    assert(s[i + 1] == tail[i]);
                }
            }
        } else {
            lemma_remove_code_mem(tail, code);
            let rt = remove_code(tail, code);
            let r = seq![s[0]] + rt;
            assert(remove_code(s, code) == r);
            assert(r.len() > 0 && r[0] == s[0] && r.drop_first() =~= rt);
            lemma_has_code_cons(r);
        }
    }
}

/// One key event of the stream: a press carries the resolved key, a
/// release carries the keycode that went up.
pub enum KeyOp {
    Press(KeyInfo),
    Release(u32),
}

/// The pressed set after a sequence of press and release events applied
/// to an empty state, press by press as [`ChordState::add_key`] and
/// [`ChordState::remove_key`] do.
pub open spec fn apply_ops(ops: Seq<KeyOp>) -> Seq<KeyInfo>
    decreases ops.len(),
{
    if ops.len() == 0 {
        Seq::empty()
    } else {
        let prev = apply_ops(ops.drop_last());
        match ops.last() {
            KeyOp::Press(k) => spec_add(prev, k),
            KeyOp::Release(c) => remove_code(prev, c),
        }
    }
}

/// Whether a keycode has been pressed and not released since: the ideal
/// reading of the event sequence, with no capacity bound.
pub open spec fn ideal_pressed(ops: Seq<KeyOp>, c: u32) -> bool
    decreases ops.len(),
{
    if ops.len() == 0 {
        false
    } else {
        match ops.last() {
            KeyOp::Press(k) => k.code == c || ideal_pressed(ops.drop_last(), c),
            KeyOp::Release(rc) => rc != c && ideal_pressed(ops.drop_last(), c),
        }
    }
}

/// Whether the run never dropped a press: every press found the set
/// below capacity, or found its key already down.
pub open spec fn no_press_dropped(ops: Seq<KeyOp>) -> bool {
    forall|i: int|
        0 <= i < ops.len() ==> match #[trigger] ops[i] {
            KeyOp::Press(k) => apply_ops(ops.take(i)).len() < MAX_PRESSED_KEYS || has_code(
                apply_ops(ops.take(i)),
                k.code,
            ),
            KeyOp::Release(_) => true,
        }
}

/// However the key events run, the pressed set stays within its
/// capacity and canonically ordered; and as long as no press was
/// dropped at the capacity bound, it holds exactly the keys pressed
/// and not yet released.
pub proof fn lemma_pressed_set_tracks_ops(ops: Seq<KeyOp>)
    ensures
        codes_sorted(apply_ops(ops)),
        apply_ops(ops).len() <= MAX_PRESSED_KEYS,
        no_press_dropped(ops) ==> forall|c: u32|
            has_code(apply_ops(ops), c) <==> ideal_pressed(ops, c),
    decreases ops.len(),
{
    if ops.len() > 0 {
        let pre = ops.drop_last();
        lemma_pressed_set_tracks_ops(pre);
        let prev = apply_ops(pre);
        assert(no_press_dropped(ops) ==> no_press_dropped(pre)) by {
            if no_press_dropped(ops) {
                assert forall|i: int| 0 <= i < pre.len() implies match #[trigger] pre[i] {
                    KeyOp::Press(k) => apply_ops(pre.take(i)).len() < MAX_PRESSED_KEYS
                        || has_code(apply_ops(pre.take(i)), k.code),
                    KeyOp::Release(_) => true,
                } by {
                    assert(pre[i] == ops[i]);
                    assert(pre.take(i) =~= ops.take(i));
                }
            }
        }
        match ops.last() {
            KeyOp::Press(k) => {
                if !has_code(prev, k.code) && prev.len() < MAX_PRESSED_KEYS {
                    lemma_insert_sorted_props(prev, k);
                }
                if no_press_dropped(ops) {
                    assert(ops.take(ops.len() - 1) =~= pre);
                    assert(ops[ops.len() - 1] == ops.last());
                    assert(prev.len() < MAX_PRESSED_KEYS || has_code(prev, k.code));
                    assert forall|c: u32|
                        has_code(apply_ops(ops), c) <==> ideal_pressed(ops, c) by {
                        assert(has_code(prev, c) <==> ideal_pressed(pre, c));
                        assert(has_code(prev, k.code) <==> ideal_pressed(pre, k.code));
                        if has_code(prev, k.code) {
                            assert(apply_ops(ops) == prev);
                            assert(ideal_pressed(pre, k.code));
                        } else {
                            assert(prev.len() < MAX_PRESSED_KEYS);
                            assert(apply_ops(ops) == insert_sorted(prev, k));
                            assert(has_code(insert_sorted(prev, k), c) <==> (has_code(prev, c)
                                || c == k.code));
                        }
                    }
                }
            },
            KeyOp::Release(c0) => {
                lemma_remove_code_props(prev, c0);
                lemma_remove_code_mem(prev, c0);
                if no_press_dropped(ops) {
                    assert forall|c: u32|
                        has_code(apply_ops(ops), c) <==> ideal_pressed(ops, c) by {
                        assert(has_code(prev, c) <==> ideal_pressed(pre, c));
                        assert(has_code(remove_code(prev, c0), c) <==> (has_code(prev, c) && c
                            != c0));
                    }
                }
            },
        }
    }
}

/// The pressed set built by pressing each key of a sequence in turn,
/// starting from the empty state.
pub open spec fn press_all(ks: Seq<KeyInfo>) -> Seq<KeyInfo>
    decreases ks.len(),
{
    if ks.len() == 0 {
        Seq::empty()
    } else {
        spec_add(press_all(ks.drop_last()), ks.last())
    }
}

/// No two keys of the sequence share a keycode.
pub open spec fn distinct_codes(ks: Seq<KeyInfo>) -> bool {
    forall|i: int, j: int| 0 <= i < j < ks.len() ==> ks[i].code != ks[j].code
}

/// Pressing distinct keys within capacity drops none of them: the
/// resulting state holds exactly the keys pressed, in canonical order.
proof fn lemma_press_all_props(ks: Seq<KeyInfo>)
    requires
        distinct_codes(ks),
        ks.len() <= MAX_PRESSED_KEYS,
    ensures
        codes_sorted(press_all(ks)),
        press_all(ks).len() == ks.len(),
        press_all(ks).to_multiset() == ks.to_multiset(),
    decreases ks.len(),
{
    broadcast use vstd::seq_lib::group_to_multiset_ensures;

    if ks.len() == 0 {
        assert(press_all(ks).to_multiset() =~= ks.to_multiset());
    } else {
        let init = ks.drop_last();
        let k = ks.last();
        assert(distinct_codes(init)) by {
            assert(forall|j: int| 0 <= j < init.len() ==> #[trigger] init[j] == ks[j]);
        }
        lemma_press_all_props(init);
        let prev = press_all(init);
        assert(!has_code(prev, k.code)) by {
            if has_code(prev, k.code) {
                let i = choose|i: int| 0 <= i < prev.len() && prev[i].code == k.code;
                assert(prev.to_multiset().contains(prev[i])) by {
                    assert(prev.contains(prev[i]));
                }
                assert(init.to_multiset().contains(prev[i]));
                assert(init.contains(prev[i]));
                let m = choose|m: int| 0 <= m < init.len() && init[m] == prev[i];
                assert(ks[m] == init[m]);
                assert(ks[m].code == ks[ks.len() - 1].code);
            }
        }
        lemma_insert_sorted_props(prev, k);
        assert(ks.to_multiset() =~= init.to_multiset().insert(k)) by {
            assert(ks =~= init.push(k));
        }
    }
}

/// Chord derivation is order-independent. Pressing the same keys in any
/// two orders builds the same pressed set — the canonical keycode order
/// wipes out press order — and so derives the same chord.
pub proof fn lemma_chord_order_independent(ks1: Seq<KeyInfo>, ks2: Seq<KeyInfo>)
    requires
        distinct_codes(ks1),
        distinct_codes(ks2),
        ks1.to_multiset() == ks2.to_multiset(),
        ks1.len() <= MAX_PRESSED_KEYS,
    ensures
        press_all(ks1) == press_all(ks2),
        chord_spec(press_all(ks1)) == chord_spec(press_all(ks2)),
{
    broadcast use vstd::seq_lib::group_to_multiset_ensures;

    assert(ks1.len() == ks1.to_multiset().len());
    assert(ks2.len() == ks2.to_multiset().len());
    lemma_press_all_props(ks1);
    lemma_press_all_props(ks2);
    lemma_sorted_codes_unique(press_all(ks1), press_all(ks2));
}

/// Two sequences in strictly increasing keycode order that hold the
/// same entries are equal: the order is canonical.
proof fn lemma_sorted_codes_unique(s1: Seq<KeyInfo>, s2: Seq<KeyInfo>)
    requires
        codes_sorted(s1),
        codes_sorted(s2),
        s1.to_multiset() == s2.to_multiset(),
    ensures
        s1 == s2,
    decreases s1.len(),
{
    broadcast use vstd::seq_lib::group_to_multiset_ensures;

    assert(s1.len() == s1.to_multiset().len());
    assert(s2.len() == s2.to_multiset().len());
    if s1.len() == 0 {
        assert(s2.len() == 0);
        assert(s1 =~= s2);
    } else {
        assert(s2.len() == s1.len());
        assert(s1.contains(s1[0]));
        assert(s2.to_multiset().contains(s1[0]));
        assert(s2.contains(s1[0]));
        let j = choose|j: int| 0 <= j < s2.len() && s2[j] == s1[0];
        assert(s2.contains(s2[0]));
        assert(s1.to_multiset().contains(s2[0]));
        assert(s1.contains(s2[0]));
        let i = choose|i: int| 0 <= i < s1.len() && s1[i] == s2[0];
        // The heads are equal: otherwise each head's code would be
        // strictly below the other's.
        if j > 0 {
            assert(s2[0].code < s2[j].code);
            if i > 0 {
                assert(s1[0].code < s1[i].code);
            }
        }
        assert(s1[0] == s2[0]);
        assert(s1.drop_first().to_multiset() =~= s1.to_multiset().remove(s1[0])) by {
            assert(s1.drop_first() =~= s1.remove(0));
        }
        assert(s2.drop_first().to_multiset() =~= s2.to_multiset().remove(s2[0])) by {
            assert(s2.drop_first() =~= s2.remove(0));
        }
        assert(codes_sorted(s1.drop_first())) by {
            assert(forall|m: int|
                0 <= m < s1.drop_first().len() ==> #[trigger] s1.drop_first()[m] == s1[m + 1]);
        }
        assert(codes_sorted(s2.drop_first())) by {
            assert(forall|m: int|
                0 <= m < s2.drop_first().len() ==> #[trigger] s2.drop_first()[m] == s2[m + 1]);
        }
        lemma_sorted_codes_unique(s1.drop_first(), s2.drop_first());
        assert(s1 =~= s2) by {
            assert(forall|m: int|
                1 <= m < s1.len() ==> #[trigger] s1[m] == s1.drop_first()[m - 1]);
            assert(forall|m: int|
                1 <= m < s2.len() ==> #[trigger] s2[m] == s2.drop_first()[m - 1]);
        }
    }
}

/// Removing a keycode that no entry carries changes nothing.
proof fn lemma_remove_code_absent(s: Seq<KeyInfo>, code: u32)
    requires
        forall|j: int| 0 <= j < s.len() ==> #[trigger] s[j].code != code,
    ensures
        remove_code(s, code) == s,
    decreases s.len(),
{
    if s.len() > 0 {
        let tail = s.drop_first();
        assert(forall|j: int| 0 <= j < tail.len() ==> #[trigger] tail[j].code != code) by {
            assert(forall|j: int| 0 <= j < tail.len() ==> #[trigger] tail[j] == s[j + 1]);
        }
        lemma_remove_code_absent(tail, code);
        assert(remove_code(s, code) =~= s);
    }
}

} // verus!
