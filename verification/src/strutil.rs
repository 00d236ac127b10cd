//! String utilities over sequences of characters.
//!
//! The chord canonicalization and the configuration parser both work on
//! text. This module gives them a common vocabulary: the whitespace
//! classification, lexicographic ordering of strings (used to sort modifier
//! names into canonical order), and the helpers that the parser and the
//! canonicalizer state their contracts with.

use vstd::prelude::*;
use vstd::relations::total_ordering;

verus! {

/// The whitespace characters: the characters with the Unicode `White_Space`
/// property. Space, tab, line feed, vertical tab, form feed, carriage
/// return, next line, no-break space, ogham space mark, the en-quad through
/// hair-space range, line separator, paragraph separator, narrow no-break
/// space, medium mathematical space, and ideographic space.
pub open spec fn is_space_char(c: char) -> bool {
    ||| c == ' '
    ||| c == '\t'
    ||| c == '\n'
    ||| c == '\r'
    ||| c == '\u{0b}'
    ||| c == '\u{0c}'
    ||| c == '\u{85}'
    ||| c == '\u{a0}'
    ||| c == '\u{1680}'
    ||| ('\u{2000}' <= c && c <= '\u{200a}')
    ||| c == '\u{2028}'
    ||| c == '\u{2029}'
    ||| c == '\u{202f}'
    ||| c == '\u{205f}'
    ||| c == '\u{3000}'
}

/// Decides whether a character is whitespace.
pub fn is_space(c: char) -> (r: bool)
    ensures
        r == is_space_char(c),
{
    c == ' ' || c == '\t' || c == '\n' || c == '\r' || c == '\u{0b}' || c == '\u{0c}'
        || c == '\u{85}' || c == '\u{a0}' || c == '\u{1680}'
        || ('\u{2000}' <= c && c <= '\u{200a}') || c == '\u{2028}' || c == '\u{2029}'
        || c == '\u{202f}' || c == '\u{205f}' || c == '\u{3000}'
}

/// Relies on `String::push`: appends one character to the string.
#[verifier::external_body]
pub fn push_char(s: &mut String, c: char)
    ensures
        final(s)@ == old(s)@.push(c),
{
    s.push(c);
}

/// The number of whitespace characters at the front of the string.
pub open spec fn trim_start_len(s: Seq<char>) -> int
    decreases s.len(),
{
    if s.len() == 0 {
        0
    } else if is_space_char(s[0]) {
        1 + trim_start_len(s.drop_first())
    } else {
        0
    }
}

/// The index just past the last non-whitespace character of the string.
pub open spec fn trim_end_len(s: Seq<char>) -> int
    decreases s.len(),
{
    if s.len() == 0 {
        0
    } else if is_space_char(s.last()) {
        trim_end_len(s.drop_last())
    } else {
        s.len() as int
    }
}

/// The string without its leading and trailing whitespace.
pub open spec fn trim_spec(s: Seq<char>) -> Seq<char> {
    if trim_start_len(s) <= trim_end_len(s) {
        s.subrange(trim_start_len(s), trim_end_len(s))
    } else {
        Seq::empty()
    }
}

/// The leading-whitespace count is an index into the string, every
/// character before it is whitespace, and the character at it (if any)
/// is not.
pub proof fn lemma_trim_start_len(s: Seq<char>)
    ensures
        0 <= trim_start_len(s) <= s.len(),
        forall|j: int| 0 <= j < trim_start_len(s) ==> is_space_char(#[trigger] s[j]),
        trim_start_len(s) < s.len() ==> !is_space_char(s[trim_start_len(s)]),
    decreases s.len(),
{
    if s.len() > 0 && is_space_char(s[0]) {
        lemma_trim_start_len(s.drop_first());
        assert forall|j: int| 0 <= j < trim_start_len(s) implies is_space_char(#[trigger] s[j]) by {
            if j > 0 {
                assert(s[j] == s.drop_first()[j - 1]);
            }
        }
    }
}

/// The trailing-whitespace bound is an index into the string, every
/// character from it on is whitespace, and the character just before it
/// (if any) is not.
pub proof fn lemma_trim_end_len(s: Seq<char>)
    ensures
        0 <= trim_end_len(s) <= s.len(),
        forall|j: int| trim_end_len(s) <= j < s.len() ==> is_space_char(#[trigger] s[j]),
        trim_end_len(s) > 0 ==> !is_space_char(s[trim_end_len(s) - 1]),
    decreases s.len(),
{
    if s.len() > 0 && is_space_char(s.last()) {
        lemma_trim_end_len(s.drop_last());
        assert forall|j: int| trim_end_len(s) <= j < s.len() implies is_space_char(
            #[trigger] s[j],
        ) by {
            if j < s.len() - 1 {
                assert(s[j] == s.drop_last()[j]);
            }
        }
    }
}

/// Returns the string without its leading and trailing whitespace.
pub fn trim(s: &str) -> (r: &str)
    ensures
        r@ == trim_spec(s@),
{
    proof {
        lemma_trim_start_len(s@);
        lemma_trim_end_len(s@);
    }
    let len = s.unicode_len();
    let mut start: usize = 0;
    while start < len && is_space(s.get_char(start))
        invariant
            0 <= start <= len,
            len == s@.len(),
            forall|j: int| 0 <= j < start ==> is_space_char(#[trigger] s@[j]),
        decreases len - start,
    {
        start = start + 1;
    }
    assert(start == trim_start_len(s@)) by {
        let t = trim_start_len(s@);
        if start < t {
            assert(is_space_char(s@[start as int]));
        }
        if t < start {
            assert(is_space_char(s@[t]));
        }
    }
    let mut end: usize = len;
    while end > start && is_space(s.get_char(end - 1))
        invariant
            start <= end <= len,
            len == s@.len(),
            forall|j: int| end <= j < len ==> is_space_char(#[trigger] s@[j]),
        decreases end,
    {
        end = end - 1;
    }
    if end == start {
        proof {
            let t = trim_end_len(s@);
            if t > end {
                assert(is_space_char(s@[t - 1]));
            }
            assert(trim_spec(s@) =~= Seq::<char>::empty());
        }
        let r = s.substring_char(0, 0);
        assert(r@ =~= trim_spec(s@));
        r
    } else {
        assert(end == trim_end_len(s@)) by {
            let t = trim_end_len(s@);
            if end < t {
                assert(is_space_char(s@[t - 1]));
            }
            if t < end {
                assert(is_space_char(s@[end - 1]));
            }
        }
        s.substring_char(start, end)
    }
}

/// Lexicographic order on strings, by scalar value of the first differing
/// character; a prefix sorts before its extensions.
pub open spec fn lex_le(a: Seq<char>, b: Seq<char>) -> bool
    decreases a.len(),
{
    if a.len() == 0 {
        true
    } else if b.len() == 0 {
        false
    } else if a[0] != b[0] {
        a[0] < b[0]
    } else {
        lex_le(a.drop_first(), b.drop_first())
    }
}

/// Lexicographic order is reflexive.
pub proof fn lemma_lex_le_refl(a: Seq<char>)
    ensures
        lex_le(a, a),
    decreases a.len(),
{
    if a.len() > 0 {
        lemma_lex_le_refl(a.drop_first());
    }
}

/// Lexicographic order is antisymmetric: mutual order means equality.
pub proof fn lemma_lex_le_antisym(a: Seq<char>, b: Seq<char>)
    requires
        lex_le(a, b),
        lex_le(b, a),
    ensures
        a == b,
    decreases a.len(),
{
    if a.len() == 0 {
        assert(b.len() == 0);
        assert(a =~= b);
    } else {
        assert(a[0] == b[0]);
        lemma_lex_le_antisym(a.drop_first(), b.drop_first());
        assert(a =~= seq![a[0]] + a.drop_first());
        assert(b =~= seq![b[0]] + b.drop_first());
    }
}

/// Lexicographic order is transitive.
pub proof fn lemma_lex_le_trans(a: Seq<char>, b: Seq<char>, c: Seq<char>)
    requires
        lex_le(a, b),
        lex_le(b, c),
    ensures
        lex_le(a, c),
    decreases a.len(),
{
    if a.len() == 0 || b.len() == 0 || c.len() == 0 {
    } else {
        if a[0] == b[0] && b[0] == c[0] {
            lemma_lex_le_trans(a.drop_first(), b.drop_first(), c.drop_first());
        }
    }
}

/// Any two strings are ordered one way or the other.
pub proof fn lemma_lex_le_connected(a: Seq<char>, b: Seq<char>)
    ensures
        lex_le(a, b) || lex_le(b, a),
    decreases a.len(),
{
    if a.len() > 0 && b.len() > 0 && a[0] == b[0] {
        lemma_lex_le_connected(a.drop_first(), b.drop_first());
    }
}

/// Lexicographic order is a total order, in the sense that sorting by it
/// produces one well-defined result.
pub proof fn lemma_lex_le_total_ordering()
    ensures
        total_ordering(|a: Seq<char>, b: Seq<char>| lex_le(a, b)),
{
    let leq = |a: Seq<char>, b: Seq<char>| lex_le(a, b);
    assert forall|a: Seq<char>| #[trigger] leq(a, a) by {
        lemma_lex_le_refl(a);
    }
    assert forall|a: Seq<char>, b: Seq<char>| #[trigger] leq(a, b) && #[trigger] leq(b, a)
        implies a == b by {
        lemma_lex_le_antisym(a, b);
    }
    assert forall|a: Seq<char>, b: Seq<char>, c: Seq<char>|
        #[trigger] leq(a, b) && #[trigger] leq(b, c) implies leq(a, c) by {
        lemma_lex_le_trans(a, b, c);
    }
    assert forall|a: Seq<char>, b: Seq<char>| #[trigger] leq(a, b) || #[trigger] leq(b, a) by {
        lemma_lex_le_connected(a, b);
    }
}

/// Splitting off a common prefix does not change the order of two strings.
pub proof fn lemma_lex_le_common_prefix(a: Seq<char>, b: Seq<char>, i: int)
    requires
        0 <= i <= a.len(),
        i <= b.len(),
        a.subrange(0, i) == b.subrange(0, i),
    ensures
        lex_le(a, b) == lex_le(a.skip(i), b.skip(i)),
    decreases i,
{
    if i > 0 {
        assert(a.len() > 0 && b.len() > 0);
        assert(a.subrange(0, i)[0] == a[0]);
        assert(b.subrange(0, i)[0] == b[0]);
        assert(a[0] == b[0]);
        assert(a.drop_first().subrange(0, i - 1) == b.drop_first().subrange(0, i - 1)) by {
            assert(a.drop_first().subrange(0, i - 1) =~= a.subrange(0, i).drop_first());
            assert(b.drop_first().subrange(0, i - 1) =~= b.subrange(0, i).drop_first());
        }
        lemma_lex_le_common_prefix(a.drop_first(), b.drop_first(), i - 1);
        assert(a.drop_first().skip(i - 1) =~= a.skip(i));
        assert(b.drop_first().skip(i - 1) =~= b.skip(i));
    } else {
        assert(a.skip(0) =~= a);
        assert(b.skip(0) =~= b);
    }
}

/// A chord specification normalized for table lookup: every whitespace
/// character removed, then every `+` replaced by a single space.
pub open spec fn normalize_key_spec(s: Seq<char>) -> Seq<char> {
    s.filter(|c: char| !is_space_char(c)).map_values(
        |c: char|
            if c == '+' {
                ' '
            } else {
                c
            },
    )
}

/// Normalization treats one appended character at a time: a whitespace
/// character is dropped, any other character is kept, with `+` turned
/// into a space.
pub proof fn lemma_normalize_key_step(pre: Seq<char>, c: char)
    ensures
        !is_space_char(c) ==> normalize_key_spec(pre.push(c)) == normalize_key_spec(pre).push(
            if c == '+' {
                ' '
            } else {
                c
            },
        ),
        is_space_char(c) ==> normalize_key_spec(pre.push(c)) == normalize_key_spec(pre),
{
    reveal(Seq::filter);
    assert(pre.push(c).drop_last() =~= pre);
    assert(pre.push(c).last() == c);
    if !is_space_char(c) {
        assert(normalize_key_spec(pre.push(c)) =~= normalize_key_spec(pre).push(
            if c == '+' {
                ' '
            } else {
                c
            },
        ));
    } else {
        assert(normalize_key_spec(pre.push(c)) =~= normalize_key_spec(pre));
    }
}

/// Normalizes a chord specification: removes all whitespace and replaces
/// each `+` by a space, so that `Control_L + x` and `Control_L+x` give the
/// same key.
pub fn normalize_key(s: &str) -> (r: String)
    ensures
        r@ == normalize_key_spec(s@),
{
    let len = s.unicode_len();
    let mut r = String::new();
    let mut i: usize = 0;
    proof {
        reveal(Seq::filter);
        assert(s@.subrange(0, 0) =~= Seq::<char>::empty());
        assert(r@ =~= normalize_key_spec(s@.subrange(0, 0)));
    }
    while i < len
        invariant
            0 <= i <= len,
            len == s@.len(),
            r@ == normalize_key_spec(s@.subrange(0, i as int)),
        decreases len - i,
    {
        let c = s.get_char(i);
        proof {
            let pre = s@.subrange(0, i as int);
            let cur = s@.subrange(0, i as int + 1);
            assert(cur =~= pre.push(c));
            lemma_normalize_key_step(pre, c);
        }
        if !is_space(c) {
            if c == '+' {
                push_char(&mut r, ' ');
            } else {
                push_char(&mut r, c);
            }
        }
        i = i + 1;
    }
    proof {
        assert(s@.subrange(0, len as int) =~= s@);
    }
    r
}

/// The strings joined with one space between consecutive parts.
pub open spec fn join_spaced(parts: Seq<Seq<char>>) -> Seq<char>
    decreases parts.len(),
{
    if parts.len() == 0 {
        Seq::empty()
    } else if parts.len() == 1 {
        parts[0]
    } else {
        parts[0] + seq![' '] + join_spaced(parts.drop_first())
    }
}

/// Appending a part to a non-empty list extends the joined string by a
/// space and that part.
pub proof fn lemma_join_spaced_push(parts: Seq<Seq<char>>, x: Seq<char>)
    requires
        parts.len() >= 1,
    ensures
        join_spaced(parts.push(x)) == join_spaced(parts) + seq![' '] + x,
    decreases parts.len(),
{
    if parts.len() == 1 {
        assert(parts.push(x)[0] == parts[0]);
        assert(parts.push(x).drop_first() =~= seq![x]);
        assert(join_spaced(seq![x]) == x);
        assert(join_spaced(parts.push(x)) =~= parts[0] + seq![' '] + x);
        assert(join_spaced(parts) == parts[0]);
    } else {
        lemma_join_spaced_push(parts.drop_first(), x);
        assert(parts.push(x).drop_first() =~= parts.drop_first().push(x));
        assert(parts.push(x)[0] == parts[0]);
        assert(join_spaced(parts.push(x)) == parts[0] + seq![' ']
            + join_spaced(parts.drop_first().push(x)));
        assert(parts[0] + seq![' '] + (join_spaced(parts.drop_first()) + seq![' '] + x) =~= (
        parts[0] + seq![' '] + join_spaced(parts.drop_first())) + seq![' '] + x);
    }
}

/// Joins the strings with one space between consecutive parts.
pub fn join_with_spaces(parts: &Vec<String>) -> (r: String)
    ensures
        r@ == join_spaced(parts.deep_view()),
{
    let mut r = String::new();
    if parts.len() == 0 {
        assert(r@ =~= join_spaced(parts.deep_view()));
        return r;
    }
    r.append(parts[0].as_str());
    assert(r@ =~= parts.deep_view().subrange(0, 1)[0]);
    assert(r@ == join_spaced(parts.deep_view().subrange(0, 1)));
    let mut i: usize = 1;
    while i < parts.len()
        invariant
            1 <= i <= parts@.len(),
            r@ == join_spaced(parts.deep_view().subrange(0, i as int)),
        decreases parts@.len() - i,
    {
        push_char(&mut r, ' ');
        r.append(parts[i].as_str());
        proof {
            let pre = parts.deep_view().subrange(0, i as int);
            let cur = parts.deep_view().subrange(0, i as int + 1);
            assert(cur =~= pre.push(parts@[i as int]@));
            lemma_join_spaced_push(pre, parts@[i as int]@);
            assert(r@ =~= join_spaced(pre) + seq![' '] + parts@[i as int]@);
        }
        i = i + 1;
    }
    proof {
        assert(parts.deep_view().subrange(0, parts.deep_view().len() as int) =~= parts.deep_view());
    }
    r
}

/// The index of the first occurrence of the character, or the length of
/// the string if it does not occur.
pub open spec fn first_index_of(s: Seq<char>, c: char) -> int
    decreases s.len(),
{
    if s.len() == 0 {
        0
    } else if s[0] == c {
        0
    } else {
        1 + first_index_of(s.drop_first(), c)
    }
}

/// The first-occurrence index is an index into the string, no character
/// before it is the sought one, and the character at it (if within the
/// string) is.
pub proof fn lemma_first_index_of(s: Seq<char>, c: char)
    ensures
        0 <= first_index_of(s, c) <= s.len(),
        forall|j: int| 0 <= j < first_index_of(s, c) ==> #[trigger] s[j] != c,
        first_index_of(s, c) < s.len() ==> s[first_index_of(s, c)] == c,
    decreases s.len(),
{
    if s.len() > 0 && s[0] != c {
        lemma_first_index_of(s.drop_first(), c);
        assert forall|j: int| 0 <= j < first_index_of(s, c) implies #[trigger] s[j] != c by {
            if j > 0 {
                assert(s[j] == s.drop_first()[j - 1]);
            }
        }
    }
}

/// Finds the first occurrence of a character, if there is one.
pub fn find_char(s: &str, c: char) -> (r: Option<usize>)
    ensures
        match r {
            Some(i) => i == first_index_of(s@, c) && i < s@.len(),
            None => first_index_of(s@, c) == s@.len(),
        },
{
    proof {
        lemma_first_index_of(s@, c);
    }
    let len = s.unicode_len();
    let mut i: usize = 0;
    while i < len && s.get_char(i) != c
        invariant
            0 <= i <= len,
            len == s@.len(),
            forall|j: int| 0 <= j < i ==> #[trigger] s@[j] != c,
        decreases len - i,
    {
        i = i + 1;
    }
    proof {
        let t = first_index_of(s@, c);
        if i < t {
            assert(s@[i as int] != c);
        }
        if t < i {
            assert(s@[t] != c);
        }
    }
    if i < len {
        Some(i)
    } else {
        None
    }
}

/// The character of one decimal digit.
pub open spec fn digit_char(d: nat) -> char {
    if d == 0 {
        '0'
    } else if d == 1 {
        '1'
    } else if d == 2 {
        '2'
    } else if d == 3 {
        '3'
    } else if d == 4 {
        '4'
    } else if d == 5 {
        '5'
    } else if d == 6 {
        '6'
    } else if d == 7 {
        '7'
    } else if d == 8 {
        '8'
    } else {
        '9'
    }
}

/// The decimal notation of a number: its digits, most significant
/// first, with no leading zero except for the number zero itself.
pub open spec fn decimal_digits(n: nat) -> Seq<char>
    decreases n,
{
    if n < 10 {
        seq![digit_char(n)]
    } else {
        decimal_digits(n / 10).push(digit_char(n % 10))
    }
}

/// Writes a number in decimal notation.
pub fn format_usize(n: usize) -> (r: String)
    ensures
        r@ == decimal_digits(n as nat),
    decreases n,
{
    if n < 10 {
        let mut r = String::new();
        push_char(&mut r, digit_of(n));
        assert(r@ =~= seq![digit_char(n as nat)]);
        r
    } else {
        let mut r = format_usize(n / 10);
        push_char(&mut r, digit_of(n % 10));
        r
    }
}

/// Returns the character of one decimal digit.
fn digit_of(d: usize) -> (c: char)
    requires
        d < 10,
    ensures
        c == digit_char(d as nat),
{
    match d {
        0 => '0',
        1 => '1',
        2 => '2',
        3 => '3',
        4 => '4',
        5 => '5',
        6 => '6',
        7 => '7',
        8 => '8',
        _ => '9',
    }
}

/// The whitespace-separated words of `s`, given that the characters of
/// `cur` (the word in progress) came just before `s`.
pub open spec fn tokens_acc(s: Seq<char>, cur: Seq<char>) -> Seq<Seq<char>>
    decreases s.len(),
{
    if s.len() == 0 {
        if cur.len() == 0 {
            Seq::empty()
        } else {
            seq![cur]
        }
    } else if is_space_char(s[0]) {
        if cur.len() == 0 {
            tokens_acc(s.drop_first(), Seq::empty())
        } else {
            seq![cur] + tokens_acc(s.drop_first(), Seq::empty())
        }
    } else {
        tokens_acc(s.drop_first(), cur.push(s[0]))
    }
}

/// The whitespace-separated words of the string: the maximal runs of
/// non-whitespace characters, in order.
pub open spec fn tokens_spec(s: Seq<char>) -> Seq<Seq<char>> {
    tokens_acc(s, Seq::empty())
}

/// Splits the string into its whitespace-separated words.
pub fn split_tokens(s: &str) -> (r: Vec<String>)
    ensures
        r.deep_view() == tokens_spec(s@),
{
    let len = s.unicode_len();
    let mut out: Vec<String> = Vec::new();
    let mut cur = String::new();
    let mut i: usize = 0;
    proof {
        assert(s@.skip(0) =~= s@);
        assert(out.deep_view() + tokens_acc(s@, cur@) =~= tokens_acc(s@, cur@));
    }
    while i < len
        invariant
            0 <= i <= len,
            len == s@.len(),
            tokens_spec(s@) == out.deep_view() + tokens_acc(s@.skip(i as int), cur@),
        decreases len - i,
    {
        let c = s.get_char(i);
        proof {
            assert(s@.skip(i as int)[0] == c);
            assert(s@.skip(i as int).drop_first() =~= s@.skip(i as int + 1));
        }
        if is_space(c) {
            if !cur.as_str().is_empty() {
                proof {
                    assert(out.deep_view().push(cur@) =~= out.deep_view() + seq![cur@]);
                    assert(out.deep_view() + (seq![cur@] + tokens_acc(
                        s@.skip(i as int + 1),
                        Seq::empty(),
                    )) =~= (out.deep_view() + seq![cur@]) + tokens_acc(
                        s@.skip(i as int + 1),
                        Seq::empty(),
                    ));
                }
                out.push(cur);
                cur = String::new();
            } else {
                proof {
                    assert(cur@ =~= Seq::<char>::empty());
                }
            }
        } else {
            push_char(&mut cur, c);
        }
        i = i + 1;
    }
    proof {
        assert(s@.skip(len as int).len() == 0);
    }
    if !cur.as_str().is_empty() {
        proof {
            assert(out.deep_view().push(cur@) =~= out.deep_view() + seq![cur@]);
        }
        out.push(cur);
    } else {
        proof {
            assert(out.deep_view() + Seq::<Seq<char>>::empty() =~= out.deep_view());
        }
    }
    out
}

/// Removes one trailing carriage return, as line splitting does.
pub open spec fn strip_cr(t: Seq<char>) -> Seq<char> {
    if t.len() > 0 && t.last() == '\r' {
        t.drop_last()
    } else {
        t
    }
}

/// The lines of `s`, given that the characters of `cur` (the line in
/// progress) came just before `s`. A line ends at each line feed, whose
/// preceding carriage return (if any) is dropped; a final line needs no
/// terminator, and a terminator after the last line adds nothing.
pub open spec fn lines_acc(s: Seq<char>, cur: Seq<char>) -> Seq<Seq<char>>
    decreases s.len(),
{
    if s.len() == 0 {
        if cur.len() == 0 {
            Seq::empty()
        } else {
            seq![strip_cr(cur)]
        }
    } else if s[0] == '\n' {
        seq![strip_cr(cur)] + lines_acc(s.drop_first(), Seq::empty())
    } else {
        lines_acc(s.drop_first(), cur.push(s[0]))
    }
}

/// The lines of the text, split at line feeds, with a carriage return
/// before a line feed dropped and no empty line after a final terminator.
pub open spec fn lines_spec(s: Seq<char>) -> Seq<Seq<char>> {
    lines_acc(s, Seq::empty())
}

/// Splits the text into lines.
pub fn split_lines(s: &str) -> (r: Vec<String>)
    ensures
        r.deep_view() == lines_spec(s@),
{
    let len = s.unicode_len();
    let mut out: Vec<String> = Vec::new();
    let mut cur = String::new();
    let mut i: usize = 0;
    proof {
        assert(s@.skip(0) =~= s@);
        assert(out.deep_view() + lines_acc(s@, cur@) =~= lines_acc(s@, cur@));
    }
    while i < len
        invariant
            0 <= i <= len,
            len == s@.len(),
            lines_spec(s@) == out.deep_view() + lines_acc(s@.skip(i as int), cur@),
        decreases len - i,
    {
        let c = s.get_char(i);
        proof {
            assert(s@.skip(i as int)[0] == c);
            assert(s@.skip(i as int).drop_first() =~= s@.skip(i as int + 1));
        }
        if c == '\n' {
            let line = strip_one_cr(cur);
            proof {
                assert(out.deep_view().push(line@) =~= out.deep_view() + seq![line@]);
                assert(out.deep_view() + (seq![line@] + lines_acc(
                    s@.skip(i as int + 1),
                    Seq::empty(),
                )) =~= (out.deep_view() + seq![line@]) + lines_acc(
                    s@.skip(i as int + 1),
                    Seq::empty(),
                ));
            }
            out.push(line);
            cur = String::new();
        } else {
            push_char(&mut cur, c);
        }
        i = i + 1;
    }
    proof {
        assert(s@.skip(len as int).len() == 0);
    }
    if !cur.as_str().is_empty() {
        let line = strip_one_cr(cur);
        proof {
            assert(out.deep_view().push(line@) =~= out.deep_view() + seq![line@]);
        }
        out.push(line);
    } else {
        proof {
            assert(out.deep_view() + Seq::<Seq<char>>::empty() =~= out.deep_view());
        }
    }
    out
}

/// Removes one trailing carriage return from the string, if it ends
/// with one.
fn strip_one_cr(s: String) -> (r: String)
    ensures
        r@ == strip_cr(s@),
{
    let len = s.as_str().unicode_len();
    if len > 0 && s.as_str().get_char(len - 1) == '\r' {
        let r = s.as_str().substring_char(0, len - 1);
        assert(r@ =~= strip_cr(s@));
        r.to_owned()
    } else {
        s
    }
}

/// Decides whether two strings hold the same characters.
pub fn str_eq(a: &str, b: &str) -> (r: bool)
    ensures
        r == (a@ == b@),
{
    let a_len = a.unicode_len();
    let b_len = b.unicode_len();
    if a_len != b_len {
        return false;
    }
    let mut i: usize = 0;
    while i < a_len
        invariant
            0 <= i <= a_len,
            a_len == a@.len(),
            a_len == b@.len(),
            forall|j: int| 0 <= j < i ==> a@[j] == b@[j],
        decreases a_len - i,
    {
        let ca = a.get_char(i);
        let cb = b.get_char(i);
        if ca != cb {
            return false;
        }
        i = i + 1;
    }
    proof {
        assert(a@ =~= b@);
    }
    true
}

/// Decides the lexicographic order of two strings.
pub fn lex_le_str(a: &str, b: &str) -> (r: bool)
    ensures
        r == lex_le(a@, b@),
{
    let a_len = a.unicode_len();
    let b_len = b.unicode_len();
    let mut i: usize = 0;
    loop
        invariant
            i <= a_len,
            i <= b_len,
            a_len == a@.len(),
            b_len == b@.len(),
            a@.subrange(0, i as int) == b@.subrange(0, i as int),
        decreases a_len - i,
    {
        proof {
            lemma_lex_le_common_prefix(a@, b@, i as int);
        }
        if i == a_len {
            assert(a@.skip(i as int).len() == 0);
            return true;
        }
        if i == b_len {
            assert(b@.skip(i as int).len() == 0);
            assert(a@.skip(i as int).len() > 0);
            return false;
        }
        let ca = a.get_char(i);
        let cb = b.get_char(i);
        assert(a@.skip(i as int)[0] == ca);
        assert(b@.skip(i as int)[0] == cb);
        if ca != cb {
            return ca < cb;
        }
        assert(a@.subrange(0, i as int + 1) =~= b@.subrange(0, i as int + 1));
        i = i + 1;
    }
}

} // verus!
