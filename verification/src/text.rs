//! Character and word helpers shared by the scanner, the lexer and the grouper.

use vstd::prelude::*;
use vstd::string::*;

verus! {

/// The values of a run of words, in order.
pub open spec fn words_view(v: Seq<String>) -> Seq<Seq<char>> {
    Seq::new(v.len(), |i: int| v[i]@)
}

/// `String::from` on a `char`: the string that holds `c` and nothing else.
#[verifier::external_body]
pub(crate) fn string_of_char(c: char) -> (r: String)
    ensures
        r@ == seq![c],
{
    String::from(c)
}

/// Whether `c` is white space: the characters with the Unicode property
/// `White_Space`.
pub open spec fn is_space(c: char) -> bool {
    ||| ('\u{9}' <= c && c <= '\u{d}')
    ||| c == ' '
    ||| c == '\u{85}'
    ||| c == '\u{a0}'
    ||| c == '\u{1680}'
    ||| ('\u{2000}' <= c && c <= '\u{200a}')
    ||| c == '\u{2028}'
    ||| c == '\u{2029}'
    ||| c == '\u{202f}'
    ||| c == '\u{205f}'
    ||| c == '\u{3000}'
}

/// Whether `c` is one of the four characters that form a word on their own.
pub open spec fn is_punct(c: char) -> bool {
    c == '(' || c == ')' || c == '=' || c == ','
}

pub fn char_is_space(c: char) -> (r: bool)
    ensures
        r == is_space(c),
{
    ('\u{9}' <= c && c <= '\u{d}') || c == ' ' || c == '\u{85}' || c == '\u{a0}' || c
        == '\u{1680}' || ('\u{2000}' <= c && c <= '\u{200a}') || c == '\u{2028}' || c
        == '\u{2029}' || c == '\u{202f}' || c == '\u{205f}' || c == '\u{3000}'
}

pub fn char_is_punct(c: char) -> (r: bool)
    ensures
        r == is_punct(c),
{
    c == '(' || c == ')' || c == '=' || c == ','
}

/// Whether the word consists of the single character `c`.
pub fn is_single(w: &str, c: char) -> (r: bool)
    ensures
        r == (w@ == seq![c]),
{
    let n = w.unicode_len();
    if n == 1 {
        let d = w.get_char(0);
        assert(w@ =~= seq![d]);
        assert(seq![c][0] == c);
        d == c
    } else {
        assert(seq![c].len() == 1);
        false
    }
}

/// The word `true` in any mix of upper and lower case, or the digit `1`.
pub open spec fn is_true_word(w: Seq<char>) -> bool {
    ||| w == seq!['1']
    ||| {
        &&& w.len() == 4
        &&& (w[0] == 't' || w[0] == 'T')
        &&& (w[1] == 'r' || w[1] == 'R')
        &&& (w[2] == 'u' || w[2] == 'U')
        &&& (w[3] == 'e' || w[3] == 'E')
    }
}

/// The word `false` in any mix of upper and lower case, or the digit `0`.
pub open spec fn is_false_word(w: Seq<char>) -> bool {
    ||| w == seq!['0']
    ||| {
        &&& w.len() == 5
        &&& (w[0] == 'f' || w[0] == 'F')
        &&& (w[1] == 'a' || w[1] == 'A')
        &&& (w[2] == 'l' || w[2] == 'L')
        &&& (w[3] == 's' || w[3] == 'S')
        &&& (w[4] == 'e' || w[4] == 'E')
    }
}

pub fn word_is_true(w: &str) -> (r: bool)
    ensures
        r == is_true_word(w@),
{
    if is_single(w, '1') {
        return true;
    }
    if w.unicode_len() != 4 {
        return false;
    }
    let c0 = w.get_char(0);
    let c1 = w.get_char(1);
    let c2 = w.get_char(2);
    let c3 = w.get_char(3);
    (c0 == 't' || c0 == 'T') && (c1 == 'r' || c1 == 'R') && (c2 == 'u' || c2 == 'U') && (c3 == 'e'
        || c3 == 'E')
}

pub fn word_is_false(w: &str) -> (r: bool)
    ensures
        r == is_false_word(w@),
{
    if is_single(w, '0') {
        return true;
    }
    if w.unicode_len() != 5 {
        return false;
    }
    let c0 = w.get_char(0);
    let c1 = w.get_char(1);
    let c2 = w.get_char(2);
    let c3 = w.get_char(3);
    let c4 = w.get_char(4);
    (c0 == 'f' || c0 == 'F') && (c1 == 'a' || c1 == 'A') && (c2 == 'l' || c2 == 'L') && (c3 == 's'
        || c3 == 'S') && (c4 == 'e' || c4 == 'E')
}

/// The least index at or after `i` at which `s` holds `c`, or the length of
/// `s` if there is none.
pub open spec fn first_from(s: Seq<char>, c: char, i: int) -> int
    decreases s.len() - i,
{
    if i < 0 || i >= s.len() {
        s.len() as int
    } else if s[i] == c {
        i
    } else {
        first_from(s, c, i + 1)
    }
}

/// The index of the first `c` in `s`, or the length of `s` if `c` does not
/// occur.
pub open spec fn first_index(s: Seq<char>, c: char) -> int {
    first_from(s, c, 0)
}

/// The part of `s` before its first `c`; all of `s` if `c` does not occur.
pub open spec fn before(s: Seq<char>, c: char) -> Seq<char> {
    s.subrange(0, first_index(s, c))
}

/// The part of `s` after its first `c`; empty if `c` does not occur.
pub open spec fn after(s: Seq<char>, c: char) -> Seq<char> {
    if first_index(s, c) < s.len() {
        s.subrange(first_index(s, c) + 1, s.len() as int)
    } else {
        Seq::empty()
    }
}

/// The index of the first `c` in `s`, or the number of characters of `s`.
pub fn find_first(s: &str, c: char) -> (k: usize)
    ensures
        k == first_index(s@, c),
        k <= s@.len(),
{
    let n = s.unicode_len();
    let mut i: usize = 0;
    while i < n
        invariant
            i <= n,
            n == s@.len(),
            first_index(s@, c) == first_from(s@, c, i as int),
        decreases n - i,
    {
        if s.get_char(i) == c {
            return i;
        }
        i += 1;
    }
    i
}

/// The two sides of the first `c` in `s`, as owned strings.
pub fn split_first(s: &str, c: char) -> (r: (String, String))
    ensures
        r.0@ == before(s@, c),
        r.1@ == after(s@, c),
{
    let n = s.unicode_len();
    let k = find_first(s, c);
    let head = String::from_str(s.substring_char(0, k));
    if k < n {
        let tail = String::from_str(s.substring_char(k + 1, n));
        (head, tail)
    } else {
        (head, String::new())
    }
}

} // verus!
