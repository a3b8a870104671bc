//! The scanner: source text to words.

use vstd::prelude::*;
use vstd::string::*;
use crate::text::{words_view, is_space, is_punct, char_is_space, char_is_punct};

verus! {

/// What the scanner remembers between two characters.
pub struct ScanState {
    /// The words completed so far.
    pub words: Seq<Seq<char>>,
    /// The word being gathered.
    pub word: Seq<char>,
    /// Whether the scanner is inside a comment.
    pub in_comment: bool,
}

/// The scanner after reading one more character.
///
/// Two slashes in a row start a comment, which runs to the end of its line.
/// A comment and white space each end the word before them and are part of
/// none. A punctuation character ends the word before it and is a word
/// itself.
pub open spec fn scan_step(st: ScanState, c: char) -> ScanState {
    if st.in_comment {
        ScanState { in_comment: c != '\n', ..st }
    } else if is_space(c) {
        ScanState { words: flushed(st), word: Seq::empty(), in_comment: false }
    } else if is_punct(c) {
        ScanState { words: flushed(st).push(seq![c]), word: Seq::empty(), in_comment: false }
    } else if c == '/' && st.word.len() > 0 && st.word.last() == '/' {
        ScanState {
            words: if st.word.len() > 1 {
                st.words.push(st.word.drop_last())
            } else {
                st.words
            },
            word: Seq::empty(),
            in_comment: true,
        }
    } else {
        ScanState { word: st.word.push(c), ..st }
    }
}

/// The completed words, with the gathered word added if it is not empty.
pub open spec fn flushed(st: ScanState) -> Seq<Seq<char>> {
    if st.word.len() > 0 {
        st.words.push(st.word)
    } else {
        st.words
    }
}

/// The scanner after reading the first `n` characters of `s`.
pub open spec fn scan_prefix(s: Seq<char>, n: nat) -> ScanState
    decreases n,
{
    if n == 0 {
        ScanState { words: Seq::empty(), word: Seq::empty(), in_comment: false }
    } else {
        scan_step(scan_prefix(s, (n - 1) as nat), s[n - 1])
    }
}

/// The words of a source text.
pub open spec fn scan_words(s: Seq<char>) -> Seq<Seq<char>> {
    flushed(scan_prefix(s, s.len()))
}

/// Splits source text into words, leaving comments and white space out.
pub fn tokenize(code: &str) -> (result: Vec<String>)
    ensures
        words_view(result@) == scan_words(code@),
{
    let mut result: Vec<String> = Vec::new();
    let mut word = String::new();
    let mut word_len: usize = 0;
    let mut in_comment = false;
    let n = code.unicode_len();
    let mut i: usize = 0;
    assert(words_view(result@) =~= Seq::<Seq<char>>::empty());
    while i < n
        invariant
            i <= n,
            n == code@.len(),
            word_len == word@.len(),
            word_len <= i,
            scan_prefix(code@, i as nat) == (ScanState {
                words: words_view(result@),
                word: word@,
                in_comment,
            }),
        decreases n - i,
    {
        let c = code.get_char(i);
        let ghost prev = scan_prefix(code@, i as nat);
        assert(scan_prefix(code@, (i + 1) as nat) == scan_step(prev, c));
        if in_comment {
            if c == '\n' {
                in_comment = false;
            }
        } else if char_is_space(c) {
            if word_len > 0 {
                let ghost before_push = result@;
                result.push(word);
                assert(words_view(result@) =~= words_view(before_push).push(word@));
                word = String::new();
                word_len = 0;
            }
            assert(word@ =~= Seq::<char>::empty());
        } else if char_is_punct(c) {
            if word_len > 0 {
                let ghost before_push = result@;
                result.push(word);
                assert(words_view(result@) =~= words_view(before_push).push(word@));
                word = String::new();
                word_len = 0;
            }
            let piece = String::from_str(code.substring_char(i, i + 1));
            assert(piece@ =~= seq![c]);
            let ghost before_push = result@;
            result.push(piece);
            assert(words_view(result@) =~= words_view(before_push).push(seq![c]));
            assert(word@ =~= Seq::<char>::empty());
        } else {
            let ghost old_word = word@;
            if c == '/' && word_len > 0 && word.as_str().get_char(word_len - 1) == '/' {
                if word_len > 1 {
                    let shorter = String::from_str(word.as_str().substring_char(0, word_len - 1));
                    assert(shorter@ =~= old_word.drop_last());
                    let ghost before_push = result@;
                    result.push(shorter);
                    assert(words_view(result@) =~= words_view(before_push).push(
                        old_word.drop_last(),
                    ));
                }
                word = String::new();
                word_len = 0;
                in_comment = true;
                assert(word@ =~= Seq::<char>::empty());
            } else {
                let piece = code.substring_char(i, i + 1);
                assert(piece@ =~= seq![c]);
                word.append(piece);
                word_len += 1;
                assert(word@ =~= old_word.push(c));
            }
        }
        i += 1;
    }
    if word_len > 0 {
        let ghost before_push = result@;
        result.push(word);
        assert(words_view(result@) =~= words_view(before_push).push(word@));
    }
    result
}

} // verus!
