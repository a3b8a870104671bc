//! The structural lexer: words to flat tokens.

use vstd::prelude::*;
use crate::text::{words_view, is_true_word, is_false_word, is_single, word_is_true, word_is_false};
use crate::token::{Token, Tok, toks};

verus! {

/// Why a source text is not a chip definition.
#[derive(Debug, Clone, Copy, PartialEq, Eq, Structural)]
pub enum ParseError {
    /// `(`, `)` or `,` stands where an output name was expected; the index of
    /// the word.
    ExpectedOutput(usize),
    /// Something other than `=` follows an output name; the index of the word.
    ExpectedAssign(usize),
    /// `(` does not follow a name; the index of the word.
    UnexpectedOpen(usize),
    /// `)` closes no call; the index of the word.
    UnexpectedClose(usize),
    /// The words end inside a call; the number of words, which is where a
    /// `)` was expected.
    UnclosedCall(usize),
    /// An argument list holds an empty argument.
    EmptyArgument,
}

/// What the lexer expects next.
pub enum Phase {
    Output,
    AssignOp,
    Rhs,
}

/// What the lexer remembers between two words.
pub struct LexState {
    pub tokens: Seq<Tok>,
    pub phase: Phase,
    pub depth: int,
}

/// The token of a word on the right-hand side that is not punctuation.
pub open spec fn classify(w: Seq<char>) -> Tok {
    if is_true_word(w) {
        Tok::True
    } else if is_false_word(w) {
        Tok::False
    } else {
        Tok::Input(w)
    }
}

/// The lexer after the word `w`, which is the word number `at`.
///
/// A statement is an output name, `=`, and a right-hand side that ends with
/// the `)` that brings the depth back to zero. On the right-hand side `(` must
/// follow a name, which thereby becomes a chip, and `)` must close a call
/// that is open.
pub open spec fn lex_step(st: LexState, w: Seq<char>, at: usize) -> Result<LexState, ParseError> {
    match st.phase {
        Phase::Output => if w == seq!['('] || w == seq![')'] || w == seq![','] {
            Err(ParseError::ExpectedOutput(at))
        } else {
            Ok(LexState { tokens: st.tokens.push(Tok::Output(w)), phase: Phase::AssignOp, ..st })
        },
        Phase::AssignOp => if w == seq!['='] {
            Ok(LexState { tokens: st.tokens.push(Tok::Assign), phase: Phase::Rhs, depth: 0 })
        } else {
            Err(ParseError::ExpectedAssign(at))
        },
        Phase::Rhs => if w == seq![')'] {
            if st.depth <= 0 {
                Err(ParseError::UnexpectedClose(at))
            } else {
                Ok(
                    LexState {
                        tokens: st.tokens.push(Tok::RParen),
                        phase: if st.depth - 1 == 0 {
                            Phase::Output
                        } else {
                            Phase::Rhs
                        },
                        depth: st.depth - 1,
                    },
                )
            }
        } else if w == seq!['('] {
            if st.tokens.len() > 0 && st.tokens.last() is Input {
                Ok(
                    LexState {
                        tokens: st.tokens.drop_last().push(
                            Tok::Chip(st.tokens.last()->Input_0),
                        ).push(Tok::LParen),
                        depth: st.depth + 1,
                        ..st
                    },
                )
            } else {
                Err(ParseError::UnexpectedOpen(at))
            }
        } else if w == seq![','] {
            Ok(LexState { tokens: st.tokens.push(Tok::Comma), ..st })
        } else {
            Ok(LexState { tokens: st.tokens.push(classify(w)), ..st })
        },
    }
}

/// The lexer after the first `n` words, or the first error among them.
pub open spec fn lex_prefix(words: Seq<Seq<char>>, n: nat) -> Result<LexState, ParseError>
    decreases n,
{
    if n == 0 {
        Ok(LexState { tokens: Seq::empty(), phase: Phase::Output, depth: 0 })
    } else {
        match lex_prefix(words, (n - 1) as nat) {
            Ok(st) => lex_step(st, words[n - 1], (n - 1) as usize),
            Err(e) => Err(e),
        }
    }
}

/// The flat tokens of a run of words, or the first syntax error. Words
/// that end inside a call are an error.
pub open spec fn lex_spec(words: Seq<Seq<char>>) -> Result<Seq<Tok>, ParseError> {
    match lex_prefix(words, words.len()) {
        Ok(st) => if st.phase is Rhs && st.depth > 0 {
            Err(ParseError::UnclosedCall(words.len() as usize))
        } else {
            Ok(st.tokens)
        },
        Err(e) => Err(e),
    }
}

/// The value of a result that holds tokens.
pub open spec fn tokens_result(r: Result<Vec<Token>, ParseError>) -> Result<Seq<Tok>, ParseError> {
    match r {
        Ok(v) => Ok(toks(v@)),
        Err(e) => Err(e),
    }
}

/// Classifies the words of one or more statements.
pub fn lex(tokens: &Vec<String>) -> (result: Result<Vec<Token>, ParseError>)
    ensures
        tokens_result(result) == lex_spec(words_view(tokens@)),
{
    let ghost words = words_view(tokens@);
    let mut result: Vec<Token> = Vec::new();
    let mut has_output = false;
    let mut assigning = false;
    let mut depth: usize = 0;
    let mut i: usize = 0;
    assert(toks(result@) =~= Seq::<Tok>::empty());
    while i < tokens.len()
        invariant
            i <= tokens.len(),
            words == words_view(tokens@),
            depth <= i,
            assigning ==> has_output,
            lex_prefix(words, i as nat) == Ok::<LexState, ParseError>(
                LexState {
                    tokens: toks(result@),
                    phase: if !has_output {
                        Phase::Output
                    } else if !assigning {
                        Phase::AssignOp
                    } else {
                        Phase::Rhs
                    },
                    depth: depth as int,
                },
            ),
        decreases tokens.len() - i,
    {
        let w = tokens[i].as_str();
        let ghost st = lex_prefix(words, i as nat)->Ok_0;
        let ghost before_tokens = result@;
        assert(words[i as int] == w@);
        assert(lex_prefix(words, (i + 1) as nat) == lex_step(st, w@, i));
        let open = is_single(w, '(');
        let close = is_single(w, ')');
        let comma = is_single(w, ',');
        if !has_output {
            if open || close || comma {
                assert(lex_prefix(words, words.len()) == lex_prefix(words, (i + 1) as nat)) by {
                    lemma_lex_error_stays(words, (i + 1) as nat, words.len());
                }
                return Err(ParseError::ExpectedOutput(i));
            }
            result.push(Token::Output(tokens[i].clone()));
            assert(toks(result@) =~= toks(before_tokens).push(Tok::Output(w@)));
            has_output = true;
        } else if !assigning {
            if !is_single(w, '=') {
                assert(lex_prefix(words, words.len()) == lex_prefix(words, (i + 1) as nat)) by {
                    lemma_lex_error_stays(words, (i + 1) as nat, words.len());
                }
                return Err(ParseError::ExpectedAssign(i));
            }
            result.push(Token::Assign);
            assert(toks(result@) =~= toks(before_tokens).push(Tok::Assign));
            assigning = true;
            depth = 0;
        } else if close {
            if depth == 0 {
                assert(lex_prefix(words, words.len()) == lex_prefix(words, (i + 1) as nat)) by {
                    lemma_lex_error_stays(words, (i + 1) as nat, words.len());
                }
                return Err(ParseError::UnexpectedClose(i));
            }
            result.push(Token::RParen);
            assert(toks(result@) =~= toks(before_tokens).push(Tok::RParen));
            depth = depth - 1;
            if depth == 0 {
                assigning = false;
                has_output = false;
            }
        } else if open {
            match result.pop() {
                Some(Token::Input(name)) => {
                    let ghost rest = result@;
                    assert(toks(rest) =~= toks(before_tokens).drop_last());
                    assert(toks(before_tokens).last() == Tok::Input(name@));
                    result.push(Token::Chip(name));
                    result.push(Token::LParen);
                    assert(toks(result@) =~= toks(rest).push(Tok::Chip(name@)).push(Tok::LParen));
                    depth = depth + 1;
                },
                _ => {
                    assert(!(st.tokens.len() > 0 && st.tokens.last() is Input)) by {
                        if before_tokens.len() > 0 {
                            assert(toks(before_tokens).last() == before_tokens.last()@);
                        }
                    }
                    assert(lex_prefix(words, words.len()) == lex_prefix(words, (i + 1) as nat))
                        by {
                        lemma_lex_error_stays(words, (i + 1) as nat, words.len());
                    }
                    return Err(ParseError::UnexpectedOpen(i));
                },
            }
        } else if comma {
            result.push(Token::Comma);
            assert(toks(result@) =~= toks(before_tokens).push(Tok::Comma));
        } else {
            let t = if word_is_true(w) {
                Token::True
            } else if word_is_false(w) {
                Token::False
            } else {
                Token::Input(tokens[i].clone())
            };
            assert(t@ == classify(w@));
            result.push(t);
            assert(toks(result@) =~= toks(before_tokens).push(classify(w@)));
        }
        i += 1;
    }
    if has_output && assigning && depth > 0 {
        return Err(ParseError::UnclosedCall(tokens.len()));
    }
    Ok(result)
}

/// Once the lexer has failed, later words change nothing.
pub proof fn lemma_lex_error_stays(words: Seq<Seq<char>>, n: nat, m: nat)
    requires
        n <= m,
        lex_prefix(words, n) is Err,
    ensures
        lex_prefix(words, m) == lex_prefix(words, n),
    decreases m,
{
    if n < m {
        lemma_lex_error_stays(words, n, (m - 1) as nat);
    }
}

/// The depth is never negative, and it is zero wherever the lexer is not on
/// a right-hand side: at each statement boundary every call is closed.
pub proof fn lemma_lex_depth(words: Seq<Seq<char>>, n: nat)
    requires
        lex_prefix(words, n) is Ok,
    ensures
        lex_prefix(words, n)->Ok_0.depth >= 0,
        !(lex_prefix(words, n)->Ok_0.phase is Rhs) ==> lex_prefix(words, n)->Ok_0.depth == 0,
    decreases n,
{
    if n > 0 {
        lemma_lex_depth(words, (n - 1) as nat);
    }
}

/// How many of the tokens are `(`.
pub open spec fn opens(ts: Seq<Tok>) -> int
    decreases ts.len(),
{
    if ts.len() == 0 {
        0
    } else {
        opens(ts.drop_last()) + if ts.last() is LParen {
            1int
        } else {
            0int
        }
    }
}

/// How many of the tokens are `)`.
pub open spec fn closes(ts: Seq<Tok>) -> int
    decreases ts.len(),
{
    if ts.len() == 0 {
        0
    } else {
        closes(ts.drop_last()) + if ts.last() is RParen {
            1int
        } else {
            0int
        }
    }
}

/// One more token counts if it is a parenthesis.
pub proof fn lemma_count_push(ts: Seq<Tok>, t: Tok)
    ensures
        opens(ts.push(t)) == opens(ts) + if t is LParen {
            1int
        } else {
            0int
        },
        closes(ts.push(t)) == closes(ts) + if t is RParen {
            1int
        } else {
            0int
        },
{
    assert(ts.push(t).drop_last() =~= ts);
}

/// The depth is the number of calls that are open: the `(` so far less the
/// `)` so far.
pub proof fn lemma_lex_counts(words: Seq<Seq<char>>, n: nat)
    requires
        lex_prefix(words, n) is Ok,
    ensures
        opens(lex_prefix(words, n)->Ok_0.tokens) - closes(lex_prefix(words, n)->Ok_0.tokens)
            == lex_prefix(words, n)->Ok_0.depth,
    decreases n,
{
    if n > 0 {
        lemma_lex_counts(words, (n - 1) as nat);
        lemma_lex_depth(words, (n - 1) as nat);
        let st = lex_prefix(words, (n - 1) as nat)->Ok_0;
        let w = words[n - 1];
        let ts = st.tokens;
        lemma_count_push(ts, Tok::Output(w));
        lemma_count_push(ts, Tok::Assign);
        lemma_count_push(ts, Tok::RParen);
        lemma_count_push(ts, Tok::Comma);
        lemma_count_push(ts, classify(w));
        if ts.len() > 0 && ts.last() is Input {
            let name = ts.last()->Input_0;
            lemma_count_push(ts.drop_last(), ts.last());
            assert(ts.drop_last().push(ts.last()) =~= ts);
            lemma_count_push(ts.drop_last(), Tok::Chip(name));
            lemma_count_push(ts.drop_last().push(Tok::Chip(name)), Tok::LParen);
        }
    }
}

/// The tokens of a text that is lexed through are balanced: as many `)` as
/// `(`.
pub proof fn lemma_lex_balanced(words: Seq<Seq<char>>)
    requires
        lex_spec(words) is Ok,
    ensures
        opens(lex_spec(words)->Ok_0) == closes(lex_spec(words)->Ok_0),
{
    lemma_lex_counts(words, words.len());
    lemma_lex_depth(words, words.len());
}

/// A `)` that closes no call is rejected, whatever follows it.
pub proof fn lemma_stray_close_rejected(words: Seq<Seq<char>>, i: nat)
    requires
        i < words.len(),
        words[i as int] == seq![')'],
        lex_prefix(words, i) is Ok,
        lex_prefix(words, i)->Ok_0.phase is Rhs,
        lex_prefix(words, i)->Ok_0.depth == 0,
    ensures
        lex_spec(words) == Err::<Seq<Tok>, ParseError>(ParseError::UnexpectedClose(i as usize)),
{
    assert(lex_prefix(words, i + 1) == lex_step(
        lex_prefix(words, i)->Ok_0,
        words[i as int],
        i as usize,
    ));
    lemma_lex_error_stays(words, i + 1, words.len());
}

} // verus!
