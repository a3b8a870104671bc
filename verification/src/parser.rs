//! Statements: splitting flat tokens into statements, normalising them, and
//! the whole way from source text to a chip body.

use vstd::prelude::*;
use crate::grouper::{group, qualify, qualified, parse_expressions};
use crate::lexer::{ParseError, LexState, lex, lex_spec, lex_prefix, tokens_result, lemma_lex_error_stays};
use crate::scanner::{tokenize, scan_words};
use crate::token::{Token, Tok, toks, clone_token};

verus! {

/// What the statement splitter remembers between two tokens.
pub struct SplitState {
    /// The output names and trees of the statements completed so far.
    pub out: Seq<Tok>,
    /// The tokens of the right-hand side being gathered.
    pub run: Seq<Tok>,
}

/// The completed statements with the gathered right-hand side, if there is
/// one, grouped and added.
pub open spec fn flush_run(st: SplitState) -> Result<Seq<Tok>, ParseError> {
    if st.run.len() > 0 {
        match group(st.run) {
            Ok(t) => Ok(st.out.push(t)),
            Err(e) => Err(e),
        }
    } else {
        Ok(st.out)
    }
}

/// The splitter after the first `n` tokens, or the first error.
///
/// An output name ends the right-hand side before it and is kept; `=` is
/// dropped; a chip name with a dot becomes a qualified head.
pub open spec fn split_prefix(tokens: Seq<Tok>, n: nat) -> Result<SplitState, ParseError>
    decreases n,
{
    if n == 0 {
        Ok(SplitState { out: Seq::empty(), run: Seq::empty() })
    } else {
        match split_prefix(tokens, (n - 1) as nat) {
            Err(e) => Err(e),
            Ok(st) => match tokens[n - 1] {
                Tok::Output(_) => match flush_run(st) {
                    Ok(out) => Ok(SplitState { out: out.push(tokens[n - 1]), run: Seq::empty() }),
                    Err(e) => Err(e),
                },
                Tok::Assign => Ok(SplitState { run: Seq::empty(), ..st }),
                Tok::Chip(x) => Ok(SplitState { run: st.run.push(qualify(x)), ..st }),
                _ => Ok(SplitState { run: st.run.push(tokens[n - 1]), ..st }),
            },
        }
    }
}

/// The statements of a flat token sequence: each output name followed by the
/// tree of its right-hand side.
pub open spec fn statements(tokens: Seq<Tok>) -> Result<Seq<Tok>, ParseError> {
    match split_prefix(tokens, tokens.len()) {
        Ok(st) => flush_run(st),
        Err(e) => Err(e),
    }
}

/// Once the splitter has failed, later tokens change nothing.
pub proof fn lemma_split_error_stays(tokens: Seq<Tok>, n: nat, m: nat)
    requires
        n <= m,
        split_prefix(tokens, n) is Err,
    ensures
        split_prefix(tokens, m) == split_prefix(tokens, n),
    decreases m,
{
    if n < m {
        lemma_split_error_stays(tokens, n, (m - 1) as nat);
    }
}

/// Groups the right-hand side of each statement into a tree.
pub fn lex2(tokens: &Vec<Token>) -> (result: Result<Vec<Token>, ParseError>)
    ensures
        tokens_result(result) == statements(toks(tokens@)),
{
    let ghost ts = toks(tokens@);
    let mut out: Vec<Token> = Vec::new();
    let mut run: Vec<Token> = Vec::new();
    let mut i: usize = 0;
    assert(toks(out@) =~= Seq::<Tok>::empty());
    assert(toks(run@) =~= Seq::<Tok>::empty());
    while i < tokens.len()
        invariant
            i <= tokens.len(),
            ts == toks(tokens@),
            split_prefix(ts, i as nat) == Ok::<SplitState, ParseError>(
                SplitState { out: toks(out@), run: toks(run@) },
            ),
        decreases tokens.len() - i,
    {
        let ghost old_out = out@;
        let ghost old_run = run@;
        assert(ts[i as int] == tokens[i as int]@);
        match &tokens[i] {
            Token::Output(_) => {
                if run.len() > 0 {
                    match parse_expressions(&run) {
                        Ok(t) => {
                            out.push(t);
                            assert(toks(out@) =~= toks(old_out).push(t@));
                        },
                        Err(e) => {
                            proof {
                                lemma_split_error_stays(ts, (i + 1) as nat, ts.len());
                            }
                            return Err(e);
                        },
                    }
                    run = Vec::new();
                    assert(toks(run@) =~= Seq::<Tok>::empty());
                }
                let ghost mid_out = out@;
                let t = clone_token(&tokens[i]);
                out.push(t);
                assert(toks(out@) =~= toks(mid_out).push(t@));
            },
            Token::Assign => {
                run = Vec::new();
                assert(toks(run@) =~= Seq::<Tok>::empty());
            },
            Token::Chip(x) => {
                let t = qualified(x.as_str());
                run.push(t);
                assert(toks(run@) =~= toks(old_run).push(t@));
            },
            _ => {
                let t = clone_token(&tokens[i]);
                run.push(t);
                assert(toks(run@) =~= toks(old_run).push(t@));
            },
        }
        i += 1;
    }
    if run.len() > 0 {
        let ghost old_out = out@;
        match parse_expressions(&run) {
            Ok(t) => {
                out.push(t);
                assert(toks(out@) =~= toks(old_out).push(t@));
            },
            Err(e) => {
                return Err(e);
            },
        }
    }
    Ok(out)
}

/// The normal form of a token: every chip name with a dot, at any depth, is a
/// qualified head.
pub open spec fn normal(t: Tok) -> Tok
    decreases t,
{
    match t {
        Tok::Chip(x) => qualify(x),
        Tok::Expression(parts) => Tok::Expression(
            Seq::new(
                parts.len(),
                |i: int|
                    if 0 <= i < parts.len() {
                        normal(parts[i])
                    } else {
                        t
                    },
            ),
        ),
        _ => t,
    }
}

/// The normal forms of a run of tokens.
pub open spec fn normalize(tokens: Seq<Tok>) -> Seq<Tok> {
    Seq::new(tokens.len(), |i: int| normal(tokens[i]))
}

/// Normalising twice is normalising once.
pub proof fn lemma_normal_idempotent(t: Tok)
    ensures
        normal(normal(t)) == normal(t),
    decreases t,
{
    match t {
        Tok::Expression(parts) => {
            let once = normal(t)->Expression_0;
            assert forall|i: int| 0 <= i < parts.len() implies normal(#[trigger] once[i])
                == once[i] by {
                lemma_normal_idempotent(parts[i]);
            }
            assert(normal(normal(t))->Expression_0 =~= once);
        },
        _ => {},
    }
}

/// Normalising a token sequence twice is normalising it once.
pub proof fn lemma_normalize_idempotent(tokens: Seq<Tok>)
    ensures
        normalize(normalize(tokens)) == normalize(tokens),
{
    assert forall|i: int| 0 <= i < tokens.len() implies normal(normal(tokens[i])) == normal(
        tokens[i],
    ) by {
        lemma_normal_idempotent(tokens[i]);
    }
    assert(normalize(normalize(tokens)) =~= normalize(tokens));
}

/// The normal form of one token.
pub fn normalized(t: &Token) -> (r: Token)
    ensures
        r@ == normal(t@),
    decreases t,
{
    match t {
        Token::Chip(x) => qualified(x.as_str()),
        Token::Expression(v) => {
            let parts = lex_final(v);
            assert(t@->Expression_0 =~= toks(v@));
            assert(Token::Expression(parts)@->Expression_0 =~= toks(parts@));
            assert(normal(t@)->Expression_0 =~= normalize(toks(v@)));
            Token::Expression(parts)
        },
        _ => clone_token(t),
    }
}

/// Rewrites every chip name that still holds a dot into a qualified head.
pub fn lex_final(tokens: &Vec<Token>) -> (result: Vec<Token>)
    ensures
        toks(result@) == normalize(toks(tokens@)),
    decreases tokens,
{
    let mut result: Vec<Token> = Vec::new();
    let mut i: usize = 0;
    while i < tokens.len()
        invariant
            i <= tokens.len(),
            result.len() == i,
            forall|j: int| 0 <= j < i ==> result[j]@ == normal(tokens[j]@),
        decreases tokens.len() - i,
    {
        let t = normalized(&tokens[i]);
        result.push(t);
        i += 1;
    }
    assert(toks(result@) =~= normalize(toks(tokens@)));
    result
}

/// The body of the chip that a source text defines, or its first error.
pub open spec fn parse_spec(code: Seq<char>) -> Result<Seq<Tok>, ParseError> {
    match lex_spec(scan_words(code)) {
        Err(e) => Err(e),
        Ok(flat) => match statements(flat) {
            Err(e) => Err(e),
            Ok(grouped) => Ok(normalize(grouped)),
        },
    }
}

/// Parses the source text of a chip into its body: for each statement the
/// output name, then the tree of the right-hand side.
pub fn parse(code: &str) -> (result: Result<Vec<Token>, ParseError>)
    ensures
        tokens_result(result) == parse_spec(code@),
{
    let words = tokenize(code);
    match lex(&words) {
        Err(e) => Err(e),
        Ok(flat) => match lex2(&flat) {
            Err(e) => Err(e),
            Ok(grouped) => Ok(lex_final(&grouped)),
        },
    }
}

/// A source text whose first word is `(`, `)` or `,` is rejected: an output
/// name was expected in its place.
pub proof fn lemma_punctuation_first_rejected(code: Seq<char>)
    requires
        scan_words(code).len() > 0,
        scan_words(code)[0] == seq!['('] || scan_words(code)[0] == seq![')'] || scan_words(code)[0]
            == seq![','],
    ensures
        parse_spec(code) == Err::<Seq<Tok>, ParseError>(ParseError::ExpectedOutput(0)),
{
    let words = scan_words(code);
    reveal_with_fuel(lex_prefix, 2);
    assert(lex_prefix(words, 1) == Err::<LexState, ParseError>(ParseError::ExpectedOutput(0)));
    lemma_lex_error_stays(words, 1, words.len());
}

/// A parsed body is in normal form: normalising it again changes nothing.
pub proof fn lemma_parse_is_normal(code: Seq<char>)
    requires
        parse_spec(code) is Ok,
    ensures
        normalize(parse_spec(code)->Ok_0) == parse_spec(code)->Ok_0,
{
    lemma_normalize_idempotent(statements(lex_spec(scan_words(code))->Ok_0)->Ok_0);
}

} // verus!
