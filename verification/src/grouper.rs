//! The expression grouper: flat tokens to call trees.

use vstd::prelude::*;
use vstd::string::*;
use crate::text::{first_index, before, after, find_first, split_first};
use crate::token::{Token, Tok, toks, clone_token};
use crate::lexer::ParseError;

verus! {

/// The binding that a bare name stands for: `param:source` binds `param` to
/// `source` (what follows a second colon is dropped), and a name without a
/// colon binds the name to the signal of the same name.
pub open spec fn binding(x: Seq<char>) -> Tok {
    if first_index(x, ':') < x.len() {
        Tok::IO(before(x, ':'), before(after(x, ':'), ':'))
    } else {
        Tok::IO(x, x)
    }
}

/// The call head that a chip name stands for: `chip.output` reads the named
/// output, split at the first dot; a name without a dot is the chip itself.
pub open spec fn qualify(x: Seq<char>) -> Tok {
    if first_index(x, '.') < x.len() {
        Tok::ChipIO(before(x, '.'), after(x, '.'))
    } else {
        Tok::Chip(x)
    }
}

/// The head that the first token of a run stands for: a chip name is
/// qualified, any other token is taken as it is.
pub open spec fn head_of(t: Tok) -> Tok {
    match t {
        Tok::Chip(x) => qualify(x),
        _ => t,
    }
}

/// What the grouper remembers between two tokens of a run.
pub struct GroupState {
    /// The head and the arguments grouped so far.
    pub parts: Seq<Tok>,
    /// The parenthesis depth.
    pub depth: int,
    /// The tokens of the argument being gathered.
    pub run: Seq<Tok>,
}

/// The grouper after one more argument, or the argument's error.
pub open spec fn absorb(st: GroupState, arg: Result<Tok, ParseError>, depth: int) -> Result<
    GroupState,
    ParseError,
> {
    match arg {
        Ok(t) => Ok(GroupState { parts: st.parts.push(t), depth, run: Seq::empty() }),
        Err(e) => Err(e),
    }
}

/// The tree of one run of tokens.
///
/// A single bare name is a binding; a single literal or call stands for
/// itself. Otherwise the first token is the head, a chip name among them
/// qualified, and the arguments are the comma-separated runs inside its
/// parentheses, each grouped in turn. A bare name with no arguments is a
/// binding. An empty run is an error.
pub open spec fn group(tokens: Seq<Tok>) -> Result<Tok, ParseError>
    decreases tokens.len(), tokens.len() + 1,
{
    if tokens.len() == 0 {
        Err(ParseError::EmptyArgument)
    } else if tokens.len() == 1 && (tokens[0] is True || tokens[0] is False
        || tokens[0] is Expression) {
        Ok(tokens[0])
    } else {
        match group_scan(tokens, tokens.len()) {
            Ok(st) => if st.parts.len() == 1 && st.parts[0] is Input {
                Ok(binding(st.parts[0]->Input_0))
            } else {
                Ok(Tok::Expression(st.parts))
            },
            Err(e) => Err(e),
        }
    }
}

/// The grouper after the first `n` tokens of a run, or the first error.
///
/// The first `(` opens the argument list; a `,` at depth one and the `)` that
/// closes the list each end an argument, and nothing before the closing `)`
/// is no argument. Tokens outside the list are skipped. The comparisons of
/// lengths always hold: an argument is shorter than the run it stands in.
pub open spec fn group_scan(tokens: Seq<Tok>, n: nat) -> Result<GroupState, ParseError>
    decreases tokens.len(), n,
{
    if n == 0 || n > tokens.len() {
        Ok(GroupState { parts: seq![head_of(tokens[0])], depth: 0, run: Seq::empty() })
    } else {
        match group_scan(tokens, (n - 1) as nat) {
            Err(e) => Err(e),
            Ok(st) => {
                let t = tokens[n - 1];
                if t is LParen {
                    Ok(
                        GroupState {
                            depth: st.depth + 1,
                            run: if st.depth + 1 == 1 {
                                Seq::empty()
                            } else {
                                st.run.push(t)
                            },
                            ..st
                        },
                    )
                } else if t is RParen {
                    if st.depth - 1 == 0 {
                        if st.run.len() == 0 {
                            Ok(GroupState { depth: 0, ..st })
                        } else if st.run.len() < tokens.len() {
                            absorb(st, group(st.run), 0)
                        } else {
                            Err(ParseError::EmptyArgument)
                        }
                    } else {
                        Ok(GroupState { depth: st.depth - 1, run: st.run.push(t), ..st })
                    }
                } else if st.depth == 1 && t is Comma {
                    if st.run.len() < tokens.len() {
                        absorb(st, group(st.run), 1)
                    } else {
                        Err(ParseError::EmptyArgument)
                    }
                } else if st.depth > 0 {
                    Ok(GroupState { run: st.run.push(t), ..st })
                } else {
                    Ok(st)
                }
            },
        }
    }
}

/// Once the grouper has failed, later tokens change nothing.
pub proof fn lemma_group_error_stays(tokens: Seq<Tok>, n: nat, m: nat)
    requires
        n <= m <= tokens.len(),
        group_scan(tokens, n) is Err,
    ensures
        group_scan(tokens, m) == group_scan(tokens, n),
    decreases m,
{
    if n < m {
        lemma_group_error_stays(tokens, n, (m - 1) as nat);
    }
}

/// The value of a result that holds one token.
pub open spec fn token_result(r: Result<Token, ParseError>) -> Result<Tok, ParseError> {
    match r {
        Ok(t) => Ok(t@),
        Err(e) => Err(e),
    }
}

/// Turns a bare name into the binding it stands for.
pub fn bind(x: &str) -> (r: Token)
    ensures
        r@ == binding(x@),
{
    let n = x.unicode_len();
    if find_first(x, ':') < n {
        let (param, rest) = split_first(x, ':');
        let (source, _) = split_first(rest.as_str(), ':');
        Token::IO(param, source)
    } else {
        Token::IO(String::from_str(x), String::from_str(x))
    }
}

/// Turns a chip name into the call head it stands for.
pub fn qualified(x: &str) -> (r: Token)
    ensures
        r@ == qualify(x@),
{
    let n = x.unicode_len();
    if find_first(x, '.') < n {
        let (chip, output) = split_first(x, '.');
        Token::ChipIO(chip, output)
    } else {
        Token::Chip(String::from_str(x))
    }
}

/// Groups one run of flat tokens into a tree.
pub fn parse_expressions(tokens: &Vec<Token>) -> (result: Result<Token, ParseError>)
    ensures
        token_result(result) == group(toks(tokens@)),
    decreases tokens.len(),
{
    let ghost ts = toks(tokens@);
    let n = tokens.len();
    if n == 0 {
        return Err(ParseError::EmptyArgument);
    }
    assert(ts[0] == tokens[0]@);
    if n == 1 {
        match &tokens[0] {
            Token::True => {
                return Ok(Token::True);
            },
            Token::False => {
                return Ok(Token::False);
            },
            Token::Expression(_) => {
                return Ok(clone_token(&tokens[0]));
            },
            _ => {},
        }
    }
    let mut parts: Vec<Token> = Vec::new();
    let head = match &tokens[0] {
        Token::Chip(x) => qualified(x.as_str()),
        _ => clone_token(&tokens[0]),
    };
    parts.push(head);
    let mut depth: i128 = 0;
    let mut run: Vec<Token> = Vec::new();
    let mut i: usize = 0;
    assert(toks(parts@) =~= seq![head_of(ts[0])]);
    assert(toks(run@) =~= Seq::<Tok>::empty());
    while i < n
        invariant
            i <= n,
            n == tokens.len(),
            ts == toks(tokens@),
            -(i as int) <= depth <= i as int,
            run.len() <= i,
            depth >= 1 ==> run.len() + 1 <= i,
            parts.len() >= 1,
            group_scan(ts, i as nat) == Ok::<GroupState, ParseError>(
                GroupState { parts: toks(parts@), depth: depth as int, run: toks(run@) },
            ),
        decreases n - i,
    {
        let ghost old_run = run@;
        let ghost old_parts = parts@;
        assert(ts[i as int] == tokens[i as int]@);
        match &tokens[i] {
            Token::LParen => {
                depth = depth + 1;
                if depth == 1 {
                    run = Vec::new();
                    assert(toks(run@) =~= Seq::<Tok>::empty());
                } else {
                    run.push(Token::LParen);
                    assert(toks(run@) =~= toks(old_run).push(Tok::LParen));
                }
            },
            Token::RParen => {
                depth = depth - 1;
                if depth != 0 {
                    run.push(Token::RParen);
                    assert(toks(run@) =~= toks(old_run).push(Tok::RParen));
                } else if run.len() > 0 {
                    match parse_expressions(&run) {
                        Ok(arg) => {
                            parts.push(arg);
                            assert(toks(parts@) =~= toks(old_parts).push(arg@));
                            run = Vec::new();
                            assert(toks(run@) =~= Seq::<Tok>::empty());
                        },
                        Err(e) => {
                            proof {
                                lemma_group_error_stays(ts, (i + 1) as nat, n as nat);
                            }
                            return Err(e);
                        },
                    }
                } else {
                    assert(toks(run@) =~= Seq::<Tok>::empty());
                }
            },
            Token::Comma => {
                if depth == 1 {
                    match parse_expressions(&run) {
                        Ok(arg) => {
                            parts.push(arg);
                            assert(toks(parts@) =~= toks(old_parts).push(arg@));
                            run = Vec::new();
                            assert(toks(run@) =~= Seq::<Tok>::empty());
                        },
                        Err(e) => {
                            proof {
                                lemma_group_error_stays(ts, (i + 1) as nat, n as nat);
                            }
                            return Err(e);
                        },
                    }
                } else if depth > 0 {
                    run.push(Token::Comma);
                    assert(toks(run@) =~= toks(old_run).push(Tok::Comma));
                }
            },
            _ => {
                if depth > 0 {
                    let t = clone_token(&tokens[i]);
                    run.push(t);
                    assert(toks(run@) =~= toks(old_run).push(t@));
                }
            },
        }
        i += 1;
    }
    if parts.len() == 1 {
        match &parts[0] {
            Token::Input(x) => {
                return Ok(bind(x.as_str()));
            },
            _ => {},
        }
    }
    assert(Token::Expression(parts)@->Expression_0 =~= toks(parts@));
    Ok(Token::Expression(parts))
}

/// An argument is shorter than the run it stands in: the gathered tokens
/// are fewer than the tokens read, and fewer by one inside the argument list.
pub proof fn lemma_group_run_short(tokens: Seq<Tok>, n: nat)
    requires
        n <= tokens.len(),
        group_scan(tokens, n) is Ok,
    ensures
        group_scan(tokens, n)->Ok_0.run.len() <= n,
        group_scan(tokens, n)->Ok_0.depth >= 1 ==> group_scan(tokens, n)->Ok_0.run.len() + 1 <= n,
    decreases n,
{
    if n > 0 {
        lemma_group_run_short(tokens, (n - 1) as nat);
    }
}

} // verus!
