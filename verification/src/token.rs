//! Tokens of the chip language and their mathematical model.

use vstd::prelude::*;

verus! {

/// A token of the chip language. Flat tokens come out of the structural
/// lexer; `Expression` is the tree-shaped call node built by grouping.
#[derive(Debug, PartialEq, Eq)]
pub enum Token {
    /// A chip name used as a call head.
    Chip(String),
    /// A chip name qualified with the output to read.
    ChipIO(String, String),
    /// A name not yet known to be a chip or a signal.
    Input(String),
    /// A named binding: parameter, then source signal.
    IO(String, String),
    /// The output name on the left of a statement.
    Output(String),
    True,
    False,
    Assign,
    LParen,
    RParen,
    Comma,
    /// A call: the head first, then the arguments in order.
    Expression(Vec<Token>),
}

/// The mathematical value of a [`Token`]: names are character sequences and
/// a call holds the sequence of its parts.
pub enum Tok {
    Chip(Seq<char>),
    ChipIO(Seq<char>, Seq<char>),
    Input(Seq<char>),
    IO(Seq<char>, Seq<char>),
    Output(Seq<char>),
    True,
    False,
    Assign,
    LParen,
    RParen,
    Comma,
    Expression(Seq<Tok>),
}

impl View for Token {
    type V = Tok;

    open spec fn view(&self) -> Tok
        decreases self,
    {
        match self {
            Token::Chip(n) => Tok::Chip(n@),
            Token::ChipIO(n, o) => Tok::ChipIO(n@, o@),
            Token::Input(n) => Tok::Input(n@),
            Token::IO(p, s) => Tok::IO(p@, s@),
            Token::Output(n) => Tok::Output(n@),
            Token::True => Tok::True,
            Token::False => Tok::False,
            Token::Assign => Tok::Assign,
            Token::LParen => Tok::LParen,
            Token::RParen => Tok::RParen,
            Token::Comma => Tok::Comma,
            Token::Expression(v) => Tok::Expression(
                Seq::new(
                    v.len() as nat,
                    |i: int|
                        if 0 <= i < v.len() {
                            v[i].view()
                        } else {
                            Tok::True
                        },
                ),
            ),
        }
    }
}

/// The values of a run of tokens, in order.
pub open spec fn toks(v: Seq<Token>) -> Seq<Tok> {
    Seq::new(v.len(), |i: int| v[i]@)
}

/// A deep copy of a run of tokens.
pub fn clone_tokens(v: &Vec<Token>) -> (r: Vec<Token>)
    ensures
        toks(r@) == toks(v@),
    decreases v,
{
    let mut out: Vec<Token> = Vec::new();
    let mut i: usize = 0;
    while i < v.len()
        invariant
            i <= v.len(),
            out.len() == i,
            forall|j: int| 0 <= j < i ==> out[j]@ == v[j]@,
        decreases v.len() - i,
    {
        let t = clone_token(&v[i]);
        out.push(t);
        i += 1;
    }
    assert(toks(out@) =~= toks(v@));
    out
}

/// A deep copy of one token.
pub fn clone_token(t: &Token) -> (r: Token)
    ensures
        r@ == t@,
    decreases t,
{
    match t {
        Token::Chip(n) => Token::Chip(n.clone()),
        Token::ChipIO(n, o) => Token::ChipIO(n.clone(), o.clone()),
        Token::Input(n) => Token::Input(n.clone()),
        Token::IO(p, s) => Token::IO(p.clone(), s.clone()),
        Token::Output(n) => Token::Output(n.clone()),
        Token::True => Token::True,
        Token::False => Token::False,
        Token::Assign => Token::Assign,
        Token::LParen => Token::LParen,
        Token::RParen => Token::RParen,
        Token::Comma => Token::Comma,
        Token::Expression(v) => {
            let c = clone_tokens(v);
            assert(t@ == Tok::Expression(toks(v@))) by {
                assert(t@->Expression_0 =~= toks(v@));
            }
            assert(Token::Expression(c)@->Expression_0 =~= toks(c@));
            Token::Expression(c)
        },
    }
}

} // verus!
