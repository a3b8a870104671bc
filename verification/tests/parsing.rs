use chip_hdl::grouper::{bind, parse_expressions, qualified};
use chip_hdl::lexer::{lex, ParseError};
use chip_hdl::parser::{lex2, lex_final, normalized, parse};
use chip_hdl::scanner::tokenize;
use chip_hdl::token::{clone_token, clone_tokens, Token};

fn s(x: &str) -> String {
    x.to_string()
}

fn words(xs: &[&str]) -> Vec<String> {
    xs.iter().map(|x| x.to_string()).collect()
}

#[test]
fn tokenize_strips_comment_and_splits_at_punctuation() {
    let got = tokenize("// This is a comment\nOUT1 = NAND(a, b)");
    assert_eq!(got, words(&["OUT1", "=", "NAND", "(", "a", ",", "b", ")"]));
}

#[test]
fn tokenize_ends_a_word_at_white_space() {
    assert_eq!(tokenize("a b\tc\nd"), words(&["a", "b", "c", "d"]));
    assert_eq!(
        tokenize("OUT = NAND(a:a, b:b)"),
        words(&["OUT", "=", "NAND", "(", "a:a", ",", "b:b", ")"])
    );
    assert_eq!(tokenize("a : b"), words(&["a", ":", "b"]));
}

#[test]
fn tokenize_empty_text_has_no_words() {
    assert_eq!(tokenize(""), Vec::<String>::new());
    assert_eq!(tokenize("  \n\t "), Vec::<String>::new());
}

#[test]
fn tokenize_starts_a_comment_at_two_slashes() {
    assert_eq!(tokenize("x//y"), words(&["x"]));
    assert_eq!(tokenize("(//c\n)"), words(&["(", ")"]));
    assert_eq!(tokenize("a=b // rest"), words(&["a", "=", "b"]));
    assert_eq!(tokenize("a=b, // rest\nc"), words(&["a", "=", "b", ",", "c"]));
    assert_eq!(tokenize("ab//c\nd"), words(&["ab", "d"]));
    assert_eq!(tokenize("a/b / c"), words(&["a/b", "/", "c"]));
    assert_eq!(tokenize("a/ /b"), words(&["a/", "/b"]));
    assert_eq!(tokenize("///x\ny"), words(&["y"]));
}

#[test]
fn tokenize_comment_without_newline_runs_to_the_end() {
    assert_eq!(tokenize("a=// b(c)"), words(&["a", "="]));
}

#[test]
fn tokenize_ends_a_word_at_unicode_white_space() {
    assert_eq!(tokenize("a\u{a0}b\u{3000}=\u{2003}c"), words(&["a", "b", "=", "c"]));
}

#[test]
fn lex_classifies_a_call() {
    let got = lex(&tokenize("OUT = NAND(a:a, b:b)")).unwrap();
    assert_eq!(
        got,
        vec![
            Token::Output(s("OUT")),
            Token::Assign,
            Token::Chip(s("NAND")),
            Token::LParen,
            Token::Input(s("a:a")),
            Token::Comma,
            Token::Input(s("b:b")),
            Token::RParen,
        ]
    );
}

#[test]
fn lex_reads_literals_in_any_case() {
    assert_eq!(
        lex(&words(&["X", "=", "TrUe"])).unwrap(),
        vec![Token::Output(s("X")), Token::Assign, Token::True]
    );
    assert_eq!(
        lex(&words(&["X", "=", "FALSE"])).unwrap(),
        vec![Token::Output(s("X")), Token::Assign, Token::False]
    );
    assert_eq!(
        lex(&words(&["X", "=", "1"])).unwrap(),
        vec![Token::Output(s("X")), Token::Assign, Token::True]
    );
    assert_eq!(
        lex(&words(&["X", "=", "0"])).unwrap(),
        vec![Token::Output(s("X")), Token::Assign, Token::False]
    );
    assert_eq!(
        lex(&words(&["X", "=", "truth"])).unwrap(),
        vec![Token::Output(s("X")), Token::Assign, Token::Input(s("truth"))]
    );
}

#[test]
fn lex_starts_a_new_statement_when_depth_returns_to_zero() {
    let got = lex(&tokenize("A = F(x:x)\nB = G(y:y)")).unwrap();
    assert_eq!(
        got,
        vec![
            Token::Output(s("A")),
            Token::Assign,
            Token::Chip(s("F")),
            Token::LParen,
            Token::Input(s("x:x")),
            Token::RParen,
            Token::Output(s("B")),
            Token::Assign,
            Token::Chip(s("G")),
            Token::LParen,
            Token::Input(s("y:y")),
            Token::RParen,
        ]
    );
}

#[test]
fn lex_of_nothing_is_empty() {
    assert_eq!(lex(&Vec::new()).unwrap(), Vec::<Token>::new());
}

#[test]
fn open_paren_first_is_a_syntax_error() {
    assert_eq!(parse("(a)"), Err(ParseError::ExpectedOutput(0)));
    assert_eq!(parse("  // c\n( x"), Err(ParseError::ExpectedOutput(0)));
    assert_eq!(lex(&words(&["("])), Err(ParseError::ExpectedOutput(0)));
}

#[test]
fn punctuation_in_place_of_an_output_name_is_rejected() {
    assert_eq!(parse(")"), Err(ParseError::ExpectedOutput(0)));
    assert_eq!(parse(","), Err(ParseError::ExpectedOutput(0)));
    assert_eq!(parse("A = F(x:x) , B"), Err(ParseError::ExpectedOutput(6)));
}

#[test]
fn missing_assign_is_rejected() {
    assert_eq!(parse("OUT , x"), Err(ParseError::ExpectedAssign(1)));
    assert_eq!(parse("OUT ( x"), Err(ParseError::ExpectedAssign(1)));
}

#[test]
fn open_paren_without_a_name_is_rejected() {
    assert_eq!(parse("OUT = (a)"), Err(ParseError::UnexpectedOpen(2)));
    assert_eq!(parse("OUT = F((a))"), Err(ParseError::UnexpectedOpen(4)));
    assert_eq!(parse("OUT = true(a)"), Err(ParseError::UnexpectedOpen(3)));
}

#[test]
fn empty_argument_is_rejected() {
    assert_eq!(parse("OUT = NAND(,a:a)"), Err(ParseError::EmptyArgument));
    assert_eq!(parse("OUT = NAND(a:a,,b:b)"), Err(ParseError::EmptyArgument));
    assert_eq!(parse_expressions(&Vec::new()), Err(ParseError::EmptyArgument));
}

#[test]
fn parse_builds_a_call_with_bindings() {
    let got = parse("OUT = NAND(a:a, b:b)").unwrap();
    assert_eq!(
        got,
        vec![
            Token::Output(s("OUT")),
            Token::Expression(vec![
                Token::Chip(s("NAND")),
                Token::IO(s("a"), s("a")),
                Token::IO(s("b"), s("b")),
            ]),
        ]
    );
}

#[test]
fn parse_builds_nested_calls_and_qualified_heads() {
    let got = parse("OUT = NAND.out1(a:x, OR(b:b,c:c))\nOUT2=XOR(a:x,b:y)").unwrap();
    assert_eq!(
        got,
        vec![
            Token::Output(s("OUT")),
            Token::Expression(vec![
                Token::ChipIO(s("NAND"), s("out1")),
                Token::IO(s("a"), s("x")),
                Token::Expression(vec![
                    Token::Chip(s("OR")),
                    Token::IO(s("b"), s("b")),
                    Token::IO(s("c"), s("c")),
                ]),
            ]),
            Token::Output(s("OUT2")),
            Token::Expression(vec![
                Token::Chip(s("XOR")),
                Token::IO(s("a"), s("x")),
                Token::IO(s("b"), s("y")),
            ]),
        ]
    );
}

#[test]
fn parse_keeps_a_literal_statement() {
    assert_eq!(parse("A = true").unwrap(), vec![Token::Output(s("A")), Token::True]);
    assert_eq!(parse("A = 0").unwrap(), vec![Token::Output(s("A")), Token::False]);
}

#[test]
fn parse_turns_a_bare_name_into_a_passthrough() {
    assert_eq!(
        parse("A = x").unwrap(),
        vec![Token::Output(s("A")), Token::IO(s("x"), s("x"))]
    );
    assert_eq!(
        parse("A = F(x)").unwrap(),
        vec![
            Token::Output(s("A")),
            Token::Expression(vec![Token::Chip(s("F")), Token::IO(s("x"), s("x"))]),
        ]
    );
}

#[test]
fn parse_is_the_four_passes_in_turn() {
    let text = "OUT = AND.out(a:x, NAND(a:x, b:y))";
    let by_hand = lex_final(&lex2(&lex(&tokenize(text)).unwrap()).unwrap());
    assert_eq!(parse(text).unwrap(), by_hand);
}

#[test]
fn parse_twice_gives_the_same_tree() {
    let text = "OUT = AND.out(a:x, NAND(a:x, b:y))\nB = OR(NOT(a:p), NOT(a:q))";
    assert_eq!(parse(text), parse(text));
}

#[test]
fn bind_splits_at_the_colon() {
    assert_eq!(bind("p:s"), Token::IO(s("p"), s("s")));
    assert_eq!(bind("p:s:t"), Token::IO(s("p"), s("s")));
    assert_eq!(bind("p:"), Token::IO(s("p"), s("")));
    assert_eq!(bind(":s"), Token::IO(s(""), s("s")));
    assert_eq!(bind("name"), Token::IO(s("name"), s("name")));
}

#[test]
fn qualified_splits_at_the_first_dot() {
    assert_eq!(qualified("AND"), Token::Chip(s("AND")));
    assert_eq!(qualified("AND.out"), Token::ChipIO(s("AND"), s("out")));
    assert_eq!(qualified("a.b.c"), Token::ChipIO(s("a"), s("b.c")));
    assert_eq!(qualified("a."), Token::ChipIO(s("a"), s("")));
}

#[test]
fn parse_expressions_passes_single_tokens_through() {
    assert_eq!(parse_expressions(&vec![Token::True]), Ok(Token::True));
    assert_eq!(parse_expressions(&vec![Token::False]), Ok(Token::False));
    let call = Token::Expression(vec![Token::Chip(s("F"))]);
    assert_eq!(parse_expressions(&vec![clone_token(&call)]), Ok(call));
    assert_eq!(
        parse_expressions(&vec![Token::Input(s("a:b"))]),
        Ok(Token::IO(s("a"), s("b")))
    );
}

#[test]
fn parse_expressions_groups_arguments() {
    let run = vec![
        Token::Chip(s("F")),
        Token::LParen,
        Token::Input(s("a:x")),
        Token::Comma,
        Token::True,
        Token::RParen,
    ];
    assert_eq!(
        parse_expressions(&run),
        Ok(Token::Expression(vec![
            Token::Chip(s("F")),
            Token::IO(s("a"), s("x")),
            Token::True,
        ]))
    );
}

#[test]
fn parse_expressions_qualifies_its_head() {
    let run = vec![Token::Chip(s("F.o")), Token::LParen, Token::Input(s("a:x")), Token::RParen];
    assert_eq!(
        parse_expressions(&run),
        Ok(Token::Expression(vec![Token::ChipIO(s("F"), s("o")), Token::IO(s("a"), s("x"))]))
    );
}

#[test]
fn parse_expressions_accepts_an_empty_argument_list() {
    let run = vec![Token::Chip(s("F")), Token::LParen, Token::RParen];
    assert_eq!(parse_expressions(&run), Ok(Token::Expression(vec![Token::Chip(s("F"))])));
    assert_eq!(
        parse("A = F(a:x,)").unwrap(),
        vec![
            Token::Output(s("A")),
            Token::Expression(vec![Token::Chip(s("F")), Token::IO(s("a"), s("x"))]),
        ]
    );
}

#[test]
fn parse_expressions_skips_tokens_outside_the_list() {
    let run = vec![
        Token::Input(s("a")),
        Token::Comma,
        Token::Chip(s("F")),
        Token::LParen,
        Token::Input(s("x:y")),
        Token::RParen,
        Token::Input(s("z")),
    ];
    assert_eq!(
        parse_expressions(&run),
        Ok(Token::Expression(vec![Token::Input(s("a")), Token::IO(s("x"), s("y"))]))
    );
    assert_eq!(
        parse_expressions(&vec![Token::True, Token::Comma, Token::Input(s("x"))]),
        Ok(Token::Expression(vec![Token::True]))
    );
    assert_eq!(
        parse_expressions(&vec![Token::Input(s("p:q")), Token::Comma]),
        Ok(Token::IO(s("p"), s("q")))
    );
}

#[test]
fn lex2_groups_each_statement() {
    let flat = vec![
        Token::Output(s("A")),
        Token::Assign,
        Token::Chip(s("F.o")),
        Token::LParen,
        Token::Input(s("a:x")),
        Token::RParen,
        Token::Output(s("B")),
        Token::Assign,
        Token::True,
    ];
    assert_eq!(
        lex2(&flat),
        Ok(vec![
            Token::Output(s("A")),
            Token::Expression(vec![Token::ChipIO(s("F"), s("o")), Token::IO(s("a"), s("x"))]),
            Token::Output(s("B")),
            Token::True,
        ])
    );
}

#[test]
fn lex_final_qualifies_dotted_chips_at_any_depth() {
    let before = vec![
        Token::Chip(s("A.b")),
        Token::Expression(vec![Token::Chip(s("C.d")), Token::IO(s("a"), s("x.y"))]),
        Token::Chip(s("E")),
    ];
    let after = vec![
        Token::ChipIO(s("A"), s("b")),
        Token::Expression(vec![Token::ChipIO(s("C"), s("d")), Token::IO(s("a"), s("x.y"))]),
        Token::Chip(s("E")),
    ];
    assert_eq!(lex_final(&before), after);
    assert_eq!(lex_final(&after), after);
    assert_eq!(normalized(&Token::Chip(s("A.b"))), Token::ChipIO(s("A"), s("b")));
}

#[test]
fn clones_are_deep_and_equal() {
    let t = Token::Expression(vec![
        Token::Chip(s("F")),
        Token::Expression(vec![Token::ChipIO(s("G"), s("o")), Token::IO(s("a"), s("b"))]),
        Token::Output(s("x")),
        Token::Input(s("y")),
    ]);
    assert_eq!(clone_token(&t), t);
    let v = vec![clone_token(&t), Token::Comma, Token::LParen, Token::RParen, Token::Assign];
    assert_eq!(clone_tokens(&v), v);
}

#[test]
fn close_paren_that_closes_nothing_is_rejected() {
    assert_eq!(lex(&words(&["X", "=", ")"])), Err(ParseError::UnexpectedClose(2)));
    assert_eq!(parse("X = )"), Err(ParseError::UnexpectedClose(2)));
    assert_eq!(parse("X = a )"), Err(ParseError::UnexpectedClose(3)));
    assert_eq!(parse("X = a , ) b"), Err(ParseError::UnexpectedClose(4)));
    assert_eq!(parse("X = F(a:b))"), Err(ParseError::ExpectedOutput(6)));
}

#[test]
fn call_that_is_never_closed_is_rejected() {
    assert_eq!(lex(&words(&["X", "=", "F", "("])), Err(ParseError::UnclosedCall(4)));
    assert_eq!(parse("X = F("), Err(ParseError::UnclosedCall(4)));
    assert_eq!(parse("X = F(a:b"), Err(ParseError::UnclosedCall(5)));
    assert_eq!(parse("X = F(G(a:b)"), Err(ParseError::UnclosedCall(8)));
    assert_eq!(parse("A = F(a:b) B = G(H(c:d), "), Err(ParseError::UnclosedCall(15)));
}

#[test]
fn words_may_end_on_a_right_hand_side_outside_a_call() {
    assert_eq!(lex(&words(&["X", "="])), Ok(vec![Token::Output(s("X")), Token::Assign]));
    assert_eq!(
        lex(&words(&["X", "=", "a"])),
        Ok(vec![Token::Output(s("X")), Token::Assign, Token::Input(s("a"))])
    );
    assert_eq!(lex(&words(&["X"])), Ok(vec![Token::Output(s("X"))]));
}

#[test]
fn parsed_trees_hold_no_grouping_marks() {
    fn clean(t: &Token) -> bool {
        match t {
            Token::LParen | Token::RParen | Token::Comma | Token::Assign => false,
            Token::Expression(parts) => parts.iter().all(clean),
            _ => true,
        }
    }
    for text in ["X = F(a:b, G(c:d), true)", "X = F()", "X = a", "X = F(a:b) Y = G(H(I(c:d)))"] {
        assert!(parse(text).unwrap().iter().all(clean));
    }
}

#[test]
fn equals_sign_may_be_an_output_name() {
    assert_eq!(
        parse("==F(a:b)"),
        Ok(vec![
            Token::Output(s("=")),
            Token::Expression(vec![Token::Chip(s("F")), Token::IO(s("a"), s("b"))]),
        ])
    );
}
