use chip_hdl::lexer::lex;
use chip_hdl::parser::parse;
use chip_hdl::scanner::tokenize;
use chip_hdl::token::Token;
use chip_hdl::writing::{flatten_into, token_word, write_body};

fn s(x: &str) -> String {
    x.to_string()
}

fn assert_round_trip(source: &str) {
    let body = parse(source).unwrap();
    let again = parse(&write_body(&body)).unwrap();
    assert_eq!(again, body);
}

#[test]
fn round_trip_of_a_single_call() {
    assert_round_trip("OUT = NAND(a:a, b:b)");
}

#[test]
fn round_trip_of_nested_and_qualified_calls() {
    assert_round_trip("OUT = NAND.out1(a:a, OR(b:b,c:c))\nOUT2=XOR(a:x,b:y)");
    assert_round_trip("// and\nout = NAND(NAND(a:a, b:b), NAND(a:a, b:b))");
    assert_round_trip("x = F(G(H(a:p)), I.o(b:q), c:r)");
}

#[test]
fn round_trip_of_bare_names_and_literals() {
    assert_round_trip("A = F(x, y)");
    assert_round_trip("A = F(true, 0)");
    assert_round_trip("A = F()");
    assert_round_trip("A = x");
    assert_round_trip("A = F(a:x) B = true");
    assert_round_trip("");
}

#[test]
fn write_body_writes_the_words_side_by_side() {
    let body = parse("A=F.o(  a:x ,G( b:y ), TRUE )\n B = H()").unwrap();
    assert_eq!(write_body(&body), "A=F.o(a:x,G(b:y),true)B=H()");
    assert_eq!(write_body(&Vec::new()), "");
}

#[test]
fn write_body_of_a_passthrough_names_both_sides() {
    let body = parse("A = x").unwrap();
    assert_eq!(write_body(&body), "A=x:x");
}

#[test]
fn written_words_are_scanned_and_lexed_again() {
    let text = write_body(&parse("A = F.o(a:x, G(b:y))").unwrap());
    assert_eq!(tokenize(&text), vec!["A", "=", "F.o", "(", "a:x", ",", "G", "(", "b:y", ")", ")"]);
    assert_eq!(
        lex(&tokenize(&text)).unwrap(),
        vec![
            Token::Output(s("A")),
            Token::Assign,
            Token::Chip(s("F.o")),
            Token::LParen,
            Token::Input(s("a:x")),
            Token::Comma,
            Token::Chip(s("G")),
            Token::LParen,
            Token::Input(s("b:y")),
            Token::RParen,
            Token::RParen,
        ]
    );
}

#[test]
fn flatten_into_appends_the_flat_tokens() {
    let tree = Token::Expression(vec![
        Token::ChipIO(s("F"), s("o")),
        Token::IO(s("a"), s("x")),
        Token::Expression(vec![Token::Chip(s("G"))]),
        Token::False,
    ]);
    let mut out = vec![Token::Assign];
    flatten_into(&tree, &mut out);
    assert_eq!(
        out,
        vec![
            Token::Assign,
            Token::ChipIO(s("F"), s("o")),
            Token::LParen,
            Token::Input(s("a:x")),
            Token::Comma,
            Token::Chip(s("G")),
            Token::LParen,
            Token::RParen,
            Token::Comma,
            Token::False,
            Token::RParen,
        ]
    );
}

#[test]
fn token_word_of_each_kind() {
    assert_eq!(token_word(&Token::Chip(s("F"))), "F");
    assert_eq!(token_word(&Token::ChipIO(s("F"), s("o"))), "F.o");
    assert_eq!(token_word(&Token::Input(s("a:b"))), "a:b");
    assert_eq!(token_word(&Token::Output(s("A"))), "A");
    assert_eq!(token_word(&Token::True), "true");
    assert_eq!(token_word(&Token::False), "false");
    assert_eq!(token_word(&Token::Assign), "=");
    assert_eq!(token_word(&Token::LParen), "(");
    assert_eq!(token_word(&Token::RParen), ")");
    assert_eq!(token_word(&Token::Comma), ",");
    assert_eq!(token_word(&Token::IO(s("a"), s("b"))), "");
}

#[test]
fn call_headed_by_a_bare_name_is_not_read_back() {
    let body = parse("A = x , F(y)").unwrap();
    assert_eq!(write_body(&body), "A=x(y:y)");
    let again = parse(&write_body(&body)).unwrap();
    assert_ne!(again, body);
}

#[test]
fn binding_with_white_space_after_the_colon_loses_its_source() {
    let body = parse("A = F(a: x)").unwrap();
    assert_eq!(
        body,
        vec![
            Token::Output(s("A")),
            Token::Expression(vec![Token::Chip(s("F")), Token::IO(s("a"), s(""))]),
        ]
    );
}

#[test]
fn round_trip_of_the_output_name_equals() {
    assert_round_trip("==F(a:b)");
    assert_round_trip("==x:x");
    assert_eq!(write_body(&parse("= = x").unwrap()), "==x:x");
}

#[test]
fn and_chip_is_written_as_its_source() {
    let text = "out=NAND(NAND(a:a,b:b),NAND(a:a,b:b))";
    assert_eq!(write_body(&parse(text).unwrap()), text);
    assert_eq!(write_body(&parse("out=AND(a:a,b:b)").unwrap()), "out=AND(a:a,b:b)");
}
