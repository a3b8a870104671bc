use chip_hdl::evaluator::{get_first_output, ChipEvaluator, EvalError, NAND};
use chip_hdl::parser::parse;
use chip_hdl::signals::SignalMap;
use chip_hdl::token::{clone_token, clone_tokens, Token};

fn s(x: &str) -> String {
    x.to_string()
}

fn signals(pairs: &[(&str, u8)]) -> SignalMap {
    let mut m = SignalMap::new();
    for (name, bit) in pairs {
        m.insert(name.to_string(), *bit);
    }
    m
}

fn nand_call() -> Vec<Token> {
    vec![Token::Expression(vec![
        Token::Chip(s("NAND")),
        Token::IO(s("a"), s("a")),
        Token::IO(s("b"), s("b")),
    ])]
}

fn with_and() -> ChipEvaluator {
    let mut cpu = ChipEvaluator::new();
    let body = parse("out = NAND(NAND(a:a, b:b), NAND(a:a, b:b))").unwrap();
    cpu.load_chip("AND", &body);
    cpu
}

#[test]
fn signal_map_keeps_first_insertion_order() {
    let mut m = SignalMap::new();
    assert_eq!(m.len(), 0);
    m.insert(s("x"), 1);
    m.insert(s("y"), 0);
    m.insert(s("x"), 0);
    assert_eq!(m.len(), 2);
    assert_eq!(m.name_at(0), "x");
    assert_eq!(m.bit_at(0), 0);
    assert_eq!(m.name_at(1), "y");
    assert_eq!(m.get("x"), Some(0));
    assert_eq!(m.get("y"), Some(0));
    assert_eq!(m.get("z"), None);
    assert_eq!(m.get_or_zero("z"), 0);
    assert_eq!(m.find(&s("y")), 1);
    assert_eq!(m.find(&s("z")), 2);
}

#[test]
fn nand_gate_truth_table() {
    assert_eq!(NAND(&signals(&[("a", 1), ("b", 1)])), signals(&[("out", 0)]));
    assert_eq!(NAND(&signals(&[("a", 0), ("b", 0)])), signals(&[("out", 1)]));
    assert_eq!(NAND(&signals(&[("a", 1), ("b", 0)])), signals(&[("out", 1)]));
    assert_eq!(NAND(&signals(&[("a", 0), ("b", 1)])), signals(&[("out", 1)]));
}

#[test]
fn nand_gate_reads_the_lowest_bit() {
    assert_eq!(NAND(&signals(&[("a", 0xff), ("b", 0x55)])), signals(&[("out", 0)]));
    assert_eq!(NAND(&signals(&[("a", 2), ("b", 3)])), signals(&[("out", 1)]));
}

#[test]
fn nand_gate_reads_absent_inputs_as_zero() {
    assert_eq!(NAND(&signals(&[])), signals(&[("out", 1)]));
    assert_eq!(NAND(&signals(&[("a", 1)])), signals(&[("out", 1)]));
}

#[test]
fn first_output_is_the_first_declared() {
    assert_eq!(get_first_output(&signals(&[("out", 1), ("out2", 0)])), 1);
    assert_eq!(get_first_output(&signals(&[("x", 0), ("y", 1)])), 0);
}

#[test]
fn primitive_call_evaluates_to_nand() {
    let cpu = ChipEvaluator::new();
    assert_eq!(cpu.eval(&nand_call(), &signals(&[("a", 1), ("b", 1)])), Ok(signals(&[("out", 0)])));
    assert_eq!(cpu.eval(&nand_call(), &signals(&[("a", 0), ("b", 0)])), Ok(signals(&[("out", 1)])));
    assert_eq!(cpu.eval(&nand_call(), &signals(&[("a", 1), ("b", 0)])), Ok(signals(&[("out", 1)])));
}

#[test]
fn parsed_statement_writes_under_its_output_name() {
    let cpu = ChipEvaluator::new();
    let body = parse("OUT = NAND(a:a, b:b)").unwrap();
    assert_eq!(cpu.eval(&body, &signals(&[("a", 1), ("b", 1)])), Ok(signals(&[("OUT", 0)])));
    assert_eq!(cpu.eval(&body, &signals(&[("a", 0), ("b", 1)])), Ok(signals(&[("OUT", 1)])));
}

#[test]
fn binding_renames_the_source_signal() {
    let cpu = ChipEvaluator::new();
    let body = parse("q = NAND(a:x, b:y)").unwrap();
    assert_eq!(cpu.eval(&body, &signals(&[("x", 1), ("y", 1)])), Ok(signals(&[("q", 0)])));
    assert_eq!(cpu.eval(&body, &signals(&[("a", 1), ("b", 1)])), Ok(signals(&[("q", 1)])));
}

#[test]
fn absent_signal_reads_as_zero() {
    let cpu = ChipEvaluator::new();
    let absent = cpu.eval(&nand_call(), &signals(&[("a", 1)]));
    let explicit = cpu.eval(&nand_call(), &signals(&[("a", 1), ("b", 0)]));
    assert_eq!(absent, Ok(signals(&[("out", 1)])));
    assert_eq!(absent, explicit);
    assert_eq!(cpu.eval(&nand_call(), &signals(&[])), cpu.eval(&nand_call(), &signals(&[("a", 0), ("b", 0)])));
}

#[test]
fn head_selects_first_or_named_output() {
    let mut cpu = ChipEvaluator::new();
    let two = parse("out = NAND(a:p, b:q)\nout2 = NAND(a:one, b:one)").unwrap();
    cpu.load_chip("TWO", &two);
    let inputs = signals(&[("x", 1)]);
    assert_eq!(
        cpu.eval(&two, &signals(&[("one", 1)])),
        Ok(signals(&[("out", 1), ("out2", 0)]))
    );
    let plain = parse("r = TWO(one:x)").unwrap();
    assert_eq!(cpu.eval(&plain, &inputs), Ok(signals(&[("r", 1)])));
    let named = parse("r = TWO.out2(one:x)").unwrap();
    assert_eq!(cpu.eval(&named, &inputs), Ok(signals(&[("r", 0)])));
    let first_named = parse("r = TWO.out(one:x)").unwrap();
    assert_eq!(cpu.eval(&first_named, &inputs), Ok(signals(&[("r", 1)])));
}

#[test]
fn missing_output_is_an_error() {
    let mut cpu = ChipEvaluator::new();
    cpu.load_chip("ONE", &parse("out = NAND(a:a, b:b)").unwrap());
    let call = parse("r = ONE.nope(a:x)").unwrap();
    assert_eq!(cpu.eval(&call, &signals(&[])), Err(EvalError::MissingOutput(s("ONE"), s("nope"))));
    let gate = parse("r = NAND.nope(a:x)").unwrap();
    assert_eq!(cpu.eval(&gate, &signals(&[])), Err(EvalError::MissingOutput(s("NAND"), s("nope"))));
    let good = parse("r = NAND.out(a:x, b:x)").unwrap();
    assert_eq!(cpu.eval(&good, &signals(&[("x", 1)])), Ok(signals(&[("r", 0)])));
}

#[test]
fn unknown_chip_is_an_error() {
    let cpu = ChipEvaluator::new();
    let call = parse("r = FOO(a:x)").unwrap();
    assert_eq!(cpu.eval(&call, &signals(&[])), Err(EvalError::UnknownChip(s("FOO"))));
}

#[test]
fn chip_without_outputs_has_no_first_output() {
    let mut cpu = ChipEvaluator::new();
    cpu.load_chip("EMPTY", &Vec::new());
    let call = parse("r = EMPTY(a:x)").unwrap();
    assert_eq!(cpu.eval(&call, &signals(&[])), Err(EvalError::NoOutput(s("EMPTY"))));
}

#[test]
fn cyclic_library_is_too_deep() {
    let mut cpu = ChipEvaluator::new();
    cpu.load_chip("X", &parse("out = Y(a:a)").unwrap());
    cpu.load_chip("Y", &parse("out = X(a:a)").unwrap());
    let call = parse("r = X(a:a)").unwrap();
    assert_eq!(cpu.eval(&call, &signals(&[("a", 1)])), Err(EvalError::TooDeep(s("X"))));
}

#[test]
fn depth_of_the_library_is_enough_for_a_chain() {
    let mut cpu = ChipEvaluator::new();
    cpu.load_chip("C", &parse("out = B(a:a)").unwrap());
    cpu.load_chip("B", &parse("out = A(a:a)").unwrap());
    cpu.load_chip("A", &parse("out = NAND(a:a, b:a)").unwrap());
    let call = parse("r = C(a:x)").unwrap();
    assert_eq!(cpu.eval(&call, &signals(&[("x", 1)])), Ok(signals(&[("r", 0)])));
    assert_eq!(cpu.eval_within(&call, &signals(&[("x", 1)]), 3), Ok(signals(&[("r", 0)])));
    assert_eq!(cpu.eval_within(&call, &signals(&[("x", 1)]), 2), Err(EvalError::TooDeep(s("A"))));
}

#[test]
fn malformed_calls_are_errors() {
    let cpu = ChipEvaluator::new();
    let none = signals(&[]);
    assert_eq!(cpu.eval(&vec![Token::Expression(vec![])], &none), Err(EvalError::BadCall));
    assert_eq!(
        cpu.eval(&vec![Token::Expression(vec![Token::RParen])], &none),
        Err(EvalError::BadCall)
    );
    assert_eq!(cpu.eval_call(&Token::True, &none, 0), Err(EvalError::BadCall));
}

#[test]
fn nested_call_too_far_back_is_an_error() {
    let cpu = ChipEvaluator::new();
    let inner = Token::Expression(vec![Token::Chip(s("NAND"))]);
    let mut parts = vec![Token::Chip(s("NAND"))];
    for _ in 0..159 {
        parts.push(Token::IO(s("a"), s("x")));
    }
    let mut fits = clone_tokens(&parts);
    fits.pop();
    fits.push(clone_token(&inner));
    assert_eq!(cpu.eval(&vec![Token::Expression(fits)], &signals(&[])), Ok(signals(&[("out", 1)])));
    parts.push(inner);
    assert_eq!(
        cpu.eval(&vec![Token::Expression(parts)], &signals(&[])),
        Err(EvalError::TooManyArguments)
    );
}

#[test]
fn two_level_chip_computes_and() {
    let cpu = with_and();
    let outer = parse("out = AND(a:a, b:b)").unwrap();
    assert_eq!(cpu.eval(&outer, &signals(&[("a", 1), ("b", 1)])), Ok(signals(&[("out", 1)])));
    assert_eq!(cpu.eval(&outer, &signals(&[("a", 1), ("b", 0)])), Ok(signals(&[("out", 0)])));
    assert_eq!(cpu.eval(&outer, &signals(&[("a", 0), ("b", 1)])), Ok(signals(&[("out", 0)])));
    assert_eq!(cpu.eval(&outer, &signals(&[("a", 0), ("b", 0)])), Ok(signals(&[("out", 0)])));
}

#[test]
fn nested_call_is_bound_to_the_letter_of_its_place() {
    let mut cpu = ChipEvaluator::new();
    cpu.load_chip("NOTA", &parse("out = NAND(a:a, b:a)").unwrap());
    cpu.load_chip("NOTB", &parse("out = NAND(a:b, b:b)").unwrap());
    let first = parse("out = NOTA(NAND(a:x, b:y))").unwrap();
    assert_eq!(cpu.eval(&first, &signals(&[("x", 1), ("y", 0)])), Ok(signals(&[("out", 0)])));
    assert_eq!(cpu.eval(&first, &signals(&[("x", 1), ("y", 1)])), Ok(signals(&[("out", 1)])));
    let second = parse("out = NOTB(a:x, NAND(a:x, b:y))").unwrap();
    assert_eq!(cpu.eval(&second, &signals(&[("x", 1), ("y", 0)])), Ok(signals(&[("out", 0)])));
    assert_eq!(cpu.eval(&second, &signals(&[("x", 1), ("y", 1)])), Ok(signals(&[("out", 1)])));
    let not_first = parse("out = NOTB(NAND(a:x, b:y))").unwrap();
    assert_eq!(cpu.eval(&not_first, &signals(&[("x", 1), ("y", 0)])), Ok(signals(&[("out", 1)])));
}

#[test]
fn nested_call_sees_the_callers_inputs() {
    let cpu = with_and();
    let body = parse("out = AND(a:p, NAND(a:p, b:q))").unwrap();
    assert_eq!(cpu.eval(&body, &signals(&[("p", 1), ("q", 0)])), Ok(signals(&[("out", 1)])));
    assert_eq!(cpu.eval(&body, &signals(&[("p", 1), ("q", 1)])), Ok(signals(&[("out", 0)])));
}

#[test]
fn literal_is_written_under_the_waiting_name() {
    let cpu = ChipEvaluator::new();
    assert_eq!(cpu.eval(&parse("A = true").unwrap(), &signals(&[])), Ok(signals(&[("A", 1)])));
    assert_eq!(cpu.eval(&parse("A = false").unwrap(), &signals(&[])), Ok(signals(&[("A", 0)])));
    assert_eq!(cpu.eval(&vec![Token::True], &signals(&[])), Ok(signals(&[("OUT", 1)])));
    assert_eq!(
        cpu.eval(&vec![Token::Output(s("A")), Token::True, Token::False], &signals(&[])),
        Ok(signals(&[("A", 1), ("OUT", 0)]))
    );
}

#[test]
fn literal_head_is_its_value() {
    let cpu = ChipEvaluator::new();
    let body = vec![Token::Output(s("A")), Token::Expression(vec![Token::True])];
    assert_eq!(cpu.eval(&body, &signals(&[])), Ok(signals(&[("A", 1)])));
    assert_eq!(cpu.eval_call(&Token::Expression(vec![Token::False]), &signals(&[]), 0), Ok(0));
}

#[test]
fn bare_signal_passes_through() {
    let cpu = ChipEvaluator::new();
    let body = parse("A = x").unwrap();
    assert_eq!(cpu.eval(&body, &signals(&[("x", 1)])), Ok(signals(&[("A", 1)])));
    assert_eq!(cpu.eval(&body, &signals(&[])), Ok(signals(&[("A", 0)])));
    assert_eq!(
        cpu.eval(&vec![Token::Input(s("x"))], &signals(&[("x", 1)])),
        Ok(signals(&[("OUT", 1)]))
    );
}

#[test]
fn statements_run_in_order() {
    let cpu = with_and();
    let body = parse("p = AND(a:a, b:b)\nq = NAND(a:a, b:b)\np = NAND(a:a, b:a)").unwrap();
    assert_eq!(
        cpu.eval(&body, &signals(&[("a", 1), ("b", 1)])),
        Ok(signals(&[("p", 0), ("q", 0)]))
    );
    assert_eq!(
        cpu.eval(&body, &signals(&[("a", 0), ("b", 1)])),
        Ok(signals(&[("p", 1), ("q", 1)]))
    );
}

#[test]
fn load_chip_replaces_an_earlier_definition() {
    let mut cpu = ChipEvaluator::new();
    cpu.load_chip("G", &parse("out = NAND(a:a, b:a)").unwrap());
    cpu.load_chip("H", &parse("out = G(a:a)").unwrap());
    cpu.load_chip("G", &parse("out = true").unwrap());
    assert_eq!(cpu.chips.len(), 2);
    let call = parse("r = H(a:x)").unwrap();
    assert_eq!(cpu.eval(&call, &signals(&[("x", 1)])), Ok(signals(&[("r", 1)])));
}

#[test]
fn call_without_arguments_binds_nothing() {
    let cpu = with_and();
    assert_eq!(cpu.eval(&parse("r = NAND()").unwrap(), &signals(&[("a", 1), ("b", 1)])), Ok(signals(&[("r", 1)])));
    assert_eq!(cpu.eval(&parse("r = AND()").unwrap(), &signals(&[("a", 1), ("b", 1)])), Ok(signals(&[("r", 0)])));
}

#[test]
fn literal_arguments_bind_nothing() {
    let cpu = ChipEvaluator::new();
    let body = parse("r = NAND(true, 1)").unwrap();
    assert_eq!(cpu.eval(&body, &signals(&[])), Ok(signals(&[("r", 1)])));
}

#[test]
fn two_level_chip_from_two_gates_computes_and() {
    let mut cpu = ChipEvaluator::new();
    cpu.load_chip("NOT", &parse("out = NAND(a:a, b:a)").unwrap());
    cpu.load_chip("AND", &parse("out = NOT(NAND(a:a, b:b))").unwrap());
    let outer = parse("out = AND(a:a, b:b)").unwrap();
    assert_eq!(cpu.eval(&outer, &signals(&[("a", 1), ("b", 1)])), Ok(signals(&[("out", 1)])));
    assert_eq!(cpu.eval(&outer, &signals(&[("a", 1), ("b", 0)])), Ok(signals(&[("out", 0)])));
    assert_eq!(cpu.eval(&outer, &signals(&[("a", 0), ("b", 1)])), Ok(signals(&[("out", 0)])));
    assert_eq!(cpu.eval(&outer, &signals(&[("a", 0), ("b", 0)])), Ok(signals(&[("out", 0)])));
}

#[test]
fn call_headed_by_a_bare_name_is_a_bad_call() {
    let body = parse("A = x , F(y)").unwrap();
    assert_eq!(
        body,
        vec![
            Token::Output(s("A")),
            Token::Expression(vec![Token::Input(s("x")), Token::IO(s("y"), s("y"))]),
        ]
    );
    assert_eq!(cpu_free_eval(&body), Err(EvalError::BadCall));
}

fn cpu_free_eval(body: &Vec<Token>) -> Result<SignalMap, EvalError> {
    ChipEvaluator::new().eval(body, &SignalMap::new())
}

#[test]
fn and_chip_alone_gives_the_conjunction_of_the_lowest_bits() {
    let mut cpu = ChipEvaluator::new();
    cpu.load_chip("AND", &parse("out=NAND(NAND(a:a,b:b),NAND(a:a,b:b))").unwrap());
    let call = parse("out=AND(a:a,b:b)").unwrap();
    for (x, y) in [(0u8, 0u8), (0, 1), (1, 0), (1, 1), (3, 5), (2, 1), (0xff, 0x55), (4, 6)] {
        assert_eq!(
            cpu.eval(&call, &signals(&[("a", x), ("b", y)])),
            Ok(signals(&[("out", (x & y) & 1)]))
        );
    }
    assert_eq!(cpu.eval(&call, &signals(&[("b", 1)])), Ok(signals(&[("out", 0)])));
    assert_eq!(cpu.eval_within(&call, &signals(&[]), 0), Err(EvalError::TooDeep(s("AND"))));
}
