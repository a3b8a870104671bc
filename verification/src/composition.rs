//! Chips composed from NAND: the chip AND, and the proof that a call of
//! it gives the conjunction of its inputs.

use vstd::prelude::*;
use crate::evaluator::{
    Library, EvalErr, RunState, name_nand, name_out, nand_bit, nand_outputs, chip_body,
    call_value, call_inputs, run_prefix, run, place_name, settle,
};
use crate::evaluator::lib_put;
use crate::lexer::ParseError;
use crate::parser::parse_spec;
use crate::signals::{Signals, position, sig_or_zero, sig_put, lemma_position_bounds};
use crate::token::Tok;
use crate::writing::{
    writable, writable_body, written, written_body, name_word, plain_word, output_word,
    head_word, lemma_binding_written, lemma_head_written, lemma_parse_written,
};

verus! {

/// The name of the chip AND.
pub open spec fn name_and() -> Seq<char> {
    seq!['A', 'N', 'D']
}

/// The signal maps that hold `a` and `b`, in this order.
pub open spec fn pair_of(x: u8, y: u8) -> Signals {
    seq![(seq!['a'], x), (seq!['b'], y)]
}

/// The call `head(a:a, b:b)`.
pub open spec fn call_on_a_b(head: Tok) -> Tok {
    Tok::Expression(
        seq![head, Tok::IO(seq!['a'], seq!['a']), Tok::IO(seq!['b'], seq!['b'])],
    )
}

/// The body `out = NAND(NAND(a:a, b:b), NAND(a:a, b:b))`.
pub open spec fn and_body() -> Seq<Tok> {
    seq![
        Tok::Output(name_out()),
        Tok::Expression(
            seq![
                Tok::Chip(name_nand()),
                call_on_a_b(Tok::Chip(name_nand())),
                call_on_a_b(Tok::Chip(name_nand())),
            ],
        ),
    ]
}

/// The body `out = AND(a:a, b:b)`.
pub open spec fn and_call() -> Seq<Tok> {
    seq![Tok::Output(name_out()), call_on_a_b(Tok::Chip(name_and()))]
}

/// A map of `a` and `b` reads as it was made.
pub proof fn lemma_pair_reads(x: u8, y: u8)
    ensures
        sig_or_zero(pair_of(x, y), seq!['a']) == x,
        sig_or_zero(pair_of(x, y), seq!['b']) == y,
        sig_put(Seq::empty(), seq!['a'], x) == seq![(seq!['a'], x)],
        sig_put(seq![(seq!['a'], x)], seq!['b'], y) == pair_of(x, y),
{
    reveal_with_fuel(position, 3);
    let a = seq!['a'];
    let b = seq!['b'];
    assert(a[0] == 'a');
    assert(b[0] == 'b');
    assert(a != b);
    let m = pair_of(x, y);
    assert(m[0] == (a, x));
    assert(m[1] == (b, y));
    assert(position(m, a, 0) == 0);
    assert(position(m, b, 0) == 1);
    let e = Seq::<(Seq<char>, u8)>::empty();
    assert(position(e, a, 0) == 0);
    assert(e.push((a, x)) =~= seq![(a, x)]);
    let one = seq![(a, x)];
    assert(one[0] == (a, x));
    assert(position(one, b, 0) == 1);
    assert(one.push((b, y)) =~= m);
}

/// A call on `a` and `b` hands the callee the caller's `a` and `b`.
pub proof fn lemma_call_on_a_b_inputs(lib: Library, head: Tok, inputs: Signals, fuel: nat)
    ensures
        call_inputs(lib, call_on_a_b(head), inputs, fuel, 2) == Ok::<Signals, EvalErr>(
            pair_of(sig_or_zero(inputs, seq!['a']), sig_or_zero(inputs, seq!['b'])),
        ),
{
    let t = call_on_a_b(head);
    let parts = t->Expression_0;
    let x = sig_or_zero(inputs, seq!['a']);
    let y = sig_or_zero(inputs, seq!['b']);
    assert(parts.len() == 3);
    assert(parts[1] == Tok::IO(seq!['a'], seq!['a']));
    assert(parts[2] == Tok::IO(seq!['b'], seq!['b']));
    lemma_pair_reads(x, y);
    assert(call_inputs(lib, t, inputs, fuel, 0) == Ok::<Signals, EvalErr>(Seq::empty()));
    assert(call_inputs(lib, t, inputs, fuel, 1) == Ok::<Signals, EvalErr>(
        seq![(seq!['a'], x)],
    ));
}

/// NAND on `a` and `b` gives the NAND of the caller's `a` and `b`.
pub proof fn lemma_gate_call(lib: Library, inputs: Signals, fuel: nat)
    ensures
        call_value(lib, call_on_a_b(Tok::Chip(name_nand())), inputs, fuel) == Ok::<u8, EvalErr>(
            nand_bit(sig_or_zero(inputs, seq!['a']), sig_or_zero(inputs, seq!['b'])),
        ),
{
    let t = call_on_a_b(Tok::Chip(name_nand()));
    let parts = t->Expression_0;
    let x = sig_or_zero(inputs, seq!['a']);
    let y = sig_or_zero(inputs, seq!['b']);
    assert(parts.len() == 3);
    assert(parts[0] == Tok::Chip(name_nand()));
    lemma_call_on_a_b_inputs(lib, Tok::Chip(name_nand()), inputs, fuel);
    lemma_pair_reads(x, y);
    let outs = nand_outputs(pair_of(x, y));
    assert(outs.len() == 1);
    assert(outs[0] == (name_out(), nand_bit(x, y)));
}

/// The body of AND gives `out` as the NAND of the NAND of `a` and `b` with
/// itself.
pub proof fn lemma_and_body(lib: Library, inputs: Signals, fuel: nat)
    ensures
        run(lib, and_body(), inputs, fuel) == Ok::<Signals, EvalErr>(
            seq![
                (
                    name_out(),
                    nand_bit(
                        nand_bit(sig_or_zero(inputs, seq!['a']), sig_or_zero(inputs, seq!['b'])),
                        nand_bit(sig_or_zero(inputs, seq!['a']), sig_or_zero(inputs, seq!['b'])),
                    ),
                ),
            ],
        ),
{
    let code = and_body();
    let t = code[1];
    let parts = t->Expression_0;
    let gate = call_on_a_b(Tok::Chip(name_nand()));
    let n = nand_bit(sig_or_zero(inputs, seq!['a']), sig_or_zero(inputs, seq!['b']));
    assert(code.len() == 2);
    assert(code[0] == Tok::Output(name_out()));
    assert(parts.len() == 3);
    assert(parts[0] == Tok::Chip(name_nand()));
    assert(parts[1] == gate);
    assert(parts[2] == gate);
    lemma_gate_call(lib, inputs, fuel);
    lemma_pair_reads(n, n);
    assert(place_name(0) =~= seq!['a']);
    assert(place_name(1) =~= seq!['b']);
    assert(call_inputs(lib, t, inputs, fuel, 0) == Ok::<Signals, EvalErr>(Seq::empty()));
    assert(call_inputs(lib, t, inputs, fuel, 1) == Ok::<Signals, EvalErr>(
        seq![(seq!['a'], n)],
    ));
    assert(call_inputs(lib, t, inputs, fuel, 2) == Ok::<Signals, EvalErr>(pair_of(n, n)));
    let outs = nand_outputs(pair_of(n, n));
    assert(outs.len() == 1);
    assert(outs[0] == (name_out(), nand_bit(n, n)));
    assert(call_value(lib, t, inputs, fuel) == Ok::<u8, EvalErr>(nand_bit(n, n)));
    lemma_settle_out(nand_bit(n, n));
    let s0 = RunState { out: Seq::empty(), pending: Seq::empty() };
    let s1 = RunState { out: Seq::empty(), pending: name_out() };
    assert(run_prefix(lib, code, inputs, fuel, 0) == Ok::<RunState, EvalErr>(s0));
    assert(run_prefix(lib, code, inputs, fuel, 1) == Ok::<RunState, EvalErr>(s1));
    assert(run_prefix(lib, code, inputs, fuel, 2) == Ok::<RunState, EvalErr>(
        settle(s1, nand_bit(n, n), name_out()),
    ));
}

/// A value that `out` waits for is written as the only output.
pub proof fn lemma_settle_out(bit: u8)
    ensures
        settle(RunState { out: Seq::empty(), pending: name_out() }, bit, name_out()) == (RunState {
            out: seq![(name_out(), bit)],
            pending: Seq::empty(),
        }),
{
    let e = Seq::<(Seq<char>, u8)>::empty();
    assert(name_out().len() == 3);
    assert(position(e, name_out(), 0) == 0);
    assert(e.push((name_out(), bit)) =~= seq![(name_out(), bit)]);
}

/// Composition: where the library holds AND as built from NAND, the
/// body `out = AND(a:a, b:b)` gives `out` as the conjunction of the lowest
/// bits of `a` and `b`, whatever else the library and the inputs hold, and
/// so the truth table of AND on single bits.
pub proof fn lemma_and_chip(lib: Library, inputs: Signals, fuel: nat)
    requires
        chip_body(lib, name_and()) == Some(and_body()),
        fuel >= 1,
    ensures
        run(lib, and_call(), inputs, fuel) == Ok::<Signals, EvalErr>(
            seq![
                (
                    name_out(),
                    (sig_or_zero(inputs, seq!['a']) & sig_or_zero(inputs, seq!['b'])) & 1u8,
                ),
            ],
        ),
        sig_or_zero(inputs, seq!['a']) <= 1 && sig_or_zero(inputs, seq!['b']) <= 1 ==> run(
            lib,
            and_call(),
            inputs,
            fuel,
        ) == Ok::<Signals, EvalErr>(
            seq![(name_out(), sig_or_zero(inputs, seq!['a']) & sig_or_zero(inputs, seq!['b']))],
        ),
{
    let code = and_call();
    let t = code[1];
    let parts = t->Expression_0;
    let x = sig_or_zero(inputs, seq!['a']);
    let y = sig_or_zero(inputs, seq!['b']);
    let local = pair_of(x, y);
    let bit = nand_bit(nand_bit(x, y), nand_bit(x, y));
    assert(code.len() == 2);
    assert(code[0] == Tok::Output(name_out()));
    assert(t == call_on_a_b(Tok::Chip(name_and())));
    assert(parts.len() == 3);
    assert(parts[0] == Tok::Chip(name_and()));
    assert(name_and() != name_nand()) by {
        assert(name_and()[0] == 'A');
        assert(name_nand()[0] == 'N');
    }
    lemma_call_on_a_b_inputs(lib, Tok::Chip(name_and()), inputs, fuel);
    lemma_pair_reads(x, y);
    lemma_and_body(lib, local, (fuel - 1) as nat);
    let outs = seq![(name_out(), bit)];
    assert(run(lib, and_body(), local, (fuel - 1) as nat) == Ok::<Signals, EvalErr>(outs));
    assert(outs.len() == 1);
    assert(outs[0] == (name_out(), bit));
    assert(call_value(lib, t, inputs, fuel) == Ok::<u8, EvalErr>(bit));
    lemma_settle_out(bit);
    let s0 = RunState { out: Seq::empty(), pending: Seq::empty() };
    let s1 = RunState { out: Seq::empty(), pending: name_out() };
    assert(run_prefix(lib, code, inputs, fuel, 0) == Ok::<RunState, EvalErr>(s0));
    assert(run_prefix(lib, code, inputs, fuel, 1) == Ok::<RunState, EvalErr>(s1));
    assert(run_prefix(lib, code, inputs, fuel, 2) == Ok::<RunState, EvalErr>(
        settle(s1, bit, name_out()),
    ));
    assert((!(((!(x & y)) & 1u8) & ((!(x & y)) & 1u8))) & 1u8 == (x & y) & 1u8) by (bit_vector);
    assert(x <= 1 && y <= 1 ==> (x & y) & 1u8 == x & y) by (bit_vector);
}

/// Where a chip is found once it was loaded.
pub proof fn lemma_position_loaded(lib: Library, name: Seq<char>, body: Seq<Tok>, i: int)
    requires
        0 <= i <= lib.len(),
    ensures
        position(lib_put(lib, name, body), name, i) == if position(lib, name, 0) < lib.len() && i
            > position(lib, name, 0) {
            position(lib, name, i)
        } else if position(lib, name, 0) < lib.len() {
            position(lib, name, 0)
        } else {
            lib.len() as int
        },
    decreases lib.len() - i,
{
    let k = position(lib, name, 0);
    let put = lib_put(lib, name, body);
    lemma_position_bounds(lib, name, 0);
    if k < lib.len() {
        assert(put.len() == lib.len());
        if i < lib.len() {
            if i == k {
                assert(put[i] == (name, body));
            } else {
                assert(put[i] == lib[i]);
                lemma_position_loaded(lib, name, body, i + 1);
                if i < k {
                    lemma_position_before(lib, name, i, k);
                }
            }
        }
    } else {
        assert(put == lib.push((name, body)));
        if i < lib.len() {
            assert(put[i] == lib[i]);
            lemma_position_from(lib, name, i);
            lemma_position_loaded(lib, name, body, i + 1);
        } else {
            assert(put[i] == (name, body));
        }
    }
}

/// No entry before the first of a name has that name.
pub proof fn lemma_position_before(lib: Library, name: Seq<char>, i: int, k: int)
    requires
        0 <= i < k,
        k == position(lib, name, 0),
        k <= lib.len(),
    ensures
        lib[i].0 != name,
{
    lemma_position_from(lib, name, i);
}

/// The search from a place at or before the first entry of a name ends at
/// that entry.
pub proof fn lemma_position_from(lib: Library, name: Seq<char>, i: int)
    requires
        0 <= i <= position(lib, name, 0),
        i <= lib.len(),
    ensures
        position(lib, name, i) == position(lib, name, 0),
        i < position(lib, name, 0) ==> lib[i].0 != name,
    decreases i,
{
    lemma_position_bounds(lib, name, 0);
    if i > 0 {
        lemma_position_from(lib, name, i - 1);
        assert(position(lib, name, i - 1) == position(lib, name, i));
    }
    if i < position(lib, name, 0) && lib[i].0 == name {
        assert(position(lib, name, i) == i);
    }
}

/// A library that AND was loaded into holds its body and is not empty.
pub proof fn lemma_and_loaded(lib: Library)
    ensures
        chip_body(lib_put(lib, name_and(), and_body()), name_and()) == Some(and_body()),
        lib_put(lib, name_and(), and_body()).len() >= 1,
{
    lemma_position_loaded(lib, name_and(), and_body(), 0);
    lemma_position_bounds(lib, name_and(), 0);
}

/// A call of a chip on `a` and `b` can be written back, where the chip's
/// name is a name without a dot.
pub proof fn lemma_call_on_a_b_writable(n: Seq<char>)
    requires
        name_word(n),
        forall|j: int| 0 <= j < n.len() ==> n[j] != '.',
    ensures
        writable(call_on_a_b(Tok::Chip(n))),
{
    let t = call_on_a_b(Tok::Chip(n));
    let parts = t->Expression_0;
    let a = seq!['a'];
    let b = seq!['b'];
    assert(parts[0] == Tok::Chip(n));
    assert(parts[1] == Tok::IO(a, a));
    assert(parts[2] == Tok::IO(b, b));
    lemma_head_written(n, Seq::empty());
    lemma_binding_name('a');
    lemma_binding_name('b');
    assert forall|i: int| 1 <= i < parts.len() implies writable(#[trigger] parts[i]) by {
        if i == 1 {
        } else {
            assert(i == 2);
        }
    }
}

/// The binding of a letter to itself can be written back.
pub proof fn lemma_binding_name(c: char)
    requires
        'a' <= c <= 'z',
    ensures
        writable(Tok::IO(seq![c], seq![c])),
{
    let p = seq![c];
    let w = written(p, p);
    assert(w =~= seq![c, ':', c]);
    assert(w[0] == c && w[1] == ':' && w[2] == c);
    assert(seq!['1'].len() == 1);
    assert(seq!['0'].len() == 1);
    lemma_binding_written(p, p);
}

/// The names of NAND and of AND and the name `out` are names without
/// a dot.
pub proof fn lemma_names()
    ensures
        name_word(name_nand()),
        name_word(name_and()),
        output_word(name_out()),
        forall|j: int| 0 <= j < name_nand().len() ==> name_nand()[j] != '.',
        forall|j: int| 0 <= j < name_and().len() ==> name_and()[j] != '.',
{
    let n = name_nand();
    let a = name_and();
    let o = name_out();
    assert(n.len() == 4 && n[0] == 'N' && n[1] == 'A' && n[2] == 'N' && n[3] == 'D');
    assert(a.len() == 3 && a[0] == 'A' && a[1] == 'N' && a[2] == 'D');
    assert(o.len() == 3 && o[0] == 'o' && o[1] == 'u' && o[2] == 't');
    assert(seq!['1'].len() == 1);
    assert(seq!['0'].len() == 1);
    assert(plain_word(o));
}

/// The bodies of AND and of its call are what parsing gives for their
/// written texts.
pub proof fn lemma_and_parsed()
    ensures
        parse_spec(written_body(and_body())) == Ok::<Seq<Tok>, ParseError>(and_body()),
        parse_spec(written_body(and_call())) == Ok::<Seq<Tok>, ParseError>(and_call()),
{
    lemma_names();
    lemma_call_on_a_b_writable(name_nand());
    lemma_call_on_a_b_writable(name_and());
    lemma_head_written(name_nand(), Seq::empty());
    let gate = call_on_a_b(Tok::Chip(name_nand()));
    let body = and_body();
    let tree = body[1];
    let parts = tree->Expression_0;
    assert(body.len() == 2);
    assert(body[0] == Tok::Output(name_out()));
    assert(parts.len() == 3);
    assert(parts[0] == Tok::Chip(name_nand()));
    assert(parts[1] == gate);
    assert(parts[2] == gate);
    assert(head_word(parts[0]) == name_nand());
    assert forall|i: int| 1 <= i < parts.len() implies writable(#[trigger] parts[i]) by {
        if i == 1 {
        } else {
            assert(i == 2);
        }
    }
    assert(writable(tree));
    assert(writable_body(body)) by {
        assert forall|i: int| 0 <= i < body.len() && i % 2 == 1 implies writable(
            #[trigger] body[i],
        ) by {
            assert(i == 1);
        }
    }
    lemma_parse_written(body);
    let call = and_call();
    assert(call.len() == 2);
    assert(call[0] == Tok::Output(name_out()));
    assert(call[1] == call_on_a_b(Tok::Chip(name_and())));
    assert(writable_body(call)) by {
        assert forall|i: int| 0 <= i < call.len() && i % 2 == 1 implies writable(
            #[trigger] call[i],
        ) by {
            assert(i == 1);
        }
    }
    lemma_parse_written(call);
}

/// Composition in a library that holds AND alone: evaluated as deep as
/// the library has chips, `out = AND(a:a, b:b)` gives the truth table of AND.
pub proof fn lemma_and_alone(inputs: Signals)
    ensures
        lib_put(Seq::empty(), name_and(), and_body()).len() == 1,
        run(lib_put(Seq::empty(), name_and(), and_body()), and_call(), inputs, 1) == Ok::<
            Signals,
            EvalErr,
        >(
            seq![
                (
                    name_out(),
                    (sig_or_zero(inputs, seq!['a']) & sig_or_zero(inputs, seq!['b'])) & 1u8,
                ),
            ],
        ),
{
    let lib = lib_put(Seq::empty(), name_and(), and_body());
    lemma_and_loaded(Seq::empty());
    assert(position(Seq::<(Seq<char>, Seq<Tok>)>::empty(), name_and(), 0) == 0);
    lemma_and_chip(lib, inputs, 1);
}

} // verus!
