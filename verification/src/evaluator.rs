//! The evaluator: simulates a chip by substitution down to the NAND gate.

use vstd::prelude::*;
use vstd::string::*;
use crate::signals::{
    Signals, SignalMap, position, sig_get, sig_or_zero, sig_put, lemma_position_bounds,
};
use crate::text::string_of_char;
use crate::token::{Token, Tok, toks, clone_tokens};

verus! {

/// Why an evaluation stops without a result, with the names at fault.
#[derive(Debug, Clone, PartialEq, Eq)]
pub enum EvalError {
    /// A call names a chip that the library does not hold.
    UnknownChip(String),
    /// A qualified head names an output that the chip does not produce: the
    /// chip, then the output.
    MissingOutput(String, String),
    /// An unqualified head calls a chip that produces no output at all.
    NoOutput(String),
    /// The call of this chip would go deeper than the depth allowed, as the
    /// calls of a cyclic library do.
    TooDeep(String),
    /// A call without a head, or with a head that is neither a chip nor a
    /// literal.
    BadCall,
    /// A nested call stands too far back in an argument list to be given a
    /// one-letter name.
    TooManyArguments,
}

/// The mathematical value of an [`EvalError`].
pub enum EvalErr {
    UnknownChip(Seq<char>),
    MissingOutput(Seq<char>, Seq<char>),
    NoOutput(Seq<char>),
    TooDeep(Seq<char>),
    BadCall,
    TooManyArguments,
}

impl View for EvalError {
    type V = EvalErr;

    open spec fn view(&self) -> EvalErr {
        match self {
            EvalError::UnknownChip(n) => EvalErr::UnknownChip(n@),
            EvalError::MissingOutput(n, o) => EvalErr::MissingOutput(n@, o@),
            EvalError::NoOutput(n) => EvalErr::NoOutput(n@),
            EvalError::TooDeep(n) => EvalErr::TooDeep(n@),
            EvalError::BadCall => EvalErr::BadCall,
            EvalError::TooManyArguments => EvalErr::TooManyArguments,
        }
    }
}

/// The mathematical value of a chip library: names with their bodies.
pub type Library = Seq<(Seq<char>, Seq<Tok>)>;

/// The name of the built-in gate.
pub open spec fn name_nand() -> Seq<char> {
    seq!['N', 'A', 'N', 'D']
}

/// The name of the output of NAND, and of a call result that no output name
/// is waiting for.
pub open spec fn name_out() -> Seq<char> {
    seq!['o', 'u', 't']
}

/// The name of a literal or a signal that no output name is waiting for.
pub open spec fn name_out_upper() -> Seq<char> {
    seq!['O', 'U', 'T']
}

/// The last argument place whose nested call can still be named.
pub const LAST_NAMED_PLACE: usize = 158;

/// The name under which the nested call at argument place `j` (counted from
/// zero over all arguments) is handed to the callee: `a`, `b`, `c`, and so on.
pub open spec fn place_name(j: int) -> Seq<char> {
    seq![((97 + j) as u8) as char]
}

/// NAND of the lowest bits of `a` and `b`.
pub open spec fn nand_bit(a: u8, b: u8) -> u8 {
    (!(a & b)) & 1u8
}

/// What the built-in gate produces: `out` is the NAND of `a` and `b`, each
/// read as 0 where it is absent.
pub open spec fn nand_outputs(inputs: Signals) -> Signals {
    seq![(name_out(), nand_bit(sig_or_zero(inputs, seq!['a']), sig_or_zero(inputs, seq!['b'])))]
}

/// The body of the chip named `name`, if the library holds it.
pub open spec fn chip_body(lib: Library, name: Seq<char>) -> Option<Seq<Tok>> {
    if position(lib, name, 0) < lib.len() {
        Some(lib[position(lib, name, 0)].1)
    } else {
        None
    }
}

/// `lib` with `name` defined as `body`: in its place if `name` is present,
/// else at the end.
pub open spec fn lib_put(lib: Library, name: Seq<char>, body: Seq<Tok>) -> Library {
    if position(lib, name, 0) < lib.len() {
        lib.update(position(lib, name, 0), (name, body))
    } else {
        lib.push((name, body))
    }
}

/// What the evaluator remembers between two tokens of a body.
pub struct RunState {
    /// The outputs written so far.
    pub out: Signals,
    /// The output name waiting for a value; empty if none is.
    pub pending: Seq<char>,
}

/// Writes `bit` under the waiting output name, or under `fallback` if none
/// is waiting, and clears the waiting name.
pub open spec fn settle(st: RunState, bit: u8, fallback: Seq<char>) -> RunState {
    RunState {
        out: sig_put(
            st.out,
            if st.pending.len() > 0 {
                st.pending
            } else {
                fallback
            },
            bit,
        ),
        pending: Seq::empty(),
    }
}

/// The chip that a call head names.
pub open spec fn head_name(head: Tok) -> Seq<char> {
    match head {
        Tok::Chip(n) => n,
        Tok::ChipIO(n, _) => n,
        _ => Seq::empty(),
    }
}

/// The bit that a call head reads from the outputs of its chip: the named
/// output for a qualified head, the first output otherwise.
pub open spec fn select(head: Tok, outs: Signals) -> Result<u8, EvalErr> {
    match head {
        Tok::ChipIO(_, o) => match sig_get(outs, o) {
            Some(b) => Ok(b),
            None => Err(EvalErr::MissingOutput(head_name(head), o)),
        },
        _ => if outs.len() > 0 {
            Ok(outs[0].1)
        } else {
            Err(EvalErr::NoOutput(head_name(head)))
        },
    }
}

/// The outputs of a finished run.
pub open spec fn run_result(r: Result<RunState, EvalErr>) -> Result<Signals, EvalErr> {
    match r {
        Ok(st) => Ok(st.out),
        Err(e) => Err(e),
    }
}

/// The value of the call `t` under the caller's `inputs`, where chips may
/// call each other `fuel` deep.
///
/// The arguments are bound first, then the head is resolved: a literal is
/// its value, NAND is computed, and any other chip is run on the bound
/// inputs alone.
pub open spec fn call_value(lib: Library, t: Tok, inputs: Signals, fuel: nat) -> Result<
    u8,
    EvalErr,
>
    decreases fuel, t, 1nat, 0nat,
{
    match t {
        Tok::Expression(parts) => if parts.len() == 0 {
            Err(EvalErr::BadCall)
        } else {
            match call_inputs(lib, t, inputs, fuel, (parts.len() - 1) as nat) {
                Err(e) => Err(e),
                Ok(local) => match parts[0] {
                    Tok::True => Ok(1u8),
                    Tok::False => Ok(0u8),
                    Tok::Chip(_) | Tok::ChipIO(_, _) => {
                        let outs = if head_name(parts[0]) == name_nand() {
                            Ok(nand_outputs(local))
                        } else {
                            match chip_body(lib, head_name(parts[0])) {
                                None => Err(EvalErr::UnknownChip(head_name(parts[0]))),
                                Some(body) => if fuel == 0 {
                                    Err(EvalErr::TooDeep(head_name(parts[0])))
                                } else {
                                    run_result(
                                        run_prefix(lib, body, local, (fuel - 1) as nat, body.len()),
                                    )
                                },
                            }
                        };
                        match outs {
                            Err(e) => Err(e),
                            Ok(o) => select(parts[0], o),
                        }
                    },
                    _ => Err(EvalErr::BadCall),
                },
            }
        },
        _ => Err(EvalErr::BadCall),
    }
}

/// The inputs that the call `t` has bound after its first `k` arguments.
///
/// A binding sets its parameter to the caller's signal, read as 0 where it
/// is absent. A nested call is evaluated under the caller's inputs and bound
/// to the letter of its place. Other arguments bind nothing.
pub open spec fn call_inputs(lib: Library, t: Tok, inputs: Signals, fuel: nat, k: nat) -> Result<
    Signals,
    EvalErr,
>
    decreases fuel, t, 0nat, k,
{
    if k == 0 || !(t is Expression) || k >= t->Expression_0.len() {
        Ok(Seq::empty())
    } else {
        match call_inputs(lib, t, inputs, fuel, (k - 1) as nat) {
            Err(e) => Err(e),
            Ok(local) => match t->Expression_0[k as int] {
                Tok::IO(p, s) => Ok(sig_put(local, p, sig_or_zero(inputs, s))),
                Tok::Expression(_) => if k - 1 > LAST_NAMED_PLACE {
                    Err(EvalErr::TooManyArguments)
                } else {
                    match call_value(lib, t->Expression_0[k as int], inputs, fuel) {
                        Err(e) => Err(e),
                        Ok(b) => Ok(sig_put(local, place_name(k - 1), b)),
                    }
                },
                _ => Ok(local),
            },
        }
    }
}

/// The evaluator after the first `n` tokens of a body.
///
/// An output name waits for the next value. A literal, a binding or a bare
/// name (read from the inputs) and a call each give the waiting name its
/// value. Other tokens are skipped.
pub open spec fn run_prefix(lib: Library, code: Seq<Tok>, inputs: Signals, fuel: nat, n: nat)
    -> Result<RunState, EvalErr>
    decreases fuel, code, 0nat, n,
{
    if n == 0 || n > code.len() {
        Ok(RunState { out: Seq::empty(), pending: Seq::empty() })
    } else {
        match run_prefix(lib, code, inputs, fuel, (n - 1) as nat) {
            Err(e) => Err(e),
            Ok(st) => match code[n - 1] {
                Tok::Output(name) => Ok(RunState { pending: name, ..st }),
                Tok::True => Ok(settle(st, 1, name_out_upper())),
                Tok::False => Ok(settle(st, 0, name_out_upper())),
                Tok::IO(_, s) => Ok(settle(st, sig_or_zero(inputs, s), name_out_upper())),
                Tok::Input(s) => Ok(settle(st, sig_or_zero(inputs, s), name_out_upper())),
                Tok::Expression(_) => match call_value(lib, code[n - 1], inputs, fuel) {
                    Err(e) => Err(e),
                    Ok(b) => Ok(settle(st, b, name_out())),
                },
                _ => Ok(st),
            },
        }
    }
}

/// The outputs of the body `code` under `inputs`, where chips may call each
/// other `fuel` deep.
pub open spec fn run(lib: Library, code: Seq<Tok>, inputs: Signals, fuel: nat) -> Result<
    Signals,
    EvalErr,
> {
    run_result(run_prefix(lib, code, inputs, fuel, code.len()))
}

/// The value of a result that holds a signal map.
pub open spec fn signals_result(r: Result<SignalMap, EvalError>) -> Result<Signals, EvalErr> {
    match r {
        Ok(m) => Ok(m@),
        Err(e) => Err(e@),
    }
}

/// The value of a result that holds a bit.
pub open spec fn bit_result(r: Result<u8, EvalError>) -> Result<u8, EvalErr> {
    match r {
        Ok(b) => Ok(b),
        Err(e) => Err(e@),
    }
}

/// Once binding the arguments has failed, later arguments change nothing.
pub proof fn lemma_inputs_error_stays(
    lib: Library,
    t: Tok,
    inputs: Signals,
    fuel: nat,
    k: nat,
    m: nat,
)
    requires
        t is Expression,
        k <= m < t->Expression_0.len(),
        call_inputs(lib, t, inputs, fuel, k) is Err,
    ensures
        call_inputs(lib, t, inputs, fuel, m) == call_inputs(lib, t, inputs, fuel, k),
    decreases m,
{
    if k < m {
        lemma_inputs_error_stays(lib, t, inputs, fuel, k, (m - 1) as nat);
    }
}

/// Once a run has failed, later tokens change nothing.
pub proof fn lemma_run_error_stays(
    lib: Library,
    code: Seq<Tok>,
    inputs: Signals,
    fuel: nat,
    n: nat,
    m: nat,
)
    requires
        n <= m <= code.len(),
        run_prefix(lib, code, inputs, fuel, n) is Err,
    ensures
        run_prefix(lib, code, inputs, fuel, m) == run_prefix(lib, code, inputs, fuel, n),
    decreases m,
{
    if n < m {
        lemma_run_error_stays(lib, code, inputs, fuel, n, (m - 1) as nat);
    }
}

fn nand_name() -> (r: String)
    ensures
        r@ == name_nand(),
{
    proof {
        reveal_strlit("NAND");
    }
    let r = String::from_str("NAND");
    assert(r@ =~= name_nand());
    r
}

fn out_name() -> (r: String)
    ensures
        r@ == name_out(),
{
    proof {
        reveal_strlit("out");
    }
    let r = String::from_str("out");
    assert(r@ =~= name_out());
    r
}

fn out_upper_name() -> (r: String)
    ensures
        r@ == name_out_upper(),
{
    proof {
        reveal_strlit("OUT");
    }
    let r = String::from_str("OUT");
    assert(r@ =~= name_out_upper());
    r
}

/// The one-letter name of argument place `j`.
fn place_letter(j: usize) -> (r: String)
    requires
        j <= LAST_NAMED_PLACE,
    ensures
        r@ == place_name(j as int),
{
    let code: u8 = 97u8 + (j as u8);
    string_of_char(code as char)
}

/// The first output of a chip: the value that an unqualified head reads.
pub fn get_first_output(out: &SignalMap) -> (r: u8)
    requires
        out@.len() > 0,
    ensures
        r == out@[0].1,
{
    out.bit_at(0)
}

/// The built-in gate: `out` is the NAND of the inputs `a` and `b`, each read
/// as 0 where it is absent.
#[allow(non_snake_case)]
pub fn NAND(inputs: &SignalMap) -> (output: SignalMap)
    ensures
        output@ == nand_outputs(inputs@),
{
    proof {
        reveal_strlit("a");
        reveal_strlit("b");
    }
    assert("a"@ =~= seq!['a']);
    assert("b"@ =~= seq!['b']);
    let a = inputs.get_or_zero("a");
    let b = inputs.get_or_zero("b");
    let mut output = SignalMap::new();
    output.insert(out_name(), (!(a & b)) & 1u8);
    assert(output@ =~= nand_outputs(inputs@));
    output
}

/// Gives the waiting output name its value, or `fallback` if none waits.
fn settle_into(out: &mut SignalMap, pending: &mut String, bit: u8, fallback: String)
    ensures
        (RunState { out: final(out)@, pending: final(pending)@ }) == settle(
            RunState { out: old(out)@, pending: old(pending)@ },
            bit,
            fallback@,
        ),
{
    let name = if pending.as_str().unicode_len() > 0 {
        pending.clone()
    } else {
        fallback
    };
    out.insert(name, bit);
    *pending = String::new();
}

/// A chip library with the evaluator that runs on it.
pub struct ChipEvaluator {
    pub chips: Vec<(String, Vec<Token>)>,
}

impl View for ChipEvaluator {
    type V = Library;

    open spec fn view(&self) -> Library {
        Seq::new(self.chips.len() as nat, |i: int| (self.chips[i].0@, toks(self.chips[i].1@)))
    }
}

impl ChipEvaluator {
    /// An evaluator with an empty library.
    pub fn new() -> (r: Self)
        ensures
            r@ == Seq::<(Seq<char>, Seq<Tok>)>::empty(),
    {
        let r = ChipEvaluator { chips: Vec::new() };
        assert(r@ =~= Seq::<(Seq<char>, Seq<Tok>)>::empty());
        r
    }

    /// The index of the chip named `name`, or the number of chips.
    fn find_chip(&self, name: &String) -> (k: usize)
        ensures
            k == position(self@, name@, 0),
            k <= self@.len(),
    {
        let mut i: usize = 0;
        while i < self.chips.len()
            invariant
                i <= self.chips.len(),
                position(self@, name@, 0) == position(self@, name@, i as int),
            decreases self.chips.len() - i,
        {
            assert(self@[i as int].0 == self.chips[i as int].0@);
            if self.chips[i].0 == *name {
                return i;
            }
            i += 1;
        }
        i
    }

    /// Defines the chip `chip_name` as `code`, in place of an earlier
    /// definition of that name if there is one.
    pub fn load_chip(&mut self, chip_name: &str, code: &Vec<Token>)
        ensures
            final(self)@ == lib_put(old(self)@, chip_name@, toks(code@)),
    {
        let name = String::from_str(chip_name);
        let body = clone_tokens(code);
        let k = self.find_chip(&name);
        let ghost before = self@;
        if k < self.chips.len() {
            self.chips.set(k, (name, body));
            assert(self@ =~= before.update(k as int, (chip_name@, toks(code@))));
        } else {
            self.chips.push((name, body));
            assert(self@ =~= before.push((chip_name@, toks(code@))));
        }
    }

    /// Evaluates the body `code` under `inputs`. Chips may call each other
    /// as deep as the library has chips: a longer chain of calls names some
    /// chip twice.
    pub fn eval(&self, code: &Vec<Token>, inputs: &SignalMap) -> (r: Result<SignalMap, EvalError>)
        ensures
            signals_result(r) == run(self@, toks(code@), inputs@, self@.len()),
    {
        self.eval_within(code, inputs, self.chips.len())
    }

    /// Evaluates the body `code` under `inputs`, where chips may call each
    /// other `fuel` deep.
    pub fn eval_within(&self, code: &Vec<Token>, inputs: &SignalMap, fuel: usize) -> (r: Result<
        SignalMap,
        EvalError,
    >)
        ensures
            signals_result(r) == run(self@, toks(code@), inputs@, fuel as nat),
        decreases fuel, code,
    {
        let ghost ts = toks(code@);
        let mut out = SignalMap::new();
        let mut pending = String::new();
        let mut i: usize = 0;
        while i < code.len()
            invariant
                i <= code.len(),
                ts == toks(code@),
                run_prefix(self@, ts, inputs@, fuel as nat, i as nat) == Ok::<RunState, EvalErr>(
                    RunState { out: out@, pending: pending@ },
                ),
            decreases code.len() - i,
        {
            assert(ts[i as int] == code[i as int]@);
            match &code[i] {
                Token::Output(name) => {
                    pending = name.clone();
                },
                Token::True => {
                    settle_into(&mut out, &mut pending, 1, out_upper_name());
                },
                Token::False => {
                    settle_into(&mut out, &mut pending, 0, out_upper_name());
                },
                Token::IO(_, s) => {
                    let b = inputs.get_or_zero(s.as_str());
                    settle_into(&mut out, &mut pending, b, out_upper_name());
                },
                Token::Input(s) => {
                    let b = inputs.get_or_zero(s.as_str());
                    settle_into(&mut out, &mut pending, b, out_upper_name());
                },
                Token::Expression(_) => {
                    match self.eval_call(&code[i], inputs, fuel) {
                        Ok(b) => {
                            settle_into(&mut out, &mut pending, b, out_name());
                        },
                        Err(e) => {
                            proof {
                                lemma_run_error_stays(
                                    self@,
                                    ts,
                                    inputs@,
                                    fuel as nat,
                                    (i + 1) as nat,
                                    ts.len(),
                                );
                            }
                            return Err(e);
                        },
                    }
                },
                _ => {},
            }
            i += 1;
        }
        Ok(out)
    }

    /// Evaluates the call `t` under the caller's `inputs`, where chips may
    /// call each other `fuel` deep.
    pub fn eval_call(&self, t: &Token, inputs: &SignalMap, fuel: usize) -> (r: Result<
        u8,
        EvalError,
    >)
        ensures
            bit_result(r) == call_value(self@, t@, inputs@, fuel as nat),
        decreases fuel, t,
    {
        match t {
            Token::Expression(parts) => {
                assert(t@->Expression_0 =~= toks(parts@));
                if parts.len() == 0 {
                    return Err(EvalError::BadCall);
                }
                let mut local = SignalMap::new();
                let mut k: usize = 1;
                while k < parts.len()
                    invariant
                        1 <= k <= parts.len(),
                        *t == Token::Expression(*parts),
                        t@ == Tok::Expression(toks(parts@)),
                        call_inputs(self@, t@, inputs@, fuel as nat, (k - 1) as nat) == Ok::<
                            Signals,
                            EvalErr,
                        >(local@),
                    decreases parts.len() - k,
                {
                    assert(toks(parts@)[k as int] == parts[k as int]@);
                    match &parts[k] {
                        Token::IO(p, s) => {
                            local.insert(p.clone(), inputs.get_or_zero(s.as_str()));
                        },
                        Token::Expression(_) => {
                            if k - 1 > LAST_NAMED_PLACE {
                                proof {
                                    lemma_inputs_error_stays(
                                        self@,
                                        t@,
                                        inputs@,
                                        fuel as nat,
                                        k as nat,
                                        (parts.len() - 1) as nat,
                                    );
                                }
                                return Err(EvalError::TooManyArguments);
                            }
                            match self.eval_call(&parts[k], inputs, fuel) {
                                Ok(b) => {
                                    local.insert(place_letter(k - 1), b);
                                },
                                Err(e) => {
                                    proof {
                                        lemma_inputs_error_stays(
                                            self@,
                                            t@,
                                            inputs@,
                                            fuel as nat,
                                            k as nat,
                                            (parts.len() - 1) as nat,
                                        );
                                    }
                                    return Err(e);
                                },
                            }
                        },
                        _ => {},
                    }
                    k += 1;
                }
                assert(toks(parts@)[0] == parts[0]@);
                let name = match &parts[0] {
                    Token::True => {
                        return Ok(1);
                    },
                    Token::False => {
                        return Ok(0);
                    },
                    Token::Chip(n) => n,
                    Token::ChipIO(n, _) => n,
                    _ => {
                        return Err(EvalError::BadCall);
                    },
                };
                let outs = if *name == nand_name() {
                    NAND(&local)
                } else {
                    let at = self.find_chip(name);
                    if at >= self.chips.len() {
                        return Err(EvalError::UnknownChip(name.clone()));
                    }
                    if fuel == 0 {
                        return Err(EvalError::TooDeep(name.clone()));
                    }
                    match self.eval_within(&self.chips[at].1, &local, fuel - 1) {
                        Ok(o) => o,
                        Err(e) => {
                            return Err(e);
                        },
                    }
                };
                match &parts[0] {
                    Token::ChipIO(_, o) => match outs.get(o.as_str()) {
                        Some(b) => Ok(b),
                        None => Err(EvalError::MissingOutput(name.clone(), o.clone())),
                    },
                    _ => if outs.len() > 0 {
                        Ok(get_first_output(&outs))
                    } else {
                        Err(EvalError::NoOutput(name.clone()))
                    },
                }
            },
            _ => Err(EvalError::BadCall),
        }
    }
}

/// Whether two input maps read alike: every name reads the same bit in both,
/// where an absent name reads as 0.
pub open spec fn same_readings(x: Signals, y: Signals) -> bool {
    forall|name: Seq<char>| sig_or_zero(x, name) == sig_or_zero(y, name)
}

/// A call has the same value under input maps that read alike.
pub proof fn lemma_call_reads(lib: Library, t: Tok, x: Signals, y: Signals, fuel: nat)
    requires
        same_readings(x, y),
    ensures
        call_value(lib, t, x, fuel) == call_value(lib, t, y, fuel),
    decreases t, 1nat, 0nat,
{
    match t {
        Tok::Expression(parts) => {
            if parts.len() > 0 {
                lemma_inputs_reads(lib, t, x, y, fuel, (parts.len() - 1) as nat);
            }
        },
        _ => {},
    }
}

/// A call binds the same inputs under input maps that read alike.
pub proof fn lemma_inputs_reads(lib: Library, t: Tok, x: Signals, y: Signals, fuel: nat, k: nat)
    requires
        same_readings(x, y),
    ensures
        call_inputs(lib, t, x, fuel, k) == call_inputs(lib, t, y, fuel, k),
    decreases t, 0nat, k,
{
    if !(k == 0 || !(t is Expression) || k >= t->Expression_0.len()) {
        lemma_inputs_reads(lib, t, x, y, fuel, (k - 1) as nat);
        match t->Expression_0[k as int] {
            Tok::Expression(_) => {
                lemma_call_reads(lib, t->Expression_0[k as int], x, y, fuel);
            },
            _ => {},
        }
    }
}

/// A body runs alike under input maps that read alike.
pub proof fn lemma_run_reads(
    lib: Library,
    code: Seq<Tok>,
    x: Signals,
    y: Signals,
    fuel: nat,
    n: nat,
)
    requires
        same_readings(x, y),
    ensures
        run_prefix(lib, code, x, fuel, n) == run_prefix(lib, code, y, fuel, n),
    decreases code, 0nat, n,
{
    if !(n == 0 || n > code.len()) {
        lemma_run_reads(lib, code, x, y, fuel, (n - 1) as nat);
        match code[n - 1] {
            Tok::Expression(_) => {
                lemma_call_reads(lib, code[n - 1], x, y, fuel);
            },
            _ => {},
        }
    }
}

/// Where an entry is found once one more entry stands at the end.
pub proof fn lemma_position_push(m: Signals, name: Seq<char>, bit: u8, other: Seq<char>, i: int)
    requires
        0 <= i <= m.len(),
    ensures
        position(m.push((name, bit)), other, i) == if position(m, other, i) < m.len() {
            position(m, other, i)
        } else if other == name {
            m.len() as int
        } else {
            (m.len() + 1) as int
        },
    decreases m.len() - i,
{
    let longer = m.push((name, bit));
    if i < m.len() {
        assert(longer[i] == m[i]);
        if m[i].0 != other {
            lemma_position_push(m, name, bit, other, i + 1);
        }
    } else {
        assert(longer[i] == (name, bit));
        assert(position(longer, other, i + 1) == longer.len());
    }
}

/// Default to zero: a signal that is absent from the inputs reads as 0, so
/// that binding it to 0 changes the result of no evaluation, and no evaluation
/// fails for its absence.
pub proof fn lemma_absent_signal_is_zero(
    lib: Library,
    code: Seq<Tok>,
    inputs: Signals,
    name: Seq<char>,
    fuel: nat,
)
    requires
        sig_get(inputs, name) is None,
    ensures
        run(lib, code, sig_put(inputs, name, 0), fuel) == run(lib, code, inputs, fuel),
{
    let bound = sig_put(inputs, name, 0);
    lemma_position_bounds(inputs, name, 0);
    assert(bound == inputs.push((name, 0u8)));
    assert forall|other: Seq<char>| sig_or_zero(bound, other) == sig_or_zero(inputs, other) by {
        lemma_position_bounds(inputs, other, 0);
        lemma_position_push(inputs, name, 0, other, 0);
        if position(inputs, other, 0) < inputs.len() {
            assert(bound[position(inputs, other, 0)] == inputs[position(inputs, other, 0)]);
        }
    }
    lemma_run_reads(lib, code, bound, inputs, fuel, code.len());
}

/// The truth table of the built-in gate on single bits.
pub proof fn lemma_nand_truth_table()
    ensures
        nand_bit(0, 0) == 1,
        nand_bit(0, 1) == 1,
        nand_bit(1, 0) == 1,
        nand_bit(1, 1) == 0,
{
    assert((!(0u8 & 0u8)) & 1u8 == 1u8) by (bit_vector);
    assert((!(0u8 & 1u8)) & 1u8 == 1u8) by (bit_vector);
    assert((!(1u8 & 0u8)) & 1u8 == 1u8) by (bit_vector);
    assert((!(1u8 & 1u8)) & 1u8 == 0u8) by (bit_vector);
}

/// The built-in gate gives a single bit, whatever it is given.
pub proof fn lemma_nand_is_a_bit(a: u8, b: u8)
    ensures
        nand_bit(a, b) == 0 || nand_bit(a, b) == 1,
        nand_bit(a, b) == 0 <==> (a & 1 == 1 && b & 1 == 1),
{
    assert(((!(a & b)) & 1u8 == 0u8 || (!(a & b)) & 1u8 == 1u8) && ((!(a & b)) & 1u8 == 0u8 <==> (a
        & 1u8 == 1u8 && b & 1u8 == 1u8))) by (bit_vector);
}

/// Nested calls are named by their place: where the argument at place `j`
/// (counted from zero) of a call is itself a call with the value `bit`, the
/// callee receives `bit` under the letter of that place, `a` for the first
/// place and `b` for the second.
pub proof fn lemma_nested_call_binding(
    lib: Library,
    t: Tok,
    inputs: Signals,
    fuel: nat,
    j: nat,
    local: Signals,
    bit: u8,
)
    requires
        t is Expression,
        j + 1 < t->Expression_0.len(),
        j <= LAST_NAMED_PLACE,
        t->Expression_0[j as int + 1] is Expression,
        call_inputs(lib, t, inputs, fuel, j) == Ok::<Signals, EvalErr>(local),
        call_value(lib, t->Expression_0[j as int + 1], inputs, fuel) == Ok::<u8, EvalErr>(bit),
    ensures
        call_inputs(lib, t, inputs, fuel, j + 1) == Ok::<Signals, EvalErr>(
            sig_put(local, place_name(j as int), bit),
        ),
        place_name(0) == seq!['a'],
        place_name(1) == seq!['b'],
        place_name(25) == seq!['z'],
{
    assert(place_name(0) =~= seq!['a']);
    assert(place_name(1) =~= seq!['b']);
    assert(place_name(25) =~= seq!['z']);
}

/// A call that has a value within some depth has that value one deeper.
pub proof fn lemma_call_one_deeper(lib: Library, t: Tok, inputs: Signals, fuel: nat)
    requires
        call_value(lib, t, inputs, fuel) is Ok,
    ensures
        call_value(lib, t, inputs, fuel + 1) == call_value(lib, t, inputs, fuel),
    decreases fuel, t, 1nat, 0nat,
{
    match t {
        Tok::Expression(parts) => {
            if parts.len() > 0 {
                let last = (parts.len() - 1) as nat;
                lemma_inputs_one_deeper(lib, t, inputs, fuel, last);
                let local = call_inputs(lib, t, inputs, fuel, last)->Ok_0;
                let name = head_name(parts[0]);
                if (parts[0] is Chip || parts[0] is ChipIO) && name != name_nand() {
                    let body = chip_body(lib, name)->Some_0;
                    lemma_run_one_deeper(lib, body, local, (fuel - 1) as nat, body.len());
                }
            }
        },
        _ => {},
    }
}

/// Arguments that are bound within some depth are bound alike one deeper.
pub proof fn lemma_inputs_one_deeper(lib: Library, t: Tok, inputs: Signals, fuel: nat, k: nat)
    requires
        call_inputs(lib, t, inputs, fuel, k) is Ok,
    ensures
        call_inputs(lib, t, inputs, fuel + 1, k) == call_inputs(lib, t, inputs, fuel, k),
    decreases fuel, t, 0nat, k,
{
    if !(k == 0 || !(t is Expression) || k >= t->Expression_0.len()) {
        lemma_inputs_one_deeper(lib, t, inputs, fuel, (k - 1) as nat);
        match t->Expression_0[k as int] {
            Tok::Expression(_) => {
                lemma_call_one_deeper(lib, t->Expression_0[k as int], inputs, fuel);
            },
            _ => {},
        }
    }
}

/// A body that runs through within some depth runs alike one deeper.
pub proof fn lemma_run_one_deeper(
    lib: Library,
    code: Seq<Tok>,
    inputs: Signals,
    fuel: nat,
    n: nat,
)
    requires
        run_prefix(lib, code, inputs, fuel, n) is Ok,
    ensures
        run_prefix(lib, code, inputs, fuel + 1, n) == run_prefix(lib, code, inputs, fuel, n),
    decreases fuel, code, 0nat, n,
{
    if !(n == 0 || n > code.len()) {
        lemma_run_one_deeper(lib, code, inputs, fuel, (n - 1) as nat);
        match code[n - 1] {
            Tok::Expression(_) => {
                lemma_call_one_deeper(lib, code[n - 1], inputs, fuel);
            },
            _ => {},
        }
    }
}

/// More depth changes no result: the outputs that an evaluation gives
/// within some depth it gives within every greater depth.
pub proof fn lemma_run_deeper(
    lib: Library,
    code: Seq<Tok>,
    inputs: Signals,
    fuel: nat,
    more: nat,
)
    requires
        run(lib, code, inputs, fuel) is Ok,
    ensures
        run(lib, code, inputs, fuel + more) == run(lib, code, inputs, fuel),
    decreases more,
{
    if more > 0 {
        lemma_run_deeper(lib, code, inputs, fuel, (more - 1) as nat);
        lemma_run_one_deeper(lib, code, inputs, (fuel + more - 1) as nat, code.len());
    }
}

} // verus!
