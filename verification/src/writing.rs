//! Writing a chip body back as source text, and the proof, stage by stage,
//! that parsing reads it back. The functions that write stand at the end.

use vstd::prelude::*;
use vstd::string::*;
use crate::grouper::{binding, qualify, head_of, group, group_scan, GroupState};
use crate::parser::{SplitState, split_prefix, statements, normal, normalize, parse_spec};
use crate::scanner::{ScanState, scan_prefix, scan_step, scan_words, flushed};
use crate::text::{is_space, is_punct, is_true_word, is_false_word, first_from, first_index, before, after};
use crate::lexer::{ParseError, LexState, Phase, lex_prefix, lex_spec, lex_step, classify};
use crate::token::{Token, Tok, toks, clone_token};

verus! {

/// The bare name that is written for the binding of `param` to `source`.
pub open spec fn written(param: Seq<char>, source: Seq<char>) -> Seq<char> {
    param + seq![':'] + source
}

/// The word that is written for a call head: the chip, and for a qualified
/// head a dot and the output after it.
pub open spec fn head_word(h: Tok) -> Seq<char> {
    match h {
        Tok::Chip(x) => x,
        Tok::ChipIO(n, o) => n + seq!['.'] + o,
        _ => Seq::empty(),
    }
}

/// Whether `w` is scanned as one word when it stands alone: it is not empty
/// and holds neither white space nor punctuation nor two slashes in a row.
pub open spec fn plain_word(w: Seq<char>) -> bool {
    &&& w.len() > 0
    &&& forall|i: int| 0 <= i < w.len() ==> !is_space(#[trigger] w[i]) && !is_punct(w[i])
    &&& forall|i: int| 0 <= i < w.len() - 1 ==> !(#[trigger] w[i] == '/' && w[i + 1] == '/')
}

/// Whether `w` can be written as an output name: a plain word, or the word
/// `=`, which the lexer takes as a name where it expects one.
pub open spec fn output_word(w: Seq<char>) -> bool {
    plain_word(w) || w == seq!['=']
}

/// Whether `w` is lexed as a name: a plain word that is no literal.
pub open spec fn name_word(w: Seq<char>) -> bool {
    plain_word(w) && !is_true_word(w) && !is_false_word(w)
}

/// Whether `t` is a tree that can be written back: a literal; a binding
/// whose written name is lexed as a name and reads back as that binding; or
/// a call whose head is a chip whose written word is lexed as a name and
/// reads back as that head, and whose arguments can be written back.
pub open spec fn writable(t: Tok) -> bool
    decreases t,
{
    match t {
        Tok::True => true,
        Tok::False => true,
        Tok::IO(p, s) => name_word(written(p, s)) && binding(written(p, s)) == t,
        Tok::Expression(parts) => {
            &&& parts.len() >= 1
            &&& (parts[0] is Chip || parts[0] is ChipIO)
            &&& name_word(head_word(parts[0]))
            &&& qualify(head_word(parts[0])) == parts[0]
            &&& forall|i: int| 1 <= i < parts.len() ==> writable(#[trigger] parts[i])
        },
        _ => false,
    }
}

/// The flat tokens that a tree is written as: a binding as its bare name, a
/// call as its head and its arguments in parentheses, with commas between.
pub open spec fn flat(t: Tok) -> Seq<Tok>
    decreases t, 0nat,
{
    match t {
        Tok::IO(p, s) => seq![Tok::Input(written(p, s))],
        Tok::Expression(parts) => if parts.len() >= 1 {
            seq![parts[0], Tok::LParen] + flat_args(parts, parts.len()) + seq![Tok::RParen]
        } else {
            seq![t]
        },
        _ => seq![t],
    }
}

/// The flat tokens of the arguments of a call before place `k` of its parts,
/// with commas between.
pub open spec fn flat_args(parts: Seq<Tok>, k: nat) -> Seq<Tok>
    decreases parts, k,
{
    if k <= 1 || k > parts.len() {
        Seq::empty()
    } else if k == 2 {
        flat(parts[1])
    } else {
        flat_args(parts, (k - 1) as nat) + seq![Tok::Comma] + flat(parts[k - 1])
    }
}

/// Whether the run `f` stands in `tokens` from place `i` on.
pub open spec fn occurs(tokens: Seq<Tok>, i: int, f: Seq<Tok>) -> bool {
    &&& 0 <= i
    &&& i + f.len() <= tokens.len()
    &&& forall|j: int| 0 <= j < f.len() ==> tokens[i + j] == #[trigger] f[j]
}

/// Inside an argument list, a written argument is gathered whole.
pub proof fn lemma_scan_arg(tokens: Seq<Tok>, i: nat, a: Tok, st: GroupState)
    requires
        writable(a),
        occurs(tokens, i as int, flat(a)),
        group_scan(tokens, i) == Ok::<GroupState, ParseError>(st),
        st.depth >= 1,
    ensures
        group_scan(tokens, i + flat(a).len()) == Ok::<GroupState, ParseError>(
            GroupState { run: st.run + flat(a), ..st },
        ),
    decreases a, 0nat,
{
    let f = flat(a);
    match a {
        Tok::Expression(parts) => {
            let fa = flat_args(parts, parts.len());
            assert(f == seq![parts[0], Tok::LParen] + fa + seq![Tok::RParen]);
            assert(f.len() == fa.len() + 3);
            assert(tokens[i as int + 0] == f[0]);
            assert(tokens[i as int + 1] == f[1]);
            assert(tokens[i as int + (2 + fa.len())] == f[2 + fa.len() as int]);
            let s1 = GroupState { run: st.run.push(parts[0]), ..st };
            assert(group_scan(tokens, i + 1) == Ok::<GroupState, ParseError>(s1));
            let s2 = GroupState { depth: st.depth + 1, run: s1.run.push(Tok::LParen), ..st };
            assert(group_scan(tokens, i + 2) == Ok::<GroupState, ParseError>(s2));
            assert(occurs(tokens, i as int + 2, fa)) by {
                assert forall|j: int| 0 <= j < fa.len() implies tokens[i + 2 + j] == #[trigger] fa[j] by {
                    assert(tokens[i + (2 + j)] == f[2 + j]);
                }
            }
            lemma_scan_args(tokens, i + 2, parts, parts.len(), s2);
            let s3 = GroupState { run: s2.run + fa, ..s2 };
            assert(group_scan(tokens, i + 2 + fa.len()) == Ok::<GroupState, ParseError>(s3));
            let s4 = GroupState { depth: st.depth, run: s3.run.push(Tok::RParen), ..st };
            assert(group_scan(tokens, i + 2 + fa.len() + 1) == Ok::<GroupState, ParseError>(s4));
            assert(s4.run =~= st.run + f);
        },
        _ => {
            assert(f.len() == 1);
            assert(tokens[i as int + 0] == f[0]);
            assert(st.run.push(f[0]) =~= st.run + f);
        },
    }
}

/// Inside a nested argument list, the written arguments are gathered whole.
pub proof fn lemma_scan_args(tokens: Seq<Tok>, i: nat, parts: Seq<Tok>, k: nat, st: GroupState)
    requires
        1 <= k <= parts.len(),
        forall|j: int| 1 <= j < parts.len() ==> writable(#[trigger] parts[j]),
        occurs(tokens, i as int, flat_args(parts, k)),
        group_scan(tokens, i) == Ok::<GroupState, ParseError>(st),
        st.depth >= 2,
    ensures
        group_scan(tokens, i + flat_args(parts, k).len()) == Ok::<GroupState, ParseError>(
            GroupState { run: st.run + flat_args(parts, k), ..st },
        ),
    decreases parts, k,
{
    let f = flat_args(parts, k);
    if k == 1 {
        assert(st.run + f =~= st.run);
    } else if k == 2 {
        lemma_scan_arg(tokens, i, parts[1], st);
    } else {
        let before = flat_args(parts, (k - 1) as nat);
        let last = flat(parts[k - 1]);
        assert(f == before + seq![Tok::Comma] + last);
        assert(occurs(tokens, i as int, before)) by {
            assert forall|j: int| 0 <= j < before.len() implies tokens[i + j] == #[trigger] before[j] by {
                assert(tokens[i + j] == f[j]);
            }
        }
        lemma_scan_args(tokens, i, parts, (k - 1) as nat, st);
        let s1 = GroupState { run: st.run + before, ..st };
        assert(tokens[i as int + before.len()] == f[before.len() as int]);
        let s2 = GroupState { run: s1.run.push(Tok::Comma), ..st };
        assert(group_scan(tokens, i + before.len() + 1) == Ok::<GroupState, ParseError>(s2));
        assert(occurs(tokens, (i + before.len() + 1) as int, last)) by {
            assert forall|j: int| 0 <= j < last.len() implies tokens[i + before.len() + 1 + j]
                == #[trigger] last[j] by {
                assert(tokens[i + (before.len() + 1 + j)] == f[before.len() + 1 + j]);
            }
        }
        lemma_scan_arg(tokens, i + before.len() + 1, parts[k - 1], s2);
        assert(s2.run + last =~= st.run + f);
    }
}

/// The written arguments before an earlier place start those before a later.
pub proof fn lemma_args_prefix(parts: Seq<Tok>, k: nat, m: nat)
    requires
        1 <= k <= m <= parts.len(),
    ensures
        flat_args(parts, k).len() <= flat_args(parts, m).len(),
        forall|j: int|
            0 <= j < flat_args(parts, k).len() ==> flat_args(parts, m)[j] == #[trigger] flat_args(
                parts,
                k,
            )[j],
    decreases m,
{
    if k < m {
        lemma_args_prefix(parts, k, (m - 1) as nat);
    }
}

/// At the top of a written call, the arguments before place `k` are grouped
/// but for the last, which is gathered.
pub proof fn lemma_scan_top(t: Tok, k: nat)
    requires
        writable(t),
        t is Expression,
        2 <= k <= t->Expression_0.len(),
    ensures
        group_scan(flat(t), 2 + flat_args(t->Expression_0, k).len()) == Ok::<
            GroupState,
            ParseError,
        >(
            GroupState {
                parts: t->Expression_0.take(k - 1),
                depth: 1,
                run: flat(t->Expression_0[k - 1]),
            },
        ),
        2 + flat_args(t->Expression_0, k).len() < flat(t).len(),
    decreases t, 0nat, k,
{
    let parts = t->Expression_0;
    let tokens = flat(t);
    let all = flat_args(parts, parts.len());
    let f = flat_args(parts, k);
    assert(tokens == seq![parts[0], Tok::LParen] + all + seq![Tok::RParen]);
    lemma_args_prefix(parts, k, parts.len());
    assert(occurs(tokens, 2, f)) by {
        assert forall|j: int| 0 <= j < f.len() implies tokens[2 + j] == #[trigger] f[j] by {
            assert(tokens[2 + j] == all[j]);
        }
    }
    let last = flat(parts[k - 1]);
    if k == 2 {
        let s2 = GroupState { parts: seq![parts[0]], depth: 1, run: Seq::empty() };
        assert(group_scan(tokens, 2) == Ok::<GroupState, ParseError>(s2)) by {
            reveal_with_fuel(group_scan, 3);
            assert(tokens[0] == parts[0]);
            assert(tokens[1] == Tok::LParen);
        }
        lemma_scan_arg(tokens, 2, parts[1], s2);
        assert(s2.run + last =~= last);
        assert(s2.parts =~= parts.take(1));
    } else {
        let before = flat_args(parts, (k - 1) as nat);
        assert(f == before + seq![Tok::Comma] + last);
        lemma_scan_top(t, (k - 1) as nat);
        let p = 2 + before.len();
        let s1 = GroupState { parts: parts.take(k - 2), depth: 1, run: flat(parts[k - 2]) };
        assert(group_scan(tokens, p) == Ok::<GroupState, ParseError>(s1));
        assert(tokens[p as int] == Tok::Comma) by {
            assert(tokens[2 + before.len() as int] == f[before.len() as int]);
        }
        lemma_group_flat(parts[k - 2]);
        lemma_flat_in_args(parts, (k - 1) as nat);
        let s2 = GroupState { parts: parts.take(k - 1), depth: 1, run: Seq::empty() };
        assert(s1.parts.push(parts[k - 2]) =~= parts.take(k - 1));
        assert(group_scan(tokens, p + 1) == Ok::<GroupState, ParseError>(s2));
        assert(occurs(tokens, (p + 1) as int, last)) by {
            assert forall|j: int| 0 <= j < last.len() implies tokens[p + 1 + j] == #[trigger] last[j] by {
                assert(tokens[2 + (before.len() + 1 + j)] == f[before.len() + 1 + j]);
            }
        }
        lemma_scan_arg(tokens, p + 1, parts[k - 1], s2);
        assert(s2.run + last =~= last);
    }
}

/// The written form of the last argument before place `k` is no longer than
/// the written arguments before place `k`, and not empty.
pub proof fn lemma_flat_in_args(parts: Seq<Tok>, k: nat)
    requires
        2 <= k <= parts.len(),
    ensures
        1 <= flat(parts[k - 1]).len() <= flat_args(parts, k).len(),
{
}

/// Writing a tree back and grouping what was written gives the tree again.
pub proof fn lemma_group_flat(t: Tok)
    requires
        writable(t),
    ensures
        group(flat(t)) == Ok::<Tok, ParseError>(t),
    decreases t, 1nat, 0nat,
{
    let tokens = flat(t);
    match t {
        Tok::Expression(parts) => {
            let all = flat_args(parts, parts.len());
            assert(tokens == seq![parts[0], Tok::LParen] + all + seq![Tok::RParen]);
            assert(tokens.len() == all.len() + 3);
            assert(tokens[2 + all.len() as int] == Tok::RParen);
            if parts.len() == 1 {
                let s2 = GroupState { parts: seq![parts[0]], depth: 1, run: Seq::empty() };
                assert(group_scan(tokens, 3) == Ok::<GroupState, ParseError>(
                    GroupState { depth: 0, ..s2 },
                )) by {
                    reveal_with_fuel(group_scan, 4);
                    assert(tokens[0] == parts[0]);
                    assert(tokens[1] == Tok::LParen);
                }
                assert(seq![parts[0]] =~= parts);
                assert(tokens.len() == 3);
                assert(group_scan(tokens, tokens.len()) == Ok::<GroupState, ParseError>(
                    GroupState { parts, depth: 0, run: Seq::empty() },
                ));
            } else {
                let k = parts.len();
                lemma_scan_top(t, k);
                lemma_group_flat(parts[k - 1]);
                lemma_flat_in_args(parts, k);
                let s1 = GroupState { parts: parts.take(k - 1), depth: 1, run: flat(parts[k - 1]) };
                assert(group_scan(tokens, (2 + all.len()) as nat) == Ok::<GroupState, ParseError>(
                    s1,
                ));
                assert(s1.parts.push(parts[k - 1]) =~= parts);
                assert(group_scan(tokens, (2 + all.len() + 1) as nat) == Ok::<
                    GroupState,
                    ParseError,
                >(GroupState { parts, depth: 0, run: Seq::empty() }));
                assert(group_scan(tokens, tokens.len()) == Ok::<GroupState, ParseError>(
                    GroupState { parts, depth: 0, run: Seq::empty() },
                ));
            }
            assert(!(parts[0] is Input));
            assert(group(tokens) == Ok::<Tok, ParseError>(Tok::Expression(parts)));
        },
        Tok::IO(p, s) => {
            reveal_with_fuel(group_scan, 2);
            assert(tokens[0] == Tok::Input(written(p, s)));
        },
        _ => {},
    }
}

/// The token that the lexer gives for a written token: a qualified head is
/// still a chip name with a dot in it.
pub open spec fn lexed(t: Tok) -> Tok {
    match t {
        Tok::ChipIO(_, _) => Tok::Chip(head_word(t)),
        _ => t,
    }
}

/// The tokens that the lexer gives for a run of written tokens.
pub open spec fn lexed_all(f: Seq<Tok>) -> Seq<Tok> {
    Seq::new(f.len(), |j: int| lexed(f[j]))
}

/// Whether `x` is a token that a written right-hand side may hold: a mark, a
/// literal, or a name whose word is lexed as a name and which the statement
/// splitter hands on as it was written.
pub open spec fn handed_on(x: Tok) -> bool {
    match x {
        Tok::Chip(_) => qualify(head_word(x)) == x && name_word(head_word(x)),
        Tok::ChipIO(_, _) => qualify(head_word(x)) == x && name_word(head_word(x)),
        Tok::Input(w) => name_word(w),
        Tok::True => true,
        Tok::False => true,
        Tok::LParen => true,
        Tok::RParen => true,
        Tok::Comma => true,
        _ => false,
    }
}

/// Every token of a written tree is handed on by the statement splitter.
pub proof fn lemma_flat_handed_on(t: Tok)
    requires
        writable(t),
    ensures
        forall|j: int| 0 <= j < flat(t).len() ==> handed_on(#[trigger] flat(t)[j]),
    decreases t, 0nat,
{
    match t {
        Tok::Expression(parts) => {
            let fa = flat_args(parts, parts.len());
            let f = flat(t);
            lemma_flat_args_handed_on(parts, parts.len());
            assert(f == seq![parts[0], Tok::LParen] + fa + seq![Tok::RParen]);
            assert forall|j: int| 0 <= j < f.len() implies handed_on(#[trigger] f[j]) by {
                if j == 0 {
                    assert(f[j] == parts[0]);
                } else if j == 1 {
                    assert(f[j] == Tok::LParen);
                } else if j < 2 + fa.len() {
                    assert(f[j] == fa[j - 2]);
                } else {
                    assert(f[j] == Tok::RParen);
                }
            }
        },
        _ => {},
    }
}

/// Every token of written arguments is handed on by the statement splitter.
pub proof fn lemma_flat_args_handed_on(parts: Seq<Tok>, k: nat)
    requires
        forall|j: int| 1 <= j < parts.len() ==> writable(#[trigger] parts[j]),
    ensures
        forall|j: int|
            0 <= j < flat_args(parts, k).len() ==> handed_on(#[trigger] flat_args(parts, k)[j]),
    decreases parts, k,
{
    if k <= 1 || k > parts.len() {
    } else if k == 2 {
        lemma_flat_handed_on(parts[1]);
    } else {
        let before = flat_args(parts, (k - 1) as nat);
        let last = flat(parts[k - 1]);
        let f = flat_args(parts, k);
        lemma_flat_args_handed_on(parts, (k - 1) as nat);
        lemma_flat_handed_on(parts[k - 1]);
        assert(f == before + seq![Tok::Comma] + last);
        assert forall|j: int| 0 <= j < f.len() implies handed_on(#[trigger] f[j]) by {
            if j < before.len() {
                assert(f[j] == before[j]);
            } else if j == before.len() {
                assert(f[j] == Tok::Comma);
            } else {
                assert(f[j] == last[j - before.len() - 1]);
            }
        }
    }
}

/// Whether `body` is a chip body that can be written back: output names
/// that are plain words or `=`, each followed by a tree that can be written back,
/// which is a call in every statement but the last.
pub open spec fn writable_body(body: Seq<Tok>) -> bool {
    &&& body.len() % 2 == 0
    &&& forall|i: int|
        0 <= i < body.len() && i % 2 == 0 ==> (#[trigger] body[i]) is Output && output_word(
            body[i]->Output_0,
        )
    &&& forall|i: int| 0 <= i < body.len() && i % 2 == 1 ==> writable(#[trigger] body[i])
    &&& forall|i: int|
        0 <= i < body.len() - 1 && i % 2 == 1 ==> (#[trigger] body[i]) is Expression
}

/// The flat tokens that the first `k` statements of a body are written as.
pub open spec fn flat_body(body: Seq<Tok>, k: nat) -> Seq<Tok>
    decreases k,
{
    if k == 0 || 2 * k > body.len() {
        Seq::empty()
    } else {
        flat_body(body, (k - 1) as nat) + seq![body[2 * k - 2], Tok::Assign] + flat(
            body[2 * k - 1],
        )
    }
}

/// The statements before an earlier place start those before a later.
pub proof fn lemma_body_prefix(body: Seq<Tok>, k: nat, m: nat)
    requires
        k <= m,
        2 * m <= body.len(),
    ensures
        flat_body(body, k).len() <= flat_body(body, m).len(),
        forall|j: int|
            0 <= j < flat_body(body, k).len() ==> flat_body(body, m)[j] == #[trigger] flat_body(
                body,
                k,
            )[j],
    decreases m,
{
    if k < m {
        lemma_body_prefix(body, k, (m - 1) as nat);
    }
}

/// The statement splitter gathers a written right-hand side whole.
pub proof fn lemma_split_run(tokens: Seq<Tok>, i: nat, f: Seq<Tok>, m: nat, st: SplitState)
    requires
        m <= f.len(),
        i + f.len() <= tokens.len(),
        forall|j: int| 0 <= j < f.len() ==> tokens[i + j] == lexed(#[trigger] f[j]),
        forall|j: int| 0 <= j < f.len() ==> handed_on(#[trigger] f[j]),
        split_prefix(tokens, i) == Ok::<SplitState, ParseError>(st),
    ensures
        split_prefix(tokens, i + m) == Ok::<SplitState, ParseError>(
            SplitState { run: st.run + f.take(m as int), ..st },
        ),
    decreases m,
{
    if m == 0 {
        assert(st.run + f.take(0) =~= st.run);
    } else {
        lemma_split_run(tokens, i, f, (m - 1) as nat, st);
        let x = f[m - 1];
        assert(tokens[i + (m - 1)] == lexed(x));
        assert(handed_on(x));
        assert((st.run + f.take(m - 1)).push(x) =~= st.run + f.take(m as int));
    }
}

/// After the first `k` statements of a written body, the splitter holds
/// what came before the last of them and has gathered its right-hand side.
pub proof fn lemma_split_body(body: Seq<Tok>, k: nat)
    requires
        writable_body(body),
        1 <= k,
        2 * k <= body.len(),
    ensures
        split_prefix(
            lexed_all(flat_body(body, (body.len() / 2) as nat)),
            flat_body(body, k).len(),
        ) == Ok::<SplitState, ParseError>(
            SplitState { out: body.take(2 * k - 1), run: flat(body[2 * k - 1]) },
        ),
    decreases k,
{
    let all = flat_body(body, (body.len() / 2) as nat);
    let tokens = lexed_all(all);
    let before = flat_body(body, (k - 1) as nat);
    let f = flat_body(body, k);
    let name = body[2 * k - 2];
    let tree = body[2 * k - 1];
    let rhs = flat(tree);
    assert(f == before + seq![name, Tok::Assign] + rhs);
    lemma_body_prefix(body, k, (body.len() / 2) as nat);
    assert forall|j: int| 0 <= j < f.len() implies tokens[j] == lexed(#[trigger] f[j]) by {
        assert(all[j] == f[j]);
    }
    let p = before.len() as int;
    assert(tokens[p] == name) by {
        assert(f[p] == name);
    }
    assert(tokens[p + 1] == Tok::Assign) by {
        assert(f[p + 1] == Tok::Assign);
    }
    let s0 = if k == 1 {
        SplitState { out: Seq::empty(), run: Seq::empty() }
    } else {
        SplitState { out: body.take(2 * k - 3), run: flat(body[2 * k - 3]) }
    };
    if k > 1 {
        lemma_split_body(body, (k - 1) as nat);
        lemma_group_flat(body[2 * k - 3]);
        assert(flat(body[2 * k - 3]).len() > 0);
        assert(body.take(2 * k - 3).push(body[2 * k - 3]).push(name) =~= body.take(2 * k - 1));
    } else {
        assert(Seq::<Tok>::empty().push(name) =~= body.take(1));
    }
    assert(split_prefix(tokens, p as nat) == Ok::<SplitState, ParseError>(s0));
    let s1 = SplitState { out: body.take(2 * k - 1), run: Seq::empty() };
    assert(split_prefix(tokens, (p + 1) as nat) == Ok::<SplitState, ParseError>(s1));
    assert(split_prefix(tokens, (p + 2) as nat) == Ok::<SplitState, ParseError>(s1));
    lemma_flat_handed_on(tree);
    assert forall|j: int| 0 <= j < rhs.len() implies tokens[p + 2 + j] == lexed(
        #[trigger] rhs[j],
    ) by {
        assert(f[p + 2 + j] == rhs[j]);
    }
    lemma_split_run(tokens, (p + 2) as nat, rhs, rhs.len(), s1);
    assert(s1.run + rhs.take(rhs.len() as int) =~= rhs);
}

/// A tree that can be written back is in normal form.
pub proof fn lemma_writable_is_normal(t: Tok)
    requires
        writable(t),
    ensures
        normal(t) == t,
    decreases t,
{
    match t {
        Tok::Expression(parts) => {
            assert forall|i: int| 0 <= i < parts.len() implies normal(parts[i])
                == #[trigger] parts[i] by {
                if i >= 1 {
                    lemma_writable_is_normal(parts[i]);
                }
            }
            assert(normal(t)->Expression_0 =~= parts);
        },
        _ => {},
    }
}

/// Writing a body back as flat tokens, as the lexer gives them, and
/// splitting, grouping and normalising those gives the body again.
pub proof fn lemma_statements_flat(body: Seq<Tok>)
    requires
        writable_body(body),
    ensures
        statements(lexed_all(flat_body(body, (body.len() / 2) as nat))) == Ok::<
            Seq<Tok>,
            ParseError,
        >(body),
        normalize(body) == body,
{
    let k = (body.len() / 2) as nat;
    let tokens = lexed_all(flat_body(body, k));
    if k == 0 {
        assert(tokens.len() == 0);
        assert(body =~= Seq::<Tok>::empty());
    } else {
        lemma_split_body(body, k);
        lemma_group_flat(body[2 * k - 1]);
        assert(body.take(2 * k - 1).push(body[2 * k - 1]) =~= body);
        assert(tokens.len() == flat_body(body, k).len());
    }
    assert forall|i: int| 0 <= i < body.len() implies normal(body[i]) == #[trigger] body[i] by {
        if i % 2 == 1 {
            lemma_writable_is_normal(body[i]);
        }
    }
    assert(normalize(body) =~= body);
}

/// The word that a flat token is written as.
pub open spec fn word_of(t: Tok) -> Seq<char> {
    match t {
        Tok::Chip(x) => x,
        Tok::ChipIO(n, o) => n + seq!['.'] + o,
        Tok::Input(x) => x,
        Tok::Output(x) => x,
        Tok::True => seq!['t', 'r', 'u', 'e'],
        Tok::False => seq!['f', 'a', 'l', 's', 'e'],
        Tok::Assign => seq!['='],
        Tok::LParen => seq!['('],
        Tok::RParen => seq![')'],
        Tok::Comma => seq![','],
        _ => Seq::empty(),
    }
}

/// The words that a run of flat tokens is written as.
pub open spec fn words_of(f: Seq<Tok>) -> Seq<Seq<char>> {
    Seq::new(f.len(), |j: int| word_of(f[j]))
}

/// Whether the words of the run `f` stand in `words` from place `i` on.
pub open spec fn words_at(words: Seq<Seq<char>>, i: int, f: Seq<Tok>) -> bool {
    &&& 0 <= i
    &&& i + f.len() <= words.len()
    &&& forall|j: int| 0 <= j < f.len() ==> words[i + j] == word_of(#[trigger] f[j])
}

/// A plain word is none of the punctuation words.
pub proof fn lemma_plain_is_no_mark(w: Seq<char>)
    requires
        plain_word(w),
    ensures
        w != seq!['('],
        w != seq![')'],
        w != seq![','],
        w != seq!['='],
{
    assert(!is_punct(w[0]));
    assert(seq!['('][0] == '(');
    assert(seq![')'][0] == ')');
    assert(seq![','][0] == ',');
    assert(seq!['='][0] == '=');
}

/// The punctuation words differ from each other.
pub proof fn lemma_marks_differ()
    ensures
        seq!['('] != seq![')'],
        seq![','] != seq![')'],
        seq![','] != seq!['('],
        seq!['='] != seq!['('],
        seq!['='] != seq![')'],
        seq!['='] != seq![','],
{
    assert(seq!['('][0] == '(');
    assert(seq![')'][0] == ')');
    assert(seq![','][0] == ',');
    assert(seq!['='][0] == '=');
}

/// The words of the literals are plain words that are lexed as the literals.
pub proof fn lemma_literal_words()
    ensures
        plain_word(word_of(Tok::True)),
        plain_word(word_of(Tok::False)),
        classify(word_of(Tok::True)) == Tok::True,
        classify(word_of(Tok::False)) == Tok::False,
{
    let t = seq!['t', 'r', 'u', 'e'];
    let f = seq!['f', 'a', 'l', 's', 'e'];
    assert(t.len() == 4 && t[0] == 't' && t[1] == 'r' && t[2] == 'u' && t[3] == 'e');
    assert(f.len() == 5 && f[0] == 'f' && f[1] == 'a' && f[2] == 'l' && f[3] == 's' && f[4]
        == 'e');
    assert(seq!['1'].len() == 1);
    assert(seq!['0'].len() == 1);
}

/// The lexer reads the words of a written tree as the tokens of that tree,
/// and ends the statement after a call that began it.
pub proof fn lemma_lex_tree(words: Seq<Seq<char>>, i: nat, a: Tok, st: LexState)
    requires
        writable(a),
        words_at(words, i as int, flat(a)),
        lex_prefix(words, i) == Ok::<LexState, ParseError>(st),
        st.phase is Rhs,
        st.depth >= 0,
    ensures
        lex_prefix(words, i + flat(a).len()) == Ok::<LexState, ParseError>(
            LexState {
                tokens: st.tokens + lexed_all(flat(a)),
                phase: if a is Expression && st.depth == 0 {
                    Phase::Output
                } else {
                    Phase::Rhs
                },
                depth: st.depth,
            },
        ),
    decreases a, 0nat,
{
    let f = flat(a);
    lemma_literal_words();
    lemma_marks_differ();
    match a {
        Tok::Expression(parts) => {
            let fa = flat_args(parts, parts.len());
            let w = head_word(parts[0]);
            assert(f == seq![parts[0], Tok::LParen] + fa + seq![Tok::RParen]);
            assert(f.len() == fa.len() + 3);
            assert(words[i as int + 0] == word_of(f[0]));
            assert(words[i as int + 1] == word_of(f[1]));
            assert(words[i as int + (2 + fa.len())] == word_of(f[2 + fa.len() as int]));
            lemma_plain_is_no_mark(w);
            let s1 = LexState { tokens: st.tokens.push(Tok::Input(w)), ..st };
            assert(lex_prefix(words, i + 1) == lex_step(st, w, i as usize));
            assert(lex_prefix(words, i + 1) == Ok::<LexState, ParseError>(s1));
            let s2 = LexState {
                tokens: st.tokens.push(Tok::Chip(w)).push(Tok::LParen),
                phase: Phase::Rhs,
                depth: st.depth + 1,
            };
            assert(s1.tokens.last() == Tok::Input(w));
            assert(s1.tokens.drop_last() =~= st.tokens);
            assert(lex_prefix(words, i + 2) == lex_step(s1, seq!['('], (i + 1) as usize));
            assert(lex_prefix(words, i + 2) == Ok::<LexState, ParseError>(s2));
            assert(words_at(words, i as int + 2, fa)) by {
                assert forall|j: int| 0 <= j < fa.len() implies words[i as int + 2 + j] == word_of(
                    #[trigger] fa[j],
                ) by {
                    assert(words[i as int + (2 + j)] == word_of(f[2 + j]));
                }
            }
            lemma_lex_args(words, i + 2, parts, parts.len(), s2);
            let s3 = LexState { tokens: s2.tokens + lexed_all(fa), ..s2 };
            assert(lex_prefix(words, i + 2 + fa.len()) == Ok::<LexState, ParseError>(s3));
            let s4 = LexState {
                tokens: s3.tokens.push(Tok::RParen),
                phase: if st.depth == 0 {
                    Phase::Output
                } else {
                    Phase::Rhs
                },
                depth: st.depth,
            };
            assert(lex_prefix(words, i + 2 + fa.len() + 1) == lex_step(
                s3,
                seq![')'],
                (i + 2 + fa.len()) as usize,
            ));
            assert(lex_prefix(words, i + 2 + fa.len() + 1) == Ok::<LexState, ParseError>(s4));
            assert(s4.tokens =~= st.tokens + lexed_all(f));
        },
        _ => {
            assert(f.len() == 1);
            let w = word_of(f[0]);
            assert(words[i as int + 0] == w);
            assert(plain_word(w));
            lemma_plain_is_no_mark(w);
            assert(lex_prefix(words, i + 1) == lex_step(st, w, i as usize));
            assert(classify(w) == lexed(f[0]));
            assert(st.tokens.push(lexed(f[0])) =~= st.tokens + lexed_all(f));
        },
    }
}

/// The lexer reads the words of written arguments as their tokens.
pub proof fn lemma_lex_args(words: Seq<Seq<char>>, i: nat, parts: Seq<Tok>, k: nat, st: LexState)
    requires
        1 <= k <= parts.len(),
        forall|j: int| 1 <= j < parts.len() ==> writable(#[trigger] parts[j]),
        words_at(words, i as int, flat_args(parts, k)),
        lex_prefix(words, i) == Ok::<LexState, ParseError>(st),
        st.phase is Rhs,
        st.depth >= 1,
    ensures
        lex_prefix(words, i + flat_args(parts, k).len()) == Ok::<LexState, ParseError>(
            LexState { tokens: st.tokens + lexed_all(flat_args(parts, k)), ..st },
        ),
    decreases parts, k,
{
    let f = flat_args(parts, k);
    lemma_marks_differ();
    if k == 1 {
        assert(st.tokens + lexed_all(f) =~= st.tokens);
    } else if k == 2 {
        lemma_lex_tree(words, i, parts[1], st);
    } else {
        let before = flat_args(parts, (k - 1) as nat);
        let last = flat(parts[k - 1]);
        assert(f == before + seq![Tok::Comma] + last);
        assert(words_at(words, i as int, before)) by {
            assert forall|j: int| 0 <= j < before.len() implies words[i as int + j] == word_of(
                #[trigger] before[j],
            ) by {
                assert(words[i as int + j] == word_of(f[j]));
            }
        }
        lemma_lex_args(words, i, parts, (k - 1) as nat, st);
        let s1 = LexState { tokens: st.tokens + lexed_all(before), ..st };
        assert(words[i as int + before.len()] == word_of(f[before.len() as int]));
        let s2 = LexState { tokens: s1.tokens.push(Tok::Comma), ..st };
        assert(lex_prefix(words, i + before.len() + 1) == lex_step(
            s1,
            seq![','],
            (i + before.len()) as usize,
        ));
        assert(lex_prefix(words, i + before.len() + 1) == Ok::<LexState, ParseError>(s2));
        assert(words_at(words, (i + before.len() + 1) as int, last)) by {
            assert forall|j: int| 0 <= j < last.len() implies words[i + before.len() + 1 + j]
                == word_of(#[trigger] last[j]) by {
                assert(words[i as int + (before.len() + 1 + j)] == word_of(
                    f[before.len() + 1 + j],
                ));
            }
        }
        lemma_lex_tree(words, i + before.len() + 1, parts[k - 1], s2);
        assert(s2.tokens + lexed_all(last) =~= st.tokens + lexed_all(f));
    }
}

/// The lexer reads the words of the first `k` statements of a written body
/// as their tokens.
pub proof fn lemma_lex_body(body: Seq<Tok>, k: nat)
    requires
        writable_body(body),
        2 * k <= body.len(),
    ensures
        lex_prefix(
            words_of(flat_body(body, (body.len() / 2) as nat)),
            flat_body(body, k).len(),
        ) == Ok::<LexState, ParseError>(
            LexState {
                tokens: lexed_all(flat_body(body, k)),
                phase: if k == 0 || body[2 * k - 1] is Expression {
                    Phase::Output
                } else {
                    Phase::Rhs
                },
                depth: 0,
            },
        ),
    decreases k,
{
    let all = flat_body(body, (body.len() / 2) as nat);
    let words = words_of(all);
    let f = flat_body(body, k);
    if k == 0 {
        assert(lexed_all(f) =~= Seq::<Tok>::empty());
    } else {
        let before = flat_body(body, (k - 1) as nat);
        let name = body[2 * k - 2];
        let tree = body[2 * k - 1];
        let rhs = flat(tree);
        assert(f == before + seq![name, Tok::Assign] + rhs);
        lemma_body_prefix(body, k, (body.len() / 2) as nat);
        assert forall|j: int| 0 <= j < f.len() implies words[j] == word_of(#[trigger] f[j]) by {
            assert(all[j] == f[j]);
        }
        let p = before.len() as int;
        lemma_lex_body(body, (k - 1) as nat);
        if k > 1 {
            assert(body[2 * k - 3] is Expression);
        }
        let s0 = LexState { tokens: lexed_all(before), phase: Phase::Output, depth: 0 };
        assert(lex_prefix(words, p as nat) == Ok::<LexState, ParseError>(s0));
        let w = name->Output_0;
        assert(words[p] == w) by {
            assert(f[p] == name);
        }
        assert(words[p + 1] == seq!['=']) by {
            assert(f[p + 1] == Tok::Assign);
        }
        if plain_word(w) {
            lemma_plain_is_no_mark(w);
        } else {
            lemma_marks_differ();
        }
        let s1 = LexState { tokens: s0.tokens.push(name), phase: Phase::AssignOp, depth: 0 };
        assert(lex_prefix(words, (p + 1) as nat) == lex_step(s0, w, p as usize));
        assert(lex_prefix(words, (p + 1) as nat) == Ok::<LexState, ParseError>(s1));
        let s2 = LexState { tokens: s1.tokens.push(Tok::Assign), phase: Phase::Rhs, depth: 0 };
        assert(lex_prefix(words, (p + 2) as nat) == lex_step(s1, seq!['='], (p + 1) as usize));
        assert(lex_prefix(words, (p + 2) as nat) == Ok::<LexState, ParseError>(s2));
        assert(words_at(words, p + 2, rhs)) by {
            assert forall|j: int| 0 <= j < rhs.len() implies words[p + 2 + j] == word_of(
                #[trigger] rhs[j],
            ) by {
                assert(f[p + 2 + j] == rhs[j]);
            }
        }
        lemma_lex_tree(words, (p + 2) as nat, tree, s2);
        assert(s2.tokens + lexed_all(rhs) =~= lexed_all(f));
    }
}

/// Writing a body back as words and lexing those gives the flat tokens of
/// the body, as the lexer writes them.
pub proof fn lemma_lex_flat(body: Seq<Tok>)
    requires
        writable_body(body),
    ensures
        lex_spec(words_of(flat_body(body, (body.len() / 2) as nat))) == Ok::<
            Seq<Tok>,
            ParseError,
        >(lexed_all(flat_body(body, (body.len() / 2) as nat))),
{
    lemma_lex_body(body, (body.len() / 2) as nat);
}

/// Whether `w` is a punctuation word.
pub open spec fn is_mark(w: Seq<char>) -> bool {
    w.len() == 1 && is_punct(w[0])
}

/// The text that the first `n` words are written as: the words side by
/// side.
pub open spec fn text_of(words: Seq<Seq<char>>, n: nat) -> Seq<char>
    decreases n,
{
    if n == 0 || n > words.len() {
        Seq::empty()
    } else {
        text_of(words, (n - 1) as nat) + words[n - 1]
    }
}

/// Whether the words can be written side by side: each is a punctuation
/// word or a plain word, and of two neighbours one is a punctuation word.
pub open spec fn tight_words(words: Seq<Seq<char>>) -> bool {
    &&& forall|i: int|
        0 <= i < words.len() ==> is_mark(#[trigger] words[i]) || plain_word(words[i])
    &&& forall|i: int|
        0 <= i < words.len() - 1 ==> is_mark(#[trigger] words[i]) || is_mark(words[i + 1])
}

/// The text of fewer words starts the text of more.
pub proof fn lemma_text_prefix(words: Seq<Seq<char>>, n: nat, m: nat)
    requires
        n <= m <= words.len(),
    ensures
        text_of(words, n).len() <= text_of(words, m).len(),
        forall|j: int|
            0 <= j < text_of(words, n).len() ==> text_of(words, m)[j] == #[trigger] text_of(
                words,
                n,
            )[j],
    decreases m,
{
    if n < m {
        lemma_text_prefix(words, n, (m - 1) as nat);
    }
}

/// The scanner gathers a plain word that follows no other word whole.
pub proof fn lemma_scan_plain(s: Seq<char>, p: nat, w: Seq<char>, m: nat, done: Seq<Seq<char>>)
    requires
        plain_word(w),
        m <= w.len(),
        p + w.len() <= s.len(),
        forall|j: int| 0 <= j < w.len() ==> s[p + j] == #[trigger] w[j],
        scan_prefix(s, p) == (ScanState { words: done, word: Seq::empty(), in_comment: false }),
    ensures
        scan_prefix(s, p + m) == (ScanState {
            words: done,
            word: w.take(m as int),
            in_comment: false,
        }),
    decreases m,
{
    if m == 0 {
        assert(w.take(0) =~= Seq::<char>::empty());
    } else {
        lemma_scan_plain(s, p, w, (m - 1) as nat, done);
        let c = w[m - 1];
        assert(s[p + (m - 1)] == c);
        let grown = w.take(m - 1).push(c);
        assert(grown =~= w.take(m as int));
        if m >= 2 {
            assert(w.take(m - 1).last() == w[m - 2]);
            assert(!(w[m - 2] == '/' && w[m - 2 + 1] == '/'));
        }
        assert(scan_prefix(s, p + m) == scan_step(scan_prefix(s, (p + m - 1) as nat), c));
    }
}

/// After the text of the first `n` words, the scanner has completed them,
/// but for a plain word at the end, which it still gathers.
pub proof fn lemma_scan_text(words: Seq<Seq<char>>, n: nat)
    requires
        tight_words(words),
        n <= words.len(),
    ensures
        scan_prefix(text_of(words, words.len()), text_of(words, n).len()) == (if n > 0 && !is_mark(
            words[n - 1],
        ) {
            ScanState { words: words.take(n - 1), word: words[n - 1], in_comment: false }
        } else {
            ScanState { words: words.take(n as int), word: Seq::empty(), in_comment: false }
        }),
    decreases n,
{
    let s = text_of(words, words.len());
    if n == 0 {
        assert(words.take(0) =~= Seq::<Seq<char>>::empty());
    } else {
        let before = text_of(words, (n - 1) as nat);
        let w = words[n - 1];
        let t = text_of(words, n);
        let p = before.len();
        assert(t == before + w);
        lemma_text_prefix(words, n, words.len());
        assert forall|j: int| 0 <= j < w.len() implies s[p + j] == #[trigger] w[j] by {
            assert(s[p + j] == t[p + j]);
        }
        lemma_scan_text(words, (n - 1) as nat);
        let prev = scan_prefix(s, p);
        assert(is_mark(w) || plain_word(w));
        if is_mark(w) {
            let c = w[0];
            assert(s[p as int + 0] == c);
            assert(!is_space(c));
            assert(seq![c] =~= w);
            assert(flushed(prev) =~= words.take(n - 1)) by {
                if n > 1 && !is_mark(words[n - 2]) {
                    assert(plain_word(words[n - 2]));
                    assert(words.take(n - 2).push(words[n - 2]) =~= words.take(n - 1));
                }
            }
            assert(words.take(n - 1).push(w) =~= words.take(n as int));
            assert(scan_prefix(s, p + 1) == scan_step(prev, c));
        } else {
            if n > 1 {
                assert(is_mark(words[n - 2]) || is_mark(words[n - 2 + 1]));
            }
            lemma_scan_plain(s, p, w, w.len(), words.take(n - 1));
            assert(w.take(w.len() as int) =~= w);
        }
    }
}

/// Scanning words that are written side by side gives the words again.
pub proof fn lemma_scan_written(words: Seq<Seq<char>>)
    requires
        tight_words(words),
    ensures
        scan_words(text_of(words, words.len())) == words,
{
    let n = words.len();
    lemma_scan_text(words, n);
    if n > 0 && !is_mark(words[n - 1]) {
        assert(plain_word(words[n - 1]));
        assert(words.take(n - 1).push(words[n - 1]) =~= words);
    } else {
        assert(words.take(n as int) =~= words);
    }
}

/// Whether `x` is one of the four marks.
pub open spec fn mark_token(x: Tok) -> bool {
    x is Assign || x is LParen || x is RParen || x is Comma
}

/// Whether of two neighbours in `f` one is a mark.
pub open spec fn tight(f: Seq<Tok>) -> bool {
    forall|j: int| 0 <= j < f.len() - 1 ==> mark_token(#[trigger] f[j]) || mark_token(f[j + 1])
}

/// In a written tree one of two neighbours is a mark, and a written call
/// ends with a mark.
pub proof fn lemma_flat_tight(t: Tok)
    requires
        writable(t),
    ensures
        tight(flat(t)),
        flat(t).len() >= 1,
        t is Expression ==> mark_token(flat(t).last()),
    decreases t, 0nat,
{
    match t {
        Tok::Expression(parts) => {
            let fa = flat_args(parts, parts.len());
            let f = flat(t);
            lemma_flat_args_tight(parts, parts.len());
            assert(f == seq![parts[0], Tok::LParen] + fa + seq![Tok::RParen]);
            assert(f[1] == Tok::LParen);
            assert(f[2 + fa.len() as int] == Tok::RParen);
            assert forall|j: int| 0 <= j < f.len() - 1 implies mark_token(#[trigger] f[j])
                || mark_token(f[j + 1]) by {
                if j >= 2 && j + 1 < 2 + fa.len() {
                    assert(f[j] == fa[j - 2]);
                    assert(f[j + 1] == fa[j - 2 + 1]);
                }
            }
        },
        _ => {},
    }
}

/// In written arguments one of two neighbours is a mark.
pub proof fn lemma_flat_args_tight(parts: Seq<Tok>, k: nat)
    requires
        forall|j: int| 1 <= j < parts.len() ==> writable(#[trigger] parts[j]),
    ensures
        tight(flat_args(parts, k)),
    decreases parts, k,
{
    if k <= 1 || k > parts.len() {
    } else if k == 2 {
        lemma_flat_tight(parts[1]);
    } else {
        let before = flat_args(parts, (k - 1) as nat);
        let last = flat(parts[k - 1]);
        let f = flat_args(parts, k);
        lemma_flat_args_tight(parts, (k - 1) as nat);
        lemma_flat_tight(parts[k - 1]);
        assert(f == before + seq![Tok::Comma] + last);
        assert(f[before.len() as int] == Tok::Comma);
        assert forall|j: int| 0 <= j < f.len() - 1 implies mark_token(#[trigger] f[j])
            || mark_token(f[j + 1]) by {
            if j + 1 < before.len() {
                assert(f[j] == before[j]);
                assert(f[j + 1] == before[j + 1]);
            } else if j > before.len() {
                assert(f[j] == last[j - before.len() - 1]);
                assert(f[j + 1] == last[j - before.len() - 1 + 1]);
            }
        }
    }
}

/// In a written body one of two neighbours is a mark, every token is an
/// output name, `=`, or a token of a written tree, and the statements
/// before a later one end with a mark.
pub proof fn lemma_body_tight(body: Seq<Tok>, k: nat)
    requires
        writable_body(body),
        2 * k <= body.len(),
    ensures
        tight(flat_body(body, k)),
        forall|j: int|
            0 <= j < flat_body(body, k).len() ==> {
                let x = #[trigger] flat_body(body, k)[j];
                handed_on(x) || x is Assign || (x is Output && output_word(x->Output_0))
            },
        k >= 1 && body[2 * k - 1] is Expression ==> flat_body(body, k).len() >= 1 && mark_token(
            flat_body(body, k).last(),
        ),
    decreases k,
{
    if k > 0 {
        let before = flat_body(body, (k - 1) as nat);
        let name = body[2 * k - 2];
        let tree = body[2 * k - 1];
        let rhs = flat(tree);
        let f = flat_body(body, k);
        lemma_body_tight(body, (k - 1) as nat);
        lemma_flat_tight(tree);
        lemma_flat_handed_on(tree);
        assert(f == before + seq![name, Tok::Assign] + rhs);
        let p = before.len() as int;
        assert(f[p] == name);
        assert(f[p + 1] == Tok::Assign);
        if k > 1 {
            assert(body[2 * k - 3] is Expression);
        }
        assert forall|j: int| 0 <= j < f.len() - 1 implies mark_token(#[trigger] f[j])
            || mark_token(f[j + 1]) by {
            if j + 1 < p {
                assert(f[j] == before[j]);
                assert(f[j + 1] == before[j + 1]);
            } else if j + 1 == p {
                assert(f[j] == before.last());
            } else if j >= p + 2 {
                assert(f[j] == rhs[j - p - 2]);
                assert(f[j + 1] == rhs[j - p - 2 + 1]);
            }
        }
        assert forall|j: int| 0 <= j < f.len() implies {
            let x = #[trigger] f[j];
            handed_on(x) || x is Assign || (x is Output && output_word(x->Output_0))
        } by {
            if j < p {
                assert(f[j] == before[j]);
            } else if j >= p + 2 {
                assert(f[j] == rhs[j - p - 2]);
            }
        }
        if tree is Expression {
            assert(f.last() == rhs.last());
        }
    }
}

/// The text that a body is written as: the words of its flat tokens side by
/// side.
pub open spec fn written_body(body: Seq<Tok>) -> Seq<char> {
    let words = words_of(flat_body(body, (body.len() / 2) as nat));
    text_of(words, words.len())
}

/// Round trip: writing a body back as text and parsing the text gives the
/// body again, for every body that can be written back.
pub proof fn lemma_parse_written(body: Seq<Tok>)
    requires
        writable_body(body),
    ensures
        parse_spec(written_body(body)) == Ok::<Seq<Tok>, ParseError>(body),
{
    let k = (body.len() / 2) as nat;
    let f = flat_body(body, k);
    let words = words_of(f);
    lemma_body_tight(body, k);
    lemma_literal_words();
    assert(tight_words(words)) by {
        assert forall|i: int| 0 <= i < words.len() implies is_mark(#[trigger] words[i])
            || plain_word(words[i]) by {
            let x = f[i];
            assert(handed_on(x) || x is Assign || (x is Output && output_word(x->Output_0)));
            lemma_token_word(x);
        }
        assert forall|i: int| 0 <= i < words.len() - 1 implies is_mark(#[trigger] words[i])
            || is_mark(words[i + 1]) by {
            assert(mark_token(f[i]) || mark_token(f[i + 1]));
            lemma_token_word(Tok::Assign);
            lemma_token_word(Tok::LParen);
            lemma_token_word(Tok::RParen);
            lemma_token_word(Tok::Comma);
        }
    }
    lemma_scan_written(words);
    lemma_lex_flat(body);
    lemma_statements_flat(body);
}

/// Round trip of a source text: where a text parses into a body that can be
/// written back, writing that body and parsing what was written gives the
/// same body.
pub proof fn lemma_round_trip(code: Seq<char>)
    requires
        parse_spec(code) is Ok,
        writable_body(parse_spec(code)->Ok_0),
    ensures
        parse_spec(written_body(parse_spec(code)->Ok_0)) == parse_spec(code),
{
    lemma_parse_written(parse_spec(code)->Ok_0);
}

/// The word of a mark is a punctuation word; the word of any other written
/// token is a plain word or, for an output name, the word `=`.
pub proof fn lemma_token_word(x: Tok)
    requires
        handed_on(x) || x is Assign || (x is Output && output_word(x->Output_0)),
    ensures
        mark_token(x) ==> is_mark(word_of(x)),
        is_mark(word_of(x)) || plain_word(word_of(x)),
{
    lemma_literal_words();
    assert(seq!['='][0] == '=');
    assert(seq!['('][0] == '(');
    assert(seq![')'][0] == ')');
    assert(seq![','][0] == ',');
}

/// Where `c` does not occur from place `i` on, the search ends at the length.
pub proof fn lemma_first_from_absent(s: Seq<char>, c: char, i: int)
    requires
        0 <= i <= s.len(),
        forall|j: int| i <= j < s.len() ==> s[j] != c,
    ensures
        first_from(s, c, i) == s.len(),
    decreases s.len() - i,
{
    if i < s.len() {
        lemma_first_from_absent(s, c, i + 1);
    }
}

/// Where `c` stands at place `k` and nowhere between `i` and `k`, the search
/// from `i` ends at `k`.
pub proof fn lemma_first_from_found(s: Seq<char>, c: char, i: int, k: int)
    requires
        0 <= i <= k < s.len(),
        s[k] == c,
        forall|j: int| i <= j < k ==> s[j] != c,
    ensures
        first_from(s, c, i) == k,
    decreases k - i,
{
    if i < k {
        lemma_first_from_found(s, c, i + 1, k);
    }
}

/// Two parts joined by `c` split again at that `c`, where the first part
/// does not hold `c`.
pub proof fn lemma_split_joined(a: Seq<char>, c: char, b: Seq<char>)
    requires
        forall|j: int| 0 <= j < a.len() ==> a[j] != c,
    ensures
        first_index(a + seq![c] + b, c) == a.len(),
        before(a + seq![c] + b, c) == a,
        after(a + seq![c] + b, c) == b,
{
    let s = a + seq![c] + b;
    assert(s[a.len() as int] == c);
    assert forall|j: int| 0 <= j < a.len() implies s[j] != c by {
        assert(s[j] == a[j]);
    }
    lemma_first_from_found(s, c, 0, a.len() as int);
    assert(s.subrange(0, a.len() as int) =~= a);
    assert(s.subrange(a.len() as int + 1, s.len() as int) =~= b);
}

/// A binding whose parameter and source hold no colon reads back from its
/// written name.
pub proof fn lemma_binding_written(p: Seq<char>, s: Seq<char>)
    requires
        forall|j: int| 0 <= j < p.len() ==> p[j] != ':',
        forall|j: int| 0 <= j < s.len() ==> s[j] != ':',
    ensures
        binding(written(p, s)) == Tok::IO(p, s),
{
    lemma_split_joined(p, ':', s);
    lemma_first_from_absent(s, ':', 0);
    assert(s.subrange(0, s.len() as int) =~= s);
}

/// A chip name without a dot reads back as the chip, and a chip without a
/// dot, qualified by an output, reads back as that qualified head.
pub proof fn lemma_head_written(n: Seq<char>, o: Seq<char>)
    requires
        forall|j: int| 0 <= j < n.len() ==> n[j] != '.',
    ensures
        qualify(head_word(Tok::Chip(n))) == Tok::Chip(n),
        qualify(head_word(Tok::ChipIO(n, o))) == Tok::ChipIO(n, o),
{
    lemma_first_from_absent(n, '.', 0);
    lemma_split_joined(n, '.', o);
}

/// The word that a flat token is written as.
pub fn token_word(t: &Token) -> (r: String)
    ensures
        r@ == word_of(t@),
{
    proof {
        reveal_strlit(".");
        reveal_strlit("true");
        reveal_strlit("false");
        reveal_strlit("=");
        reveal_strlit("(");
        reveal_strlit(")");
        reveal_strlit(",");
    }
    match t {
        Token::Chip(x) => x.clone(),
        Token::ChipIO(n, o) => {
            let mut r = n.clone();
            r.append(".");
            r.append(o.as_str());
            assert(r@ =~= n@ + seq!['.'] + o@);
            r
        },
        Token::Input(x) => x.clone(),
        Token::Output(x) => x.clone(),
        Token::True => {
            let r = String::from_str("true");
            assert(r@ =~= seq!['t', 'r', 'u', 'e']);
            r
        },
        Token::False => {
            let r = String::from_str("false");
            assert(r@ =~= seq!['f', 'a', 'l', 's', 'e']);
            r
        },
        Token::Assign => {
            let r = String::from_str("=");
            assert(r@ =~= seq!['=']);
            r
        },
        Token::LParen => {
            let r = String::from_str("(");
            assert(r@ =~= seq!['(']);
            r
        },
        Token::RParen => {
            let r = String::from_str(")");
            assert(r@ =~= seq![')']);
            r
        },
        Token::Comma => {
            let r = String::from_str(",");
            assert(r@ =~= seq![',']);
            r
        },
        _ => String::new(),
    }
}

/// Appends the flat tokens that the tree `t` is written as.
pub fn flatten_into(t: &Token, out: &mut Vec<Token>)
    ensures
        toks(final(out)@) == toks(old(out)@) + flat(t@),
    decreases t,
{
    let ghost start = toks(out@);
    match t {
        Token::IO(p, s) => {
            proof {
                reveal_strlit(":");
            }
            let mut x = p.clone();
            x.append(":");
            x.append(s.as_str());
            assert(x@ =~= written(p@, s@));
            out.push(Token::Input(x));
            assert(toks(out@) =~= start + flat(t@));
        },
        Token::Expression(parts) => {
            assert(t@->Expression_0 =~= toks(parts@));
            if parts.len() == 0 {
                let c = clone_token(t);
                out.push(c);
                assert(toks(out@) =~= start + flat(t@));
                return ;
            }
            let ghost ps = toks(parts@);
            out.push(clone_token(&parts[0]));
            out.push(Token::LParen);
            assert(toks(out@) =~= start + seq![ps[0], Tok::LParen] + flat_args(ps, 1));
            let mut k: usize = 1;
            while k < parts.len()
                invariant
                    1 <= k <= parts.len(),
                    t is Expression,
                    t->Expression_0 == *parts,
                    ps == toks(parts@),
                    toks(out@) == start + seq![ps[0], Tok::LParen] + flat_args(ps, k as nat),
                decreases parts.len() - k,
            {
                let ghost so_far = toks(out@);
                if k > 1 {
                    out.push(Token::Comma);
                }
                let ghost mid = toks(out@);
                assert(mid =~= if k > 1 {
                    so_far.push(Tok::Comma)
                } else {
                    so_far
                });
                assert(ps[k as int] == parts[k as int]@);
                flatten_into(&parts[k], out);
                assert(toks(out@) =~= start + seq![ps[0], Tok::LParen] + flat_args(
                    ps,
                    (k + 1) as nat,
                ));
                k += 1;
            }
            let ghost so_far = toks(out@);
            out.push(Token::RParen);
            assert(toks(out@) =~= so_far.push(Tok::RParen));
            assert(toks(out@) =~= start + flat(t@));
        },
        _ => {
            let c = clone_token(t);
            out.push(c);
            assert(toks(out@) =~= start + flat(t@));
        },
    }
}

/// Writes a chip body back as source text: for each statement the output
/// name, `=` and the tree of the right-hand side, with nothing between the
/// words.
pub fn write_body(body: &Vec<Token>) -> (text: String)
    ensures
        text@ == written_body(toks(body@)),
{
    let ghost b = toks(body@);
    let count = body.len() / 2;
    let mut tokens: Vec<Token> = Vec::new();
    let mut k: usize = 0;
    assert(toks(tokens@) =~= flat_body(b, 0));
    while k < count
        invariant
            k <= count,
            count == body.len() / 2,
            b == toks(body@),
            toks(tokens@) == flat_body(b, k as nat),
        decreases count - k,
    {
        let ghost so_far = toks(tokens@);
        let name = clone_token(&body[2 * k]);
        tokens.push(name);
        tokens.push(Token::Assign);
        assert(toks(tokens@) =~= so_far + seq![b[2 * k as int], Tok::Assign]);
        flatten_into(&body[2 * k + 1], &mut tokens);
        assert(b[2 * k as int + 1] == body[2 * k as int + 1]@);
        k += 1;
    }
    let ghost words = words_of(toks(tokens@));
    let mut text = String::new();
    let mut i: usize = 0;
    assert(text@ =~= text_of(words, 0));
    while i < tokens.len()
        invariant
            i <= tokens.len(),
            words == words_of(toks(tokens@)),
            text@ == text_of(words, i as nat),
        decreases tokens.len() - i,
    {
        let w = token_word(&tokens[i]);
        assert(words[i as int] == w@);
        text.append(w.as_str());
        i += 1;
    }
    text
}

} // verus!
