//! General properties of the language, stated and proved against the
//! spec-level semantics of [`crate::semantics`].

use crate::semantics::{
    acc_step, collect_digits, consume_pair, expect_char, is_digit, parse_count, parse_number,
    repeat_seq, run_body, run_program, run_regs, step_assign, step_loop, step_print,
    step_reg_access, valid_index, Fault, REG_COUNT,
};
use vstd::prelude::*;

verus! {

/// The value of a digit run, most significant digit first.
pub open spec fn numeral_val(d: Seq<char>) -> int {
    fold_digits(0, d)
}

/// Digit folding with an explicit accumulator, as the collector performs it.
pub open spec fn fold_digits(acc: int, d: Seq<char>) -> int
    decreases d.len(),
{
    if d.len() == 0 {
        acc
    } else {
        fold_digits(acc_step(acc, d[0]), d.skip(1))
    }
}

/// A well-formed digit run: non-empty and made of decimal digits only.
pub open spec fn digits_wf(d: Seq<char>) -> bool {
    d.len() > 0 && (forall|i: int| 0 <= i < d.len() ==> is_digit(d[i]))
}

/// Folding digits onto a non-negative accumulator never shrinks it.
proof fn lemma_fold_digits_lower(acc: int, d: Seq<char>)
    requires
        0 <= acc,
        forall|i: int| 0 <= i < d.len() ==> is_digit(d[i]),
    ensures
        acc <= fold_digits(acc, d),
    decreases d.len(),
{
    if d.len() > 0 {
        assert(is_digit(d[0]));
        assert(forall|i: int| 0 <= i < d.skip(1).len() ==> is_digit(#[trigger] d.skip(1)[i]));
        lemma_fold_digits_lower(acc_step(acc, d[0]), d.skip(1));
    }
}

/// Collecting a pure digit run that ends at its terminator folds it into
/// its numeric value and leaves the terminator unconsumed.
proof fn lemma_collect_digits_run(d: Seq<char>, term: char, rest: Seq<char>, acc: int)
    requires
        forall|i: int| 0 <= i < d.len() ==> is_digit(d[i]),
        rest.len() > 0,
        rest[0] == term,
        !is_digit(term),
        0 <= acc,
        fold_digits(acc, d) <= usize::MAX as int,
    ensures
        collect_digits(d + rest, term, acc) == Ok::<(int, Seq<char>), Fault>(
            (fold_digits(acc, d), rest),
        ),
    decreases d.len(),
{
    if d.len() == 0 {
        assert(d + rest =~= rest);
    } else {
        let s = d + rest;
        assert(s[0] == d[0]);
        assert(is_digit(d[0]));
        assert(forall|i: int| 0 <= i < d.skip(1).len() ==> is_digit(#[trigger] d.skip(1)[i]));
        lemma_fold_digits_lower(acc_step(acc, d[0]), d.skip(1));
        assert(s.skip(1) =~= d.skip(1) + rest);
        lemma_collect_digits_run(d.skip(1), term, rest, acc_step(acc, d[0]));
    }
}

/// A well-formed numeral followed by its terminator parses to its value.
pub proof fn lemma_parse_number_run(d: Seq<char>, term: char, rest: Seq<char>)
    requires
        digits_wf(d),
        numeral_val(d) <= usize::MAX as int,
        rest.len() > 0,
        rest[0] == term,
        !is_digit(term),
    ensures
        parse_number(d + rest, term) == Ok::<(int, Seq<char>), Fault>((numeral_val(d), rest)),
{
    assert((d + rest)[0] == d[0]);
    lemma_collect_digits_run(d, term, rest, 0);
}

/// The program text of an assignment instruction.
pub open spec fn render_assign(d: Seq<char>, v: Seq<char>) -> Seq<char> {
    seq!['=', '['] + d + seq![']', '"'] + v + seq!['"']
}

/// The program text of a print instruction.
pub open spec fn render_print(d: Seq<char>) -> Seq<char> {
    seq!['#', '<'] + d + seq!['>']
}

/// The program text of a register read inside a loop body.
pub open spec fn render_access(d: Seq<char>) -> Seq<char> {
    seq!['#', '['] + d + seq![']', '>']
}

/// What a well-formed assignment instruction does, for every index its
/// numeral can denote: a valid index replaces exactly that slot's value
/// with the quoted payload; an index of zero or above the register count is
/// a fatal IndexError, and no slot is written.
pub proof fn lemma_step_assign_render(
    regs: Seq<Seq<char>>,
    d: Seq<char>,
    v: Seq<char>,
    tail: Seq<char>,
)
    requires
        digits_wf(d),
        numeral_val(d) <= usize::MAX as int,
        forall|i: int| 0 <= i < v.len() ==> v[i] != '"',
    ensures
        step_assign(regs, render_assign(d, v) + tail) == (if valid_index(numeral_val(d)) {
            Ok::<(Seq<Seq<char>>, Seq<char>), Fault>((regs.update(numeral_val(d) - 1, v), tail))
        } else {
            Err(Fault::IndexError)
        }),
{
    let s = render_assign(d, v) + tail;
    let r1 = seq![']', '"'] + v + seq!['"'] + tail;
    assert(s.skip(1).skip(1) =~= d + r1);
    assert(s.skip(1)[0] == '[');
    assert(consume_pair(s, '[') == Ok::<Seq<char>, Fault>(d + r1));
    lemma_parse_number_run(d, ']', r1);
    let r2 = seq!['"'] + v + seq!['"'] + tail;
    assert(r1.skip(1) =~= r2);
    assert(expect_char(r1, ']') == Ok::<Seq<char>, Fault>(r2));
    let r3 = v + (seq!['"'] + tail);
    assert(r2.skip(1) =~= r3);
    assert(expect_char(r2, '"') == Ok::<Seq<char>, Fault>(r3));
    assert(r3[v.len() as int] == '"');
    assert(forall|i: int| 0 <= i < v.len() ==> r3[i] == v[i]);
    crate::semantics::lemma_collect_value_prefix(r3, '"', v.len() as int);
    assert(r3.take(v.len() as int) =~= v);
    assert(r3.skip(v.len() as int) =~= seq!['"'] + tail);
    assert((seq!['"'] + tail).skip(1) =~= tail);
    assert(expect_char(seq!['"'] + tail, '"') == Ok::<Seq<char>, Fault>(tail));
}

/// What a well-formed print instruction does, for every index its numeral
/// can denote: a valid index emits exactly that slot's current value; an
/// index of zero or above the register count is a fatal IndexError, and
/// nothing is emitted.
pub proof fn lemma_step_print_render(regs: Seq<Seq<char>>, d: Seq<char>, tail: Seq<char>)
    requires
        digits_wf(d),
        numeral_val(d) <= usize::MAX as int,
    ensures
        step_print(regs, render_print(d) + tail) == (if valid_index(numeral_val(d)) {
            Ok::<(Seq<char>, Seq<char>), Fault>((regs[numeral_val(d) - 1], tail))
        } else {
            Err(Fault::IndexError)
        }),
{
    let s = render_print(d) + tail;
    let r1 = seq!['>'] + tail;
    assert(s.skip(1).skip(1) =~= d + r1);
    assert(s.skip(1)[0] == '<');
    assert(consume_pair(s, '<') == Ok::<Seq<char>, Fault>(d + r1));
    lemma_parse_number_run(d, '>', r1);
    assert(r1.skip(1) =~= tail);
    assert(expect_char(r1, '>') == Ok::<Seq<char>, Fault>(tail));
}

/// What a well-formed register read inside a loop body does, for every
/// index its numeral can denote: a valid index captures exactly that slot's
/// current value; any other index is a fatal IndexError.
pub proof fn lemma_step_reg_access_render(regs: Seq<Seq<char>>, d: Seq<char>, tail: Seq<char>)
    requires
        digits_wf(d),
        numeral_val(d) <= usize::MAX as int,
    ensures
        step_reg_access(regs, render_access(d) + tail) == (if valid_index(numeral_val(d)) {
            Ok::<(Seq<char>, Seq<char>), Fault>((regs[numeral_val(d) - 1], tail))
        } else {
            Err(Fault::IndexError)
        }),
{
    let s = render_access(d) + tail;
    let r1 = seq![']', '>'] + tail;
    assert(s.skip(1).skip(1) =~= d + r1);
    assert(s.skip(1)[0] == '[');
    assert(consume_pair(s, '[') == Ok::<Seq<char>, Fault>(d + r1));
    lemma_parse_number_run(d, ']', r1);
    let r2 = seq!['>'] + tail;
    assert(r1.skip(1) =~= r2);
    assert(expect_char(r1, ']') == Ok::<Seq<char>, Fault>(r2));
    assert(r2.skip(1) =~= tail);
    assert(expect_char(r2, '>') == Ok::<Seq<char>, Fault>(tail));
}

/// The two repeat-count forms of the loop agree: the bracketed reference
/// `[<digits>]` and the bare literal digit run denote the same numeral and
/// leave the same unconsumed tail, so a loop behaves identically under
/// either form of the same numeral. The bracketed form is a direct numeral,
/// not a dereference of a register.
pub proof fn lemma_count_forms_agree(d: Seq<char>, tail: Seq<char>)
    requires
        digits_wf(d),
        numeral_val(d) <= usize::MAX as int,
    ensures
        parse_count(seq!['['] + d + seq![']'] + seq!['>'] + tail) == Ok::<(int, Seq<char>), Fault>(
            (numeral_val(d), tail),
        ),
        parse_count(d + seq!['>'] + tail) == Ok::<(int, Seq<char>), Fault>(
            (numeral_val(d), tail),
        ),
{
    // the bracketed form
    let s = seq!['['] + d + seq![']'] + seq!['>'] + tail;
    let r1 = seq![']'] + seq!['>'] + tail;
    assert(s[0] == '[');
    assert(s.skip(1) =~= d + r1);
    assert(expect_char(s, '[') == Ok::<Seq<char>, Fault>(d + r1));
    lemma_parse_number_run(d, ']', r1);
    let r2 = seq!['>'] + tail;
    assert(r1.skip(1) =~= r2);
    assert(expect_char(r1, ']') == Ok::<Seq<char>, Fault>(r2));
    assert(r2.skip(1) =~= tail);
    assert(expect_char(r2, '>') == Ok::<Seq<char>, Fault>(tail));
    // the literal form
    let t = d + seq!['>'] + tail;
    assert(t[0] == d[0]);
    assert(is_digit(d[0]));
    assert(t =~= d + r2);
    lemma_parse_number_run(d, '>', r2);
}

/// The program text of a loop over one register read, with a literal count.
pub open spec fn render_loop_lit(bd: Seq<char>, cd: Seq<char>) -> Seq<char> {
    seq!['<', '['] + render_access(bd) + seq![']', '<'] + cd + seq!['>']
}

/// The program text of the same loop with the bracketed count form.
pub open spec fn render_loop_br(bd: Seq<char>, cd: Seq<char>) -> Seq<char> {
    seq!['<', '['] + render_access(bd) + seq![']', '<', '['] + cd + seq![']', '>']
}

/// A loop replays its one captured body output exactly count-many times:
/// nothing at all for a count of zero, and the same output whether the
/// count is written as a literal numeral or in brackets.
pub proof fn lemma_step_loop_render(
    regs: Seq<Seq<char>>,
    bd: Seq<char>,
    cd: Seq<char>,
    tail: Seq<char>,
)
    requires
        digits_wf(bd),
        numeral_val(bd) <= usize::MAX as int,
        valid_index(numeral_val(bd)),
        digits_wf(cd),
        numeral_val(cd) <= usize::MAX as int,
    ensures
        step_loop(regs, render_loop_lit(bd, cd) + tail) == Ok::<(Seq<char>, Seq<char>), Fault>(
            (repeat_seq(regs[numeral_val(bd) - 1], numeral_val(cd)), tail),
        ),
        step_loop(regs, render_loop_br(bd, cd) + tail) == Ok::<(Seq<char>, Seq<char>), Fault>(
            (repeat_seq(regs[numeral_val(bd) - 1], numeral_val(cd)), tail),
        ),
{
    // both forms share the body segment; the tails differ in the count form
    let lit_count = cd + seq!['>'] + tail;
    let br_count = seq!['['] + cd + seq![']'] + seq!['>'] + tail;
    lemma_count_forms_agree(cd, tail);
    lemma_loop_half(regs, bd, lit_count);
    lemma_loop_half(regs, bd, br_count);
    let s_lit = render_loop_lit(bd, cd) + tail;
    let s_br = render_loop_br(bd, cd) + tail;
    assert(s_lit =~= seq!['<', '['] + render_access(bd) + seq![']', '<'] + lit_count);
    assert(s_br =~= seq!['<', '['] + render_access(bd) + seq![']', '<'] + br_count);
}

/// Whatever body text `b` a loop has captured as `out`, the rest of the
/// instruction depends on the count text only through the numeral it
/// denotes: the outcome is the capture replayed numeral-many times and the
/// count's own tail, whichever way the count is written.
pub proof fn lemma_loop_count_only(
    regs: Seq<Seq<char>>,
    b: Seq<char>,
    out: Seq<char>,
    count: Seq<char>,
)
    requires
        run_body(regs, b + (seq![']', '<'] + count), Seq::empty()) == Ok::<
            (Seq<char>, Seq<char>),
            Fault,
        >((out, seq![']', '<'] + count)),
    ensures
        step_loop(regs, seq!['<', '['] + (b + (seq![']', '<'] + count))) == (match parse_count(
            count,
        ) {
            Ok((n, rest)) => Ok::<(Seq<char>, Seq<char>), Fault>((repeat_seq(out, n), rest)),
            Err(e) => Err(e),
        }),
{
    let r1 = seq![']', '<'] + count;
    let s = seq!['<', '['] + (b + r1);
    assert(s.skip(1).skip(1) =~= b + r1);
    assert(s.skip(1)[0] == '[');
    assert(consume_pair(s, '[') == Ok::<Seq<char>, Fault>(b + r1));
    let r2 = seq!['<'] + count;
    assert(r1.skip(1) =~= r2);
    assert(expect_char(r1, ']') == Ok::<Seq<char>, Fault>(r2));
    assert(r2.skip(1) =~= count);
    assert(expect_char(r2, '<') == Ok::<Seq<char>, Fault>(count));
}

/// The shared front of a loop over one register read: its body parse
/// captures the read register's value.
proof fn lemma_loop_half(regs: Seq<Seq<char>>, bd: Seq<char>, count: Seq<char>)
    requires
        digits_wf(bd),
        numeral_val(bd) <= usize::MAX as int,
        valid_index(numeral_val(bd)),
    ensures
        step_loop(regs, seq!['<', '['] + render_access(bd) + seq![']', '<'] + count) == (
        match parse_count(count) {
            Ok((n, rest)) => Ok::<(Seq<char>, Seq<char>), Fault>(
                (repeat_seq(regs[numeral_val(bd) - 1], n), rest),
            ),
            Err(e) => Err(e),
        }),
{
    let b = render_access(bd);
    let r1 = seq![']', '<'] + count;
    lemma_step_reg_access_render(regs, bd, r1);
    let body = regs[numeral_val(bd) - 1];
    assert((b + r1)[0] == '#');
    assert(r1.len() < (b + r1).len());
    assert(r1[0] == ']');
    assert(run_body(regs, r1, body) == Ok::<(Seq<char>, Seq<char>), Fault>((body, r1)));
    assert(run_body(regs, b + r1, Seq::empty()) == Ok::<(Seq<char>, Seq<char>), Fault>(
        (body, r1),
    ));
    lemma_loop_count_only(regs, b, body, count);
    assert(seq!['<', '['] + render_access(bd) + seq![']', '<'] + count =~= seq!['<', '['] + (b
        + r1));
}

/// A loop body made of a run of register reads, one rendered after the
/// other.
pub open spec fn render_body(ds: Seq<Seq<char>>) -> Seq<char>
    decreases ds.len(),
{
    if ds.len() == 0 {
        Seq::empty()
    } else {
        render_access(ds[0]) + render_body(ds.skip(1))
    }
}

/// Every digit run of a body denotes a register slot.
pub open spec fn reads_wf(ds: Seq<Seq<char>>) -> bool {
    forall|i: int|
        0 <= i < ds.len() ==> digits_wf(#[trigger] ds[i]) && numeral_val(ds[i]) <= usize::MAX as int
            && valid_index(numeral_val(ds[i]))
}

/// What a run of reads captures: each read replaces the capture with its
/// register's value, so the last read wins — `out` where there is none.
pub open spec fn body_capture(regs: Seq<Seq<char>>, ds: Seq<Seq<char>>, out: Seq<char>) -> Seq<
    char,
>
    decreases ds.len(),
{
    if ds.len() == 0 {
        out
    } else {
        body_capture(regs, ds.skip(1), regs[numeral_val(ds[0]) - 1])
    }
}

/// Parsing a rendered run of reads captures exactly what the model says
/// and stops at the closing bracket that follows it.
proof fn lemma_run_body_renders(
    regs: Seq<Seq<char>>,
    ds: Seq<Seq<char>>,
    out: Seq<char>,
    r1: Seq<char>,
)
    requires
        reads_wf(ds),
        r1.len() > 0,
        r1[0] == ']',
    ensures
        run_body(regs, render_body(ds) + r1, out) == Ok::<(Seq<char>, Seq<char>), Fault>(
            (body_capture(regs, ds, out), r1),
        ),
    decreases ds.len(),
{
    if ds.len() == 0 {
        assert(render_body(ds) + r1 =~= r1);
    } else {
        let s = render_body(ds) + r1;
        let rest = render_body(ds.skip(1)) + r1;
        assert(reads_wf(ds.skip(1)));
        assert(digits_wf(ds[0]) && numeral_val(ds[0]) <= usize::MAX as int && valid_index(
            numeral_val(ds[0]),
        ));
        assert(s =~= render_access(ds[0]) + rest);
        lemma_step_reg_access_render(regs, ds[0], rest);
        assert(s[0] == '#');
        assert(rest.len() < s.len());
        lemma_run_body_renders(regs, ds.skip(1), regs[numeral_val(ds[0]) - 1], r1);
    }
}

/// A loop over any run of register reads behaves identically under the
/// literal and the bracketed count form of the same numeral: both replay
/// the same capture the same number of times and leave the same tail.
pub proof fn lemma_count_forms_same_loop(
    regs: Seq<Seq<char>>,
    ds: Seq<Seq<char>>,
    cd: Seq<char>,
    tail: Seq<char>,
)
    requires
        reads_wf(ds),
        digits_wf(cd),
        numeral_val(cd) <= usize::MAX as int,
    ensures
        step_loop(
            regs,
            seq!['<', '['] + (render_body(ds) + (seq![']', '<'] + (cd + seq!['>'] + tail))),
        ) == Ok::<(Seq<char>, Seq<char>), Fault>(
            (repeat_seq(body_capture(regs, ds, Seq::empty()), numeral_val(cd)), tail),
        ),
        step_loop(
            regs,
            seq!['<', '['] + (render_body(ds) + (seq![']', '<'] + (seq!['['] + cd + seq![']']
                + seq!['>'] + tail))),
        ) == Ok::<(Seq<char>, Seq<char>), Fault>(
            (repeat_seq(body_capture(regs, ds, Seq::empty()), numeral_val(cd)), tail),
        ),
{
    let capture = body_capture(regs, ds, Seq::empty());
    let lit = cd + seq!['>'] + tail;
    let br = seq!['['] + cd + seq![']'] + seq!['>'] + tail;
    lemma_count_forms_agree(cd, tail);
    lemma_run_body_renders(regs, ds, Seq::empty(), seq![']', '<'] + lit);
    lemma_loop_count_only(regs, render_body(ds), capture, lit);
    lemma_run_body_renders(regs, ds, Seq::empty(), seq![']', '<'] + br);
    lemma_loop_count_only(regs, render_body(ds), capture, br);
}

/// Replaying a capture `n` times yields output of exactly `n` times its
/// length.
pub proof fn lemma_repeat_len(s: Seq<char>, n: int)
    requires
        0 <= n,
    ensures
        repeat_seq(s, n).len() == n * s.len(),
    decreases n,
{
    if n > 0 {
        lemma_repeat_len(s, n - 1);
        assert(repeat_seq(s, n) == s + repeat_seq(s, n - 1));
        assert(repeat_seq(s, n).len() == s.len() + (n - 1) * s.len());
        assert(s.len() + (n - 1) * s.len() == n * s.len()) by (nonlinear_arith);
    } else {
        assert(n * s.len() == 0) by (nonlinear_arith)
            requires
                n == 0,
        ;
    }
}

/// A count of zero replays the captured body not at all.
pub proof fn lemma_repeat_zero(s: Seq<char>)
    ensures
        repeat_seq(s, 0) == Seq::<char>::empty(),
{
}

/// An abstract command of the assignment-and-read fragment: an assignment
/// of a payload to the register a numeral denotes, or a read of such a
/// register.
pub enum Cmd {
    Assign { digits: Seq<char>, value: Seq<char> },
    Read { digits: Seq<char> },
}

/// A well-formed command: its numeral denotes a register slot, and an
/// assignment's payload contains no quote, so that the quoted form renders
/// it faithfully.
pub open spec fn cmd_wf(c: Cmd) -> bool {
    match c {
        Cmd::Assign { digits, value } => digits_wf(digits) && valid_index(numeral_val(digits)) && (
        forall|i: int| 0 <= i < value.len() ==> value[i] != '"'),
        Cmd::Read { digits } => digits_wf(digits) && valid_index(numeral_val(digits)),
    }
}

pub open spec fn render_cmd(c: Cmd) -> Seq<char> {
    match c {
        Cmd::Assign { digits, value } => render_assign(digits, value),
        Cmd::Read { digits } => render_print(digits),
    }
}

pub open spec fn render_cmds(cs: Seq<Cmd>) -> Seq<char>
    decreases cs.len(),
{
    if cs.len() == 0 {
        Seq::empty()
    } else {
        render_cmd(cs[0]) + render_cmds(cs.skip(1))
    }
}

/// The register file after one command: an assignment replaces exactly the
/// slot its numeral denotes; a read changes nothing.
pub open spec fn model_step(regs: Seq<Seq<char>>, c: Cmd) -> Seq<Seq<char>> {
    match c {
        Cmd::Assign { digits, value } => regs.update(numeral_val(digits) - 1, value),
        Cmd::Read { .. } => regs,
    }
}

/// What one command prints: a read emits the current value of the slot its
/// numeral denotes — that is, the value most recently assigned to it, or
/// the empty string where none was; an assignment emits nothing.
pub open spec fn model_emit(regs: Seq<Seq<char>>, c: Cmd) -> Seq<char> {
    match c {
        Cmd::Assign { .. } => Seq::empty(),
        Cmd::Read { digits } => regs[numeral_val(digits) - 1],
    }
}

/// The whole output of a command list, threading the register file.
pub open spec fn model_out(regs: Seq<Seq<char>>, cs: Seq<Cmd>, out: Seq<char>) -> Seq<char>
    decreases cs.len(),
{
    if cs.len() == 0 {
        out
    } else {
        model_out(model_step(regs, cs[0]), cs.skip(1), out + model_emit(regs, cs[0]))
    }
}

/// The register file a command list leaves behind: each slot holds the
/// value of the last assignment to it, or its initial value where none
/// assigned to it.
pub open spec fn model_regs(regs: Seq<Seq<char>>, cs: Seq<Cmd>) -> Seq<Seq<char>>
    decreases cs.len(),
{
    if cs.len() == 0 {
        regs
    } else {
        model_regs(model_step(regs, cs[0]), cs.skip(1))
    }
}

/// For every program made solely of well-formed assignments and register
/// reads, the interpreter succeeds, and what it prints for each read is the
/// value most recently assigned to that register before the read (the
/// empty string where none was): its output is exactly that of the
/// last-write-wins register model, and the register file it leaves behind
/// holds, in each slot, the value of the last assignment to that slot.
pub proof fn lemma_assignments_then_reads(regs: Seq<Seq<char>>, cs: Seq<Cmd>, out: Seq<char>)
    requires
        forall|i: int| 0 <= i < cs.len() ==> cmd_wf(#[trigger] cs[i]),
    ensures
        run_program(regs, render_cmds(cs), out) == Ok::<Seq<char>, Fault>(model_out(regs, cs, out)),
        run_regs(regs, render_cmds(cs)) == model_regs(regs, cs),
    decreases cs.len(),
{
    if cs.len() > 0 {
        let c = cs[0];
        assert(cmd_wf(c));
        let s = render_cmds(cs);
        let tail = render_cmds(cs.skip(1));
        assert(forall|i: int| 0 <= i < cs.skip(1).len() ==> cmd_wf(#[trigger] cs.skip(1)[i]));
        assert(usize::MAX as int >= REG_COUNT as int);
        match c {
            Cmd::Assign { digits, value } => {
                assert(numeral_val(digits) <= usize::MAX as int);
                lemma_step_assign_render(regs, digits, value, tail);
                assert(s[0] == '=');
                lemma_assignments_then_reads(model_step(regs, c), cs.skip(1), out);
                assert(out + Seq::<char>::empty() =~= out);
                assert(model_out(regs, cs, out) == model_out(model_step(regs, c), cs.skip(1), out));
            },
            Cmd::Read { digits } => {
                assert(numeral_val(digits) <= usize::MAX as int);
                lemma_step_print_render(regs, digits, tail);
                assert(s[0] == '#');
                lemma_assignments_then_reads(regs, cs.skip(1), out + regs[numeral_val(digits) - 1]);
            },
        }
    }
}

/// An out-of-range register index — zero, or above the register count —
/// aborts the whole run with IndexError, whether it stands in an
/// assignment or in a print: no slot is ever written or read out of range.
pub proof fn lemma_index_fault_fatal(
    regs: Seq<Seq<char>>,
    d: Seq<char>,
    v: Seq<char>,
    tail: Seq<char>,
    out: Seq<char>,
)
    requires
        digits_wf(d),
        numeral_val(d) <= usize::MAX as int,
        !valid_index(numeral_val(d)),
        forall|i: int| 0 <= i < v.len() ==> v[i] != '"',
    ensures
        run_program(regs, render_assign(d, v) + tail, out) == Err::<Seq<char>, Fault>(
            Fault::IndexError,
        ),
        run_program(regs, render_print(d) + tail, out) == Err::<Seq<char>, Fault>(
            Fault::IndexError,
        ),
{
    lemma_step_assign_render(regs, d, v, tail);
    assert((render_assign(d, v) + tail)[0] == '=');
    lemma_step_print_render(regs, d, tail);
    assert((render_print(d) + tail)[0] == '#');
}

/// An out-of-range register index inside a loop body — zero, or above the
/// register count — aborts the loop instruction and the whole run with
/// IndexError: no out-of-range slot is ever read.
pub proof fn lemma_index_fault_in_loop(
    regs: Seq<Seq<char>>,
    d: Seq<char>,
    rest: Seq<char>,
    out: Seq<char>,
)
    requires
        digits_wf(d),
        numeral_val(d) <= usize::MAX as int,
        !valid_index(numeral_val(d)),
    ensures
        step_loop(regs, seq!['<', '['] + render_access(d) + rest) == Err::<
            (Seq<char>, Seq<char>),
            Fault,
        >(Fault::IndexError),
        run_program(regs, seq!['<', '['] + render_access(d) + rest, out) == Err::<
            Seq<char>,
            Fault,
        >(Fault::IndexError),
{
    let s = seq!['<', '['] + render_access(d) + rest;
    let b = render_access(d) + rest;
    assert(s.skip(1).skip(1) =~= b);
    assert(s.skip(1)[0] == '[');
    assert(consume_pair(s, '[') == Ok::<Seq<char>, Fault>(b));
    lemma_step_reg_access_render(regs, d, rest);
    assert(b[0] == '#');
    assert(s[0] == '<');
}

/// An unrecognized character at the head of a loop body aborts the loop
/// instruction and the whole run at once.
pub proof fn lemma_unrecognized_body_fatal(
    regs: Seq<Seq<char>>,
    rest: Seq<char>,
    out: Seq<char>,
)
    requires
        rest.len() > 0,
        rest[0] != ']',
        rest[0] != '#',
    ensures
        step_loop(regs, seq!['<', '['] + rest) == Err::<(Seq<char>, Seq<char>), Fault>(
            Fault::SyntaxError,
        ),
        run_program(regs, seq!['<', '['] + rest, out) == Err::<Seq<char>, Fault>(
            Fault::SyntaxError,
        ),
{
    let s = seq!['<', '['] + rest;
    assert(s.skip(1).skip(1) =~= rest);
    assert(s.skip(1)[0] == '[');
    assert(consume_pair(s, '[') == Ok::<Seq<char>, Fault>(rest));
    lemma_unrecognized_body_sigil(regs, rest, Seq::empty());
    assert(s[0] == '<');
}

/// An unrecognized leading character at top level aborts the run at once.
pub proof fn lemma_unrecognized_sigil(regs: Seq<Seq<char>>, s: Seq<char>, out: Seq<char>)
    requires
        s.len() > 0,
        s[0] != '=',
        s[0] != '#',
        s[0] != '<',
    ensures
        run_program(regs, s, out) == Err::<Seq<char>, Fault>(Fault::SyntaxError),
{
}

/// An unrecognized character inside a loop body is just as fatal.
pub proof fn lemma_unrecognized_body_sigil(regs: Seq<Seq<char>>, s: Seq<char>, out: Seq<char>)
    requires
        s.len() > 0,
        s[0] != ']',
        s[0] != '#',
    ensures
        run_body(regs, s, out) == Err::<(Seq<char>, Seq<char>), Fault>(Fault::SyntaxError),
{
}

/// A non-digit met while collecting a numeral, before its terminator, is a
/// malformed numeral whatever follows it.
proof fn lemma_malformed_collect(s: Seq<char>, term: char, acc: int, k: int)
    requires
        0 <= acc,
        0 <= k < s.len(),
        forall|i: int| 0 <= i < k ==> is_digit(#[trigger] s[i]) && s[i] != term,
        !is_digit(s[k]),
        s[k] != term,
    ensures
        collect_digits(s, term, acc) == Err::<(int, Seq<char>), Fault>(Fault::MalformedNumber),
    decreases k,
{
    if k > 0 {
        assert(is_digit(s[0]) && s[0] != term);
        if acc_step(acc, s[0]) <= usize::MAX as int {
            assert(forall|i: int|
                0 <= i < k - 1 ==> is_digit(#[trigger] s.skip(1)[i]) && s.skip(1)[i] != term);
            assert(s.skip(1)[k - 1] == s[k]);
            lemma_malformed_collect(s.skip(1), term, acc_step(acc, s[0]), k - 1);
        }
    }
}

/// A numeral holding a non-digit before its terminator is malformed and
/// aborts the instruction, whatever follows it.
pub proof fn lemma_malformed_numeral(s: Seq<char>, term: char, k: int)
    requires
        0 <= k < s.len(),
        forall|i: int| 0 <= i < k ==> is_digit(#[trigger] s[i]) && s[i] != term,
        !is_digit(s[k]),
        s[k] != term,
    ensures
        parse_number(s, term) == Err::<(int, Seq<char>), Fault>(Fault::MalformedNumber),
{
    lemma_malformed_collect(s, term, 0, k);
}

} // verus!
