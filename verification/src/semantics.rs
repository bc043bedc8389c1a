//! The mathematical model of the language.
//!
//! Every spec function here works on the remaining, unconsumed suffix of the
//! program text (a `Seq<char>`) and on a model of the register file (a
//! `Seq<Seq<char>>` of fixed length). A successful parse step returns what it
//! computed together with the suffix it left unconsumed; a failed one returns
//! the fault that aborts the whole run.

use vstd::prelude::*;

verus! {

/// Number of slots in the register file.
pub const REG_COUNT: usize = 32;

/// The faults that abort a run. There is no recovery and no partial result:
/// the first fault ends the interpretation of the whole program.
#[derive(Clone, Copy, Debug, PartialEq, Eq, Structural)]
pub enum Fault {
    /// An expected character was not next, the source ran out in the middle
    /// of an instruction, or an unrecognized sigil was met.
    SyntaxError,
    /// A non-digit appeared while collecting a numeral, the numeral was
    /// empty, or its value does not fit the machine word.
    MalformedNumber,
    /// A register index resolved outside the valid slot range: zero, or
    /// above [`REG_COUNT`].
    IndexError,
}

/// The register file at the start of a run: all slots hold the empty string.
pub open spec fn init_regs() -> Seq<Seq<char>> {
    Seq::new(REG_COUNT as nat, |i: int| Seq::<char>::empty())
}

/// A 1-based index that resolves to a slot of the register file.
pub open spec fn valid_index(n: int) -> bool {
    1 <= n && n <= REG_COUNT as int
}

pub open spec fn is_digit(c: char) -> bool {
    '0' as u32 <= c as u32 && c as u32 <= '9' as u32
}

pub open spec fn digit_val(c: char) -> int {
    c as u32 - '0' as u32
}

/// One step of numeral accumulation: a further digit multiplies the value so
/// far by ten and adds its own value.
pub open spec fn acc_step(acc: int, c: char) -> int {
    10 * acc + digit_val(c)
}

/// Collect digits from the front of `s` up to `term`, folding them into
/// `acc`. The terminator is left unconsumed. Running out of source is a
/// structural fault; a non-digit, or a value that no longer fits the machine
/// word, is a malformed numeral.
pub open spec fn collect_digits(s: Seq<char>, term: char, acc: int) -> Result<
    (int, Seq<char>),
    Fault,
>
    decreases s.len(),
{
    if s.len() == 0 {
        Err(Fault::SyntaxError)
    } else if s[0] == term {
        Ok((acc, s))
    } else if !is_digit(s[0]) {
        Err(Fault::MalformedNumber)
    } else if acc_step(acc, s[0]) > usize::MAX as int {
        Err(Fault::MalformedNumber)
    } else {
        collect_digits(s.skip(1), term, acc_step(acc, s[0]))
    }
}

/// A numeral terminated by `term`: one digit or more, folded to its value.
/// An empty digit run is malformed.
pub open spec fn parse_number(s: Seq<char>, term: char) -> Result<(int, Seq<char>), Fault> {
    if s.len() > 0 && s[0] == term {
        Err(Fault::MalformedNumber)
    } else {
        collect_digits(s, term, 0)
    }
}

/// Collect arbitrary characters from the front of `s` up to `term`, which is
/// left unconsumed. Used for the quoted payload of an assignment.
pub open spec fn collect_value(s: Seq<char>, term: char) -> Result<(Seq<char>, Seq<char>), Fault>
    decreases s.len(),
{
    if s.len() == 0 {
        Err(Fault::SyntaxError)
    } else if s[0] == term {
        Ok((Seq::empty(), s))
    } else {
        match collect_value(s.skip(1), term) {
            Ok(p) => Ok((seq![s[0]] + p.0, p.1)),
            Err(e) => Err(e),
        }
    }
}

/// Where no terminator occurs at all, collection runs off the end of the
/// source, a structural fault.
pub proof fn lemma_collect_value_no_term(s: Seq<char>, term: char)
    requires
        forall|i: int| 0 <= i < s.len() ==> s[i] != term,
    ensures
        collect_value(s, term) == Err::<(Seq<char>, Seq<char>), Fault>(Fault::SyntaxError),
    decreases s.len(),
{
    if s.len() > 0 {
        lemma_collect_value_no_term(s.skip(1), term);
    }
}

/// Collection up to the first occurrence of the terminator yields exactly
/// the prefix before it, and leaves the terminator unconsumed.
pub proof fn lemma_collect_value_prefix(s: Seq<char>, term: char, k: int)
    requires
        0 <= k < s.len(),
        s[k] == term,
        forall|i: int| 0 <= i < k ==> s[i] != term,
    ensures
        collect_value(s, term) == Ok::<(Seq<char>, Seq<char>), Fault>((s.take(k), s.skip(k))),
    decreases k,
{
    if k == 0 {
        assert(s.take(0) =~= Seq::<char>::empty());
        assert(s.skip(0) =~= s);
    } else {
        lemma_collect_value_prefix(s.skip(1), term, k - 1);
        assert(seq![s[0]] + s.skip(1).take(k - 1) =~= s.take(k));
        assert(s.skip(1).skip(k - 1) =~= s.skip(k));
    }
}

/// Require `c` to be the next character and consume it.
pub open spec fn expect_char(s: Seq<char>, c: char) -> Result<Seq<char>, Fault> {
    if s.len() > 0 && s[0] == c {
        Ok(s.skip(1))
    } else {
        Err(Fault::SyntaxError)
    }
}

/// Drop the already-dispatched sigil unconditionally, then require `c` next.
pub open spec fn consume_pair(s: Seq<char>, c: char) -> Result<Seq<char>, Fault> {
    if s.len() == 0 {
        Err(Fault::SyntaxError)
    } else {
        expect_char(s.skip(1), c)
    }
}

/// The assignment instruction `=[<digits>]"<chars>"`, dispatched on `=`.
/// On success the collected payload replaces the indexed slot's value.
pub open spec fn step_assign(regs: Seq<Seq<char>>, s: Seq<char>) -> Result<
    (Seq<Seq<char>>, Seq<char>),
    Fault,
> {
    match consume_pair(s, '[') {
        Err(e) => Err(e),
        Ok(s1) => match parse_number(s1, ']') {
            Err(e) => Err(e),
            Ok((n, s2)) => match expect_char(s2, ']') {
                Err(e) => Err(e),
                Ok(s3) => match expect_char(s3, '"') {
                    Err(e) => Err(e),
                    Ok(s4) => match collect_value(s4, '"') {
                        Err(e) => Err(e),
                        Ok((v, s5)) => match expect_char(s5, '"') {
                            Err(e) => Err(e),
                            Ok(s6) => if valid_index(n) {
                                Ok((regs.update(n - 1, v), s6))
                            } else {
                                Err(Fault::IndexError)
                            },
                        },
                    },
                },
            },
        },
    }
}

/// The print instruction `#<<digits>>`, dispatched on `#`. On success the
/// indexed slot's current value is the output chunk.
pub open spec fn step_print(regs: Seq<Seq<char>>, s: Seq<char>) -> Result<
    (Seq<char>, Seq<char>),
    Fault,
> {
    match consume_pair(s, '<') {
        Err(e) => Err(e),
        Ok(s1) => match parse_number(s1, '>') {
            Err(e) => Err(e),
            Ok((n, s2)) => match expect_char(s2, '>') {
                Err(e) => Err(e),
                Ok(s3) => if valid_index(n) {
                    Ok((regs[n - 1], s3))
                } else {
                    Err(Fault::IndexError)
                },
            },
        },
    }
}

/// The register read `#[<digits>]>` inside a loop body, dispatched on `#`.
/// On success the indexed slot's current value is the captured body output.
pub open spec fn step_reg_access(regs: Seq<Seq<char>>, s: Seq<char>) -> Result<
    (Seq<char>, Seq<char>),
    Fault,
> {
    match consume_pair(s, '[') {
        Err(e) => Err(e),
        Ok(s1) => match parse_number(s1, ']') {
            Err(e) => Err(e),
            Ok((n, s2)) => match expect_char(s2, ']') {
                Err(e) => Err(e),
                Ok(s3) => match expect_char(s3, '>') {
                    Err(e) => Err(e),
                    Ok(s4) => if valid_index(n) {
                        Ok((regs[n - 1], s4))
                    } else {
                        Err(Fault::IndexError)
                    },
                },
            },
        },
    }
}

/// The loop body, read exactly once: a run of register reads up to the
/// closing `]`, which is left unconsumed. Each read replaces the captured
/// output; any other sigil is fatal. The cursor shrinks at every step, so a
/// step that failed to consume anything would itself be a parser fault.
pub open spec fn run_body(regs: Seq<Seq<char>>, s: Seq<char>, out: Seq<char>) -> Result<
    (Seq<char>, Seq<char>),
    Fault,
>
    decreases s.len(),
{
    if s.len() == 0 {
        Err(Fault::SyntaxError)
    } else if s[0] == ']' {
        Ok((out, s))
    } else if s[0] == '#' {
        match step_reg_access(regs, s) {
            Err(e) => Err(e),
            Ok((chunk, rest)) => if rest.len() < s.len() {
                run_body(regs, rest, chunk)
            } else {
                Err(Fault::SyntaxError)
            },
        }
    } else {
        Err(Fault::SyntaxError)
    }
}

/// The bracketed register reference of the loop's count position:
/// `[<digits>]`, the closing bracket consumed. The numeral between the
/// brackets is the value; it is not a dereference of a register.
pub open spec fn get_reg_spec(s: Seq<char>) -> Result<(int, Seq<char>), Fault> {
    match expect_char(s, '[') {
        Err(e) => Err(e),
        Ok(s1) => match parse_number(s1, ']') {
            Err(e) => Err(e),
            Ok((n, s2)) => match expect_char(s2, ']') {
                Err(e) => Err(e),
                Ok(s3) => Ok((n, s3)),
            },
        },
    }
}

/// The loop's repeat count: either a bracketed numeral `[<digits>]` or a
/// literal digit run, each followed by the closing `>`.
pub open spec fn parse_count(s: Seq<char>) -> Result<(int, Seq<char>), Fault> {
    if s.len() == 0 {
        Err(Fault::SyntaxError)
    } else if s[0] == '[' {
        match get_reg_spec(s) {
            Err(e) => Err(e),
            Ok((n, s1)) => match expect_char(s1, '>') {
                Err(e) => Err(e),
                Ok(s2) => Ok((n, s2)),
            },
        }
    } else {
        match parse_number(s, '>') {
            Err(e) => Err(e),
            Ok((n, s1)) => match expect_char(s1, '>') {
                Err(e) => Err(e),
                Ok(s2) => Ok((n, s2)),
            },
        }
    }
}

/// `s` repeated `n` times, the empty sequence for a count of zero or less.
pub open spec fn repeat_seq(s: Seq<char>, n: int) -> Seq<char>
    decreases n,
{
    if n <= 0 {
        Seq::empty()
    } else {
        s + repeat_seq(s, n - 1)
    }
}

/// Repetition can be grown one copy at a time from either side.
pub proof fn lemma_repeat_snoc(s: Seq<char>, n: int)
    requires
        0 <= n,
    ensures
        repeat_seq(s, n + 1) == repeat_seq(s, n) + s,
    decreases n,
{
    if n == 0 {
        assert(s + Seq::<char>::empty() =~= Seq::<char>::empty() + s);
    } else {
        lemma_repeat_snoc(s, n - 1);
        assert(s + (repeat_seq(s, n - 1) + s) =~= (s + repeat_seq(s, n - 1)) + s);
    }
}

/// The loop instruction `<[<body>]<<count>>`, dispatched on `<`. On success
/// the output chunk is the captured body output replayed count-many times.
pub open spec fn step_loop(regs: Seq<Seq<char>>, s: Seq<char>) -> Result<
    (Seq<char>, Seq<char>),
    Fault,
> {
    match consume_pair(s, '[') {
        Err(e) => Err(e),
        Ok(s1) => match run_body(regs, s1, Seq::empty()) {
            Err(e) => Err(e),
            Ok((body, s2)) => match expect_char(s2, ']') {
                Err(e) => Err(e),
                Ok(s3) => match expect_char(s3, '<') {
                    Err(e) => Err(e),
                    Ok(s4) => match parse_count(s4) {
                        Err(e) => Err(e),
                        Ok((n, s5)) => Ok((repeat_seq(body, n), s5)),
                    },
                },
            },
        },
    }
}

/// A whole run: dispatch on the leading sigil until the source is exhausted,
/// threading the register file and appending each instruction's output to
/// `out`. The cursor shrinks at every step, so a step that failed to consume
/// anything would itself be a parser fault.
pub open spec fn run_program(regs: Seq<Seq<char>>, s: Seq<char>, out: Seq<char>) -> Result<
    Seq<char>,
    Fault,
>
    decreases s.len(),
{
    if s.len() == 0 {
        Ok(out)
    } else if s[0] == '=' {
        match step_assign(regs, s) {
            Err(e) => Err(e),
            Ok((regs2, rest)) => if rest.len() < s.len() {
                run_program(regs2, rest, out)
            } else {
                Err(Fault::SyntaxError)
            },
        }
    } else if s[0] == '#' {
        match step_print(regs, s) {
            Err(e) => Err(e),
            Ok((chunk, rest)) => if rest.len() < s.len() {
                run_program(regs, rest, out + chunk)
            } else {
                Err(Fault::SyntaxError)
            },
        }
    } else if s[0] == '<' {
        match step_loop(regs, s) {
            Err(e) => Err(e),
            Ok((chunk, rest)) => if rest.len() < s.len() {
                run_program(regs, rest, out + chunk)
            } else {
                Err(Fault::SyntaxError)
            },
        }
    } else {
        Err(Fault::SyntaxError)
    }
}

/// The register file a run leaves behind. It advances exactly with the
/// instructions that succeed: at the first fault — or on an unrecognized
/// sigil, which consumes nothing — the file stands as the previous
/// instruction left it, the offending instruction having written nothing.
pub open spec fn run_regs(regs: Seq<Seq<char>>, s: Seq<char>) -> Seq<Seq<char>>
    decreases s.len(),
{
    if s.len() == 0 {
        regs
    } else if s[0] == '=' {
        match step_assign(regs, s) {
            Err(_) => regs,
            Ok((regs2, rest)) => if rest.len() < s.len() {
                run_regs(regs2, rest)
            } else {
                regs
            },
        }
    } else if s[0] == '#' {
        match step_print(regs, s) {
            Err(_) => regs,
            Ok((chunk, rest)) => if rest.len() < s.len() {
                run_regs(regs, rest)
            } else {
                regs
            },
        }
    } else if s[0] == '<' {
        match step_loop(regs, s) {
            Err(_) => regs,
            Ok((chunk, rest)) => if rest.len() < s.len() {
                run_regs(regs, rest)
            } else {
                regs
            },
        }
    } else {
        regs
    }
}

} // verus!
