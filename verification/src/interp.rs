//! The executable interpreter: a single-pass parser/executor over the
//! program text, proved to return exactly what [`crate::semantics`]
//! prescribes.

use crate::semantics::{
    collect_value, consume_pair, expect_char, get_reg_spec, init_regs, parse_number, repeat_seq,
    run_body, run_program, run_regs, step_assign, step_loop, step_print, step_reg_access, Fault,
    REG_COUNT,
};
use vstd::prelude::*;
use vstd::string::StrSliceExecFns;
use vstd::string::StringExecFns;

verus! {

/// The interpreter: a fixed-size register file of string-valued slots and a
/// cursor into the program text. The text itself never changes; the cursor
/// position only grows, so the remaining input only shrinks.
pub struct Interpreter {
    register: Vec<String>,
    src: String,
    pos: usize,
}

impl Interpreter {
    /// The remaining, unconsumed suffix of the program text.
    pub closed spec fn remaining(&self) -> Seq<char> {
        self.src@.skip(self.pos as int)
    }

    /// The register file as a sequence of character sequences.
    pub closed spec fn regs(&self) -> Seq<Seq<char>> {
        self.register@.map_values(|s: String| s@)
    }

    /// Well-formedness: the cursor lies within the text and the register
    /// file has exactly [`REG_COUNT`] slots.
    pub closed spec fn wf(&self) -> bool {
        &&& self.pos <= self.src@.len()
        &&& self.register@.len() == REG_COUNT
    }

    /// A fresh interpreter over `input`: every register empty, the cursor at
    /// the start. The `size` argument is accepted for interface stability;
    /// the register file always has [`REG_COUNT`] slots.
    #[allow(unused_variables)]
    pub fn new(size: usize, input: &str) -> (r: Self)
        ensures
            r.wf(),
            r.regs() == init_regs(),
            r.remaining() == input@,
    {
        let mut register: Vec<String> = Vec::new();
        let mut i: usize = 0;
        while i < REG_COUNT
            invariant
                i <= REG_COUNT,
                register@.len() == i,
                forall|k: int| 0 <= k < i ==> #[trigger] register@[k]@ == Seq::<char>::empty(),
            decreases REG_COUNT - i,
        {
            register.push(String::new());
            i = i + 1;
        }
        let r = Interpreter { register, src: input.to_owned(), pos: 0 };
        proof {
            assert(r.regs() =~= init_regs());
            assert(r.remaining() =~= input@);
        }
        r
    }

    /// The next unconsumed character, if any. Consumes nothing.
    fn peek(&self) -> (r: Option<char>)
        requires
            self.wf(),
        ensures
            (match r {
                Some(c) => self.remaining().len() > 0 && c == self.remaining()[0],
                None => self.remaining().len() == 0,
            }),
    {
        let n: usize = self.src.as_str().unicode_len();
        if self.pos < n {
            Some(self.src.as_str().get_char(self.pos))
        } else {
            None
        }
    }

    /// If the next character equals `c`, consume it; otherwise fail.
    fn expect(&mut self, c: char) -> (r: Result<(), Fault>)
        requires
            old(self).wf(),
        ensures
            final(self).wf(),
            final(self).src@ == old(self).src@,
            final(self).register == old(self).register,
            (match r {
                Ok(_) => {
                    &&& expect_char(old(self).remaining(), c) == Ok::<Seq<char>, Fault>(
                        final(self).remaining(),
                    )
                    &&& final(self).remaining().len() < old(self).remaining().len()
                },
                Err(e) => *final(self) == *old(self) && expect_char(old(self).remaining(), c)
                    == Err::<Seq<char>, Fault>(e),
            }),
    {
        let n: usize = self.src.as_str().unicode_len();
        if self.pos < n {
            let ch = self.src.as_str().get_char(self.pos);
            if ch == c {
                self.pos = self.pos + 1;
                proof {
                    assert(self.remaining() =~= old(self).remaining().skip(1));
                }
                Ok(())
            } else {
                Err(Fault::SyntaxError)
            }
        } else {
            Err(Fault::SyntaxError)
        }
    }

    /// Drop the already-dispatched sigil unconditionally, then require `c`
    /// to follow it.
    fn consume(&mut self, c: char) -> (r: Result<(), Fault>)
        requires
            old(self).wf(),
        ensures
            final(self).wf(),
            final(self).src@ == old(self).src@,
            final(self).register == old(self).register,
            (match r {
                Ok(_) => {
                    &&& consume_pair(old(self).remaining(), c) == Ok::<Seq<char>, Fault>(
                        final(self).remaining(),
                    )
                    &&& final(self).remaining().len() < old(self).remaining().len()
                },
                Err(e) => {
                    &&& consume_pair(old(self).remaining(), c) == Err::<Seq<char>, Fault>(e)
                    &&& (if old(self).remaining().len() == 0 {
                        *final(self) == *old(self)
                    } else {
                        final(self).remaining() == old(self).remaining().skip(1)
                    })
                },
            }),
    {
        let n: usize = self.src.as_str().unicode_len();
        if self.pos < n {
            self.pos = self.pos + 1;
            proof {
                assert(self.remaining() =~= old(self).remaining().skip(1));
            }
            self.expect(c)
        } else {
            Err(Fault::SyntaxError)
        }
    }

    /// Collect a run of decimal digits up to `term` (left unconsumed),
    /// folded into its numeric value. One of the two shared primitives of
    /// the grammar: an empty run, a non-digit, or a value that does not fit
    /// the machine word is a malformed numeral.
    fn collect_digits_until(&mut self, term: char) -> (r: Result<usize, Fault>)
        requires
            old(self).wf(),
        ensures
            final(self).wf(),
            final(self).src@ == old(self).src@,
            final(self).register == old(self).register,
            final(self).remaining().len() <= old(self).remaining().len(),
            (match r {
                Ok(n) => parse_number(old(self).remaining(), term) == Ok::<(int, Seq<char>), Fault>(
                    (n as int, final(self).remaining()),
                ),
                Err(e) => parse_number(old(self).remaining(), term) == Err::<
                    (int, Seq<char>),
                    Fault,
                >(e),
            }),
    {
        let mut acc: usize = 0;
        let mut got: bool = false;
        loop
            invariant
                self.wf(),
                self.src@ == old(self).src@,
                self.register == old(self).register,
                old(self).pos <= self.pos,
                got ==> parse_number(old(self).remaining(), term) == crate::semantics::collect_digits(
                    self.remaining(),
                    term,
                    acc as int,
                ),
                !got ==> self.pos == old(self).pos && acc == 0,
            decreases self.src@.len() - self.pos,
        {
            let n: usize = self.src.as_str().unicode_len();
            if self.pos >= n {
                return Err(Fault::SyntaxError);
            }
            let c = self.src.as_str().get_char(self.pos);
            proof {
                assert(self.remaining()[0] == c);
            }
            if c == term {
                if got {
                    return Ok(acc);
                } else {
                    return Err(Fault::MalformedNumber);
                }
            }
            let u: u32 = c as u32;
            if !(48 <= u && u <= 57) {
                return Err(Fault::MalformedNumber);
            }
            let d: usize = (u - 48) as usize;
            let m: usize = match acc.checked_mul(10) {
                Some(m) => m,
                None => {
                    return Err(Fault::MalformedNumber);
                },
            };
            let a2: usize = match m.checked_add(d) {
                Some(a2) => a2,
                None => {
                    return Err(Fault::MalformedNumber);
                },
            };
            proof {
                let ghost prev = self.remaining();
                assert(crate::semantics::collect_digits(prev, term, acc as int)
                    == crate::semantics::collect_digits(prev.skip(1), term, a2 as int));
            }
            let ghost prev_rem = self.remaining();
            acc = a2;
            got = true;
            self.pos = self.pos + 1;
            proof {
                assert(self.remaining() =~= prev_rem.skip(1));
            }
        }
    }

    /// Collect arbitrary characters up to `term` (left unconsumed). The
    /// other shared primitive of the grammar, used for the quoted payload of
    /// an assignment.
    fn collect_until(&mut self, term: char) -> (r: Result<String, Fault>)
        requires
            old(self).wf(),
        ensures
            final(self).wf(),
            final(self).src@ == old(self).src@,
            final(self).register == old(self).register,
            final(self).remaining().len() <= old(self).remaining().len(),
            (match r {
                Ok(v) => collect_value(old(self).remaining(), term) == Ok::<
                    (Seq<char>, Seq<char>),
                    Fault,
                >((v@, final(self).remaining())),
                Err(e) => collect_value(old(self).remaining(), term) == Err::<
                    (Seq<char>, Seq<char>),
                    Fault,
                >(e),
            }),
    {
        let n: usize = self.src.as_str().unicode_len();
        let mut j: usize = self.pos;
        loop
            invariant
                self.wf(),
                n == self.src@.len(),
                self.pos <= j <= n,
                forall|i: int| self.pos <= i < j ==> self.src@[i] != term,
            ensures
                self.pos <= j < n,
                self.src@[j as int] == term,
                forall|i: int| self.pos <= i < j ==> self.src@[i] != term,
            decreases n - j,
        {
            if j >= n {
                proof {
                    crate::semantics::lemma_collect_value_no_term(self.remaining(), term);
                }
                return Err(Fault::SyntaxError);
            }
            let c = self.src.as_str().get_char(j);
            if c == term {
                break;
            }
            j = j + 1;
        }
        let v = self.src.as_str().substring_char(self.pos, j).to_owned();
        proof {
            let k: int = j - self.pos;
            crate::semantics::lemma_collect_value_prefix(self.remaining(), term, k as int);
            assert(v@ =~= self.remaining().take(k as int));
        }
        let ghost prev_rem = self.remaining();
        let ghost k: int = j - self.pos;
        self.pos = j;
        proof {
            assert(self.remaining() =~= prev_rem.skip(k));
        }
        Ok(v)
    }

    /// The assignment handler, dispatched on `=`: consumes
    /// `=[<digits>]"<chars>"` and writes the quoted payload into the
    /// indexed register slot.
    fn parse_assignment(&mut self) -> (r: Result<(), Fault>)
        requires
            old(self).wf(),
        ensures
            final(self).wf(),
            final(self).src@ == old(self).src@,
            final(self).remaining().len() <= old(self).remaining().len(),
            (match r {
                Ok(_) => {
                    &&& step_assign(old(self).regs(), old(self).remaining()) == Ok::<
                        (Seq<Seq<char>>, Seq<char>),
                        Fault,
                    >((final(self).regs(), final(self).remaining()))
                    &&& final(self).remaining().len() < old(self).remaining().len()
                },
                Err(e) => {
                    &&& step_assign(old(self).regs(), old(self).remaining()) == Err::<
                        (Seq<Seq<char>>, Seq<char>),
                        Fault,
                    >(e)
                    &&& final(self).register == old(self).register
                },
            }),
    {
        match self.consume('[') {
            Ok(_) => (),
            Err(e) => {
                return Err(e);
            },
        }
        let n: usize = match self.collect_digits_until(']') {
            Ok(n) => n,
            Err(e) => {
                return Err(e);
            },
        };
        match self.expect(']') {
            Ok(_) => (),
            Err(e) => {
                return Err(e);
            },
        }
        match self.expect('"') {
            Ok(_) => (),
            Err(e) => {
                return Err(e);
            },
        }
        let v = match self.collect_until('"') {
            Ok(v) => v,
            Err(e) => {
                return Err(e);
            },
        };
        match self.expect('"') {
            Ok(_) => (),
            Err(e) => {
                return Err(e);
            },
        }
        if 1 <= n && n <= REG_COUNT {
            let ghost old_regs = self.regs();
            self.register.set(n - 1, v);
            proof {
                assert(self.regs() =~= old_regs.update(n as int - 1, v@));
            }
            Ok(())
        } else {
            Err(Fault::IndexError)
        }
    }

    /// The print handler, dispatched on `#`: consumes `#<<digits>>` and
    /// returns the indexed register's current value as the output chunk.
    fn parse_stdout(&mut self) -> (r: Result<String, Fault>)
        requires
            old(self).wf(),
        ensures
            final(self).wf(),
            final(self).src@ == old(self).src@,
            final(self).register == old(self).register,
            final(self).remaining().len() <= old(self).remaining().len(),
            (match r {
                Ok(chunk) => {
                    &&& step_print(old(self).regs(), old(self).remaining()) == Ok::<
                        (Seq<char>, Seq<char>),
                        Fault,
                    >((chunk@, final(self).remaining()))
                    &&& final(self).remaining().len() < old(self).remaining().len()
                },
                Err(e) => step_print(old(self).regs(), old(self).remaining()) == Err::<
                    (Seq<char>, Seq<char>),
                    Fault,
                >(e),
            }),
    {
        match self.consume('<') {
            Ok(_) => (),
            Err(e) => {
                return Err(e);
            },
        }
        let n: usize = match self.collect_digits_until('>') {
            Ok(n) => n,
            Err(e) => {
                return Err(e);
            },
        };
        match self.expect('>') {
            Ok(_) => (),
            Err(e) => {
                return Err(e);
            },
        }
        if 1 <= n && n <= REG_COUNT {
            let chunk = self.register[n - 1].clone();
            proof {
                assert(chunk@ == self.regs()[n as int - 1]);
            }
            Ok(chunk)
        } else {
            Err(Fault::IndexError)
        }
    }

    /// The register read inside a loop body, dispatched on `#`: consumes
    /// `#[<digits>]>` and returns the indexed register's current value as
    /// the captured body output.
    fn parse_reg_access(&mut self) -> (r: Result<String, Fault>)
        requires
            old(self).wf(),
        ensures
            final(self).wf(),
            final(self).src@ == old(self).src@,
            final(self).register == old(self).register,
            final(self).remaining().len() <= old(self).remaining().len(),
            (match r {
                Ok(chunk) => {
                    &&& step_reg_access(old(self).regs(), old(self).remaining()) == Ok::<
                        (Seq<char>, Seq<char>),
                        Fault,
                    >((chunk@, final(self).remaining()))
                    &&& final(self).remaining().len() < old(self).remaining().len()
                },
                Err(e) => step_reg_access(old(self).regs(), old(self).remaining()) == Err::<
                    (Seq<char>, Seq<char>),
                    Fault,
                >(e),
            }),
    {
        match self.consume('[') {
            Ok(_) => (),
            Err(e) => {
                return Err(e);
            },
        }
        let n: usize = match self.collect_digits_until(']') {
            Ok(n) => n,
            Err(e) => {
                return Err(e);
            },
        };
        match self.expect(']') {
            Ok(_) => (),
            Err(e) => {
                return Err(e);
            },
        }
        match self.expect('>') {
            Ok(_) => (),
            Err(e) => {
                return Err(e);
            },
        }
        if 1 <= n && n <= REG_COUNT {
            let chunk = self.register[n - 1].clone();
            proof {
                assert(chunk@ == self.regs()[n as int - 1]);
            }
            Ok(chunk)
        } else {
            Err(Fault::IndexError)
        }
    }

    /// The bracketed register reference of the loop's count position:
    /// consumes `[<digits>]` and returns the numeral between the brackets.
    fn get_reg(&mut self) -> (r: Result<usize, Fault>)
        requires
            old(self).wf(),
        ensures
            final(self).wf(),
            final(self).src@ == old(self).src@,
            final(self).register == old(self).register,
            final(self).remaining().len() <= old(self).remaining().len(),
            (match r {
                Ok(n) => {
                    &&& get_reg_spec(old(self).remaining()) == Ok::<(int, Seq<char>), Fault>(
                        (n as int, final(self).remaining()),
                    )
                    &&& final(self).remaining().len() < old(self).remaining().len()
                },
                Err(e) => get_reg_spec(old(self).remaining()) == Err::<(int, Seq<char>), Fault>(e),
            }),
    {
        match self.expect('[') {
            Ok(_) => (),
            Err(e) => {
                return Err(e);
            },
        }
        let n: usize = match self.collect_digits_until(']') {
            Ok(n) => n,
            Err(e) => {
                return Err(e);
            },
        };
        match self.expect(']') {
            Ok(_) => (),
            Err(e) => {
                return Err(e);
            },
        }
        Ok(n)
    }

    /// The loop handler, dispatched on `<`: reads the body exactly once,
    /// capturing its one output string, then the repeat count, and returns
    /// the capture replayed count-many times.
    fn parse_loop(&mut self) -> (r: Result<String, Fault>)
        requires
            old(self).wf(),
        ensures
            final(self).wf(),
            final(self).src@ == old(self).src@,
            final(self).register == old(self).register,
            final(self).remaining().len() <= old(self).remaining().len(),
            (match r {
                Ok(chunk) => {
                    &&& step_loop(old(self).regs(), old(self).remaining()) == Ok::<
                        (Seq<char>, Seq<char>),
                        Fault,
                    >((chunk@, final(self).remaining()))
                    &&& final(self).remaining().len() < old(self).remaining().len()
                },
                Err(e) => step_loop(old(self).regs(), old(self).remaining()) == Err::<
                    (Seq<char>, Seq<char>),
                    Fault,
                >(e),
            }),
    {
        match self.consume('[') {
            Ok(_) => (),
            Err(e) => {
                return Err(e);
            },
        }
        let ghost rem_body0 = self.remaining();
        let mut output = String::new();
        loop
            invariant
                self.wf(),
                self.src@ == old(self).src@,
                self.register == old(self).register,
                consume_pair(old(self).remaining(), '[') == Ok::<Seq<char>, Fault>(rem_body0),
                run_body(old(self).regs(), rem_body0, Seq::empty()) == run_body(
                    old(self).regs(),
                    self.remaining(),
                    output@,
                ),
                self.remaining().len() <= rem_body0.len(),
            ensures
                self.wf(),
                self.src@ == old(self).src@,
                self.register == old(self).register,
                run_body(old(self).regs(), rem_body0, Seq::empty()) == Ok::<
                    (Seq<char>, Seq<char>),
                    Fault,
                >((output@, self.remaining())),
                self.remaining().len() <= rem_body0.len(),
                self.remaining().len() > 0 && self.remaining()[0] == ']',
            decreases self.remaining().len(),
        {
            let c = match self.peek() {
                None => {
                    return Err(Fault::SyntaxError);
                },
                Some(c) => c,
            };
            if c == ']' {
                break ;
            }
            if c == '#' {
                output = match self.parse_reg_access() {
                    Ok(chunk) => chunk,
                    Err(e) => {
                        return Err(e);
                    },
                };
            } else {
                return Err(Fault::SyntaxError);
            }
        }
        match self.expect(']') {
            Ok(_) => (),
            Err(e) => {
                return Err(e);
            },
        }
        match self.expect('<') {
            Ok(_) => (),
            Err(e) => {
                return Err(e);
            },
        }
        let cnt: usize;
        match self.peek() {
            None => {
                return Err(Fault::SyntaxError);
            },
            Some(c) => {
                if c == '[' {
                    cnt = match self.get_reg() {
                        Ok(n) => n,
                        Err(e) => {
                            return Err(e);
                        },
                    };
                } else {
                    cnt = match self.collect_digits_until('>') {
                        Ok(n) => n,
                        Err(e) => {
                            return Err(e);
                        },
                    };
                }
            },
        }
        match self.expect('>') {
            Ok(_) => (),
            Err(e) => {
                return Err(e);
            },
        }
        let mut chunk = String::new();
        let mut i: usize = cnt;
        while i > 0
            invariant
                i <= cnt,
                chunk@ == repeat_seq(output@, cnt as int - i as int),
            decreases i,
        {
            proof {
                crate::semantics::lemma_repeat_snoc(output@, cnt as int - i as int);
            }
            chunk.append(output.as_str());
            i = i - 1;
        }
        Ok(chunk)
    }

    /// Run the whole program: dispatch on each leading sigil until the
    /// source is exhausted, collecting all instruction output in order.
    /// Returns the output on success, or the first fault. Either way the
    /// register file ends exactly as the semantics prescribe: the
    /// instructions before the fault have taken effect and the offending
    /// instruction has written nothing.
    pub fn run_code(&mut self) -> (r: Result<String, Fault>)
        requires
            old(self).wf(),
        ensures
            final(self).wf(),
            final(self).regs() == run_regs(old(self).regs(), old(self).remaining()),
            final(self).remaining().len() <= old(self).remaining().len(),
            (match r {
                Ok(out) => {
                    &&& run_program(old(self).regs(), old(self).remaining(), Seq::empty()) == Ok::<
                        Seq<char>,
                        Fault,
                    >(out@)
                    &&& final(self).remaining().len() == 0
                },
                Err(e) => run_program(old(self).regs(), old(self).remaining(), Seq::empty())
                    == Err::<Seq<char>, Fault>(e),
            }),
    {
        let mut out = String::new();
        loop
            invariant
                self.wf(),
                self.remaining().len() <= old(self).remaining().len(),
                run_program(old(self).regs(), old(self).remaining(), Seq::empty()) == run_program(
                    self.regs(),
                    self.remaining(),
                    out@,
                ),
                run_regs(old(self).regs(), old(self).remaining()) == run_regs(
                    self.regs(),
                    self.remaining(),
                ),
            decreases self.remaining().len(),
        {
            let c = match self.peek() {
                None => {
                    return Ok(out);
                },
                Some(c) => c,
            };
            if c == '=' {
                match self.parse_assignment() {
                    Ok(_) => (),
                    Err(e) => {
                        return Err(e);
                    },
                }
            } else if c == '#' {
                match self.parse_stdout() {
                    Ok(chunk) => {
                        out.append(chunk.as_str());
                    },
                    Err(e) => {
                        return Err(e);
                    },
                }
            } else if c == '<' {
                match self.parse_loop() {
                    Ok(chunk) => {
                        out.append(chunk.as_str());
                    },
                    Err(e) => {
                        return Err(e);
                    },
                }
            } else {
                return Err(Fault::SyntaxError);
            }
        }
    }
}

} // verus!
