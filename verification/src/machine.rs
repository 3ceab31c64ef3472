//! A reversible stack machine over textual instructions: `PUSH n`, `POP`,
//! and the four arithmetic operators, with a history that lets every
//! successful step be undone.

use vstd::prelude::*;
use std::collections::VecDeque;
use crate::digits::int_text;
use crate::digits::int_text_val;
use crate::digits::is_int_text;
use crate::digits::i64_string;
use crate::digits::parse_i32;
use crate::text::spec_trim;
use crate::text::split_sp;
use crate::text::trim_str;
use crate::text::split_spaces;
use crate::text::lemma_split_sp_nonempty;
use vstd::wrapping::i32_specs;

verus! {

#[derive(Clone, Debug, PartialEq, Eq, Structural)]
pub enum RuntimeError {
    DivideByZero,
    StackUnderflow,
    InvalidCommand,
    NoInstructions,
}

#[derive(Debug, Default)]
pub struct Interpreter {
    pub instructions: VecDeque<String>,
    pub stack: Vec<i32>,
    history: Vec<(String, Vec<i32>)>,
}

/// The machine state as mathematics: instruction texts, stack contents,
/// and the undo history.
pub struct MState {
    pub instrs: Seq<Seq<char>>,
    pub stack: Seq<i32>,
    pub hist: Seq<(Seq<char>, Seq<i32>)>,
}

/// Truncating division as the machine performs it, wrapped on the one
/// overflowing pair.
pub open spec fn div_i32(a: i32, b: i32) -> i32
    recommends
        b != 0,
{
    let q = abs_int(a as int) / abs_int(b as int);
    let sq = if (a < 0) != (b < 0) {
        -q
    } else {
        q
    };
    if sq == 2147483648 {
        i32::MIN
    } else {
        sq as i32
    }
}

pub open spec fn abs_int(x: int) -> int {
    if x < 0 {
        -x
    } else {
        x
    }
}

pub open spec fn is_op_name(s: Seq<char>) -> bool {
    s == "ADD"@ || s == "MUL"@ || s == "SUB"@ || s == "DIV"@
}

pub open spec fn op_value(op: Seq<char>, num1: i32, num2: i32) -> i32
    recommends
        is_op_name(op),
        op == "DIV"@ ==> num2 != 0,
{
    if op == "ADD"@ {
        i32_specs::wrapping_add(num1, num2)
    } else if op == "MUL"@ {
        i32_specs::wrapping_mul(num1, num2)
    } else if op == "SUB"@ {
        i32_specs::wrapping_sub(num1, num2)
    } else {
        div_i32(num1, num2)
    }
}

/// One arithmetic step: pops two values, pushes the result, records the
/// operands; division by zero leaves the state as it was.
pub open spec fn op_step(s: MState, op: Seq<char>) -> (MState, Result<(), RuntimeError>) {
    if s.stack.len() < 2 {
        (s, Err(RuntimeError::StackUnderflow))
    } else {
        let num1 = s.stack.last();
        let num2 = s.stack[s.stack.len() - 2];
        if op == "DIV"@ && num2 == 0 {
            (s, Err(RuntimeError::DivideByZero))
        } else {
            (
                MState {
                    instrs: s.instrs.skip(1),
                    stack: s.stack.take(s.stack.len() - 2).push(op_value(op, num1, num2)),
                    hist: s.hist.push((op, seq![num2, num1])),
                },
                Ok(()),
            )
        }
    }
}

/// One forward step of the machine on its first instruction.
pub open spec fn step_spec(s: MState) -> (MState, Result<(), RuntimeError>) {
    if s.instrs.len() == 0 {
        (s, Err(RuntimeError::NoInstructions))
    } else {
        let parts = split_sp(spec_trim(s.instrs[0]));
        if parts.len() == 0 {
            (s, Err(RuntimeError::InvalidCommand))
        } else {
            let head = spec_trim(parts[0]);
            if head == "PUSH"@ {
                if parts.len() != 2 {
                    (s, Err(RuntimeError::InvalidCommand))
                } else if is_int_text(parts[1]) && i32::MIN <= int_text_val(parts[1])
                    <= i32::MAX {
                    (
                        MState {
                            instrs: s.instrs.skip(1),
                            stack: s.stack.push(int_text_val(parts[1]) as i32),
                            hist: s.hist.push(("PUSH"@, Seq::empty())),
                        },
                        Ok(()),
                    )
                } else {
                    (s, Err(RuntimeError::InvalidCommand))
                }
            } else if head == "POP"@ {
                if parts.len() != 1 {
                    (s, Err(RuntimeError::InvalidCommand))
                } else if s.stack.len() == 0 {
                    (s, Err(RuntimeError::StackUnderflow))
                } else {
                    (
                        MState {
                            instrs: s.instrs.skip(1),
                            stack: s.stack.drop_last(),
                            hist: s.hist.push(("POP"@, seq![s.stack.last()])),
                        },
                        Ok(()),
                    )
                }
            } else if is_op_name(head) {
                if parts.len() != 1 {
                    (s, Err(RuntimeError::InvalidCommand))
                } else {
                    op_step(s, head)
                }
            } else {
                (s, Err(RuntimeError::InvalidCommand))
            }
        }
    }
}

/// Forward steps applied until the instructions run out (`Ok`) or a step
/// fails (that step's error, with its state).
pub open spec fn run_spec(s: MState) -> (MState, Result<(), RuntimeError>)
    decreases s.instrs.len(),
{
    let (s2, r) = step_spec(s);
    match r {
        Err(RuntimeError::NoInstructions) => (s, Ok(())),
        Err(e) => (s2, Err(e)),
        Ok(_) => if s2.instrs.len() < s.instrs.len() {
            run_spec(s2)
        } else {
            (s2, Ok(()))
        },
    }
}

/// A history the machine itself could have written: replaying it backward
/// never runs out of stack and every entry carries the operands it needs.
pub open spec fn hist_ok(hist: Seq<(Seq<char>, Seq<i32>)>, stack_len: int) -> bool
    decreases hist.len(),
{
    if hist.len() == 0 {
        true
    } else {
        let entry = hist.last();
        if entry.0 == "PUSH"@ {
            stack_len >= 1 && hist_ok(hist.drop_last(), stack_len - 1)
        } else if entry.0 == "POP"@ {
            entry.1.len() == 1 && hist_ok(hist.drop_last(), stack_len + 1)
        } else if is_op_name(entry.0) {
            entry.1.len() == 2 && stack_len >= 1 && hist_ok(hist.drop_last(), stack_len + 1)
        } else {
            hist_ok(hist.drop_last(), stack_len)
        }
    }
}

/// One backward step: the inverse of the most recent recorded step.
pub open spec fn back_spec(s: MState) -> (MState, Result<(), RuntimeError>)
    recommends
        hist_ok(s.hist, s.stack.len() as int),
{
    if s.hist.len() == 0 {
        (s, Err(RuntimeError::NoInstructions))
    } else {
        let entry = s.hist.last();
        let rest = s.hist.drop_last();
        if entry.0 == "PUSH"@ {
            (
                MState {
                    instrs: seq![
                        "PUSH "@ + int_text(s.stack.last() as int),
                    ] + s.instrs,
                    stack: s.stack.drop_last(),
                    hist: rest,
                },
                Ok(()),
            )
        } else if entry.0 == "POP"@ {
            (
                MState {
                    instrs: seq![entry.0] + s.instrs,
                    stack: s.stack.push(entry.1[0]),
                    hist: rest,
                },
                Ok(()),
            )
        } else if is_op_name(entry.0) {
            (
                MState {
                    instrs: seq![entry.0] + s.instrs,
                    stack: s.stack.drop_last().push(entry.1[0]).push(entry.1[1]),
                    hist: rest,
                },
                Ok(()),
            )
        } else {
            (MState { instrs: s.instrs, stack: s.stack, hist: rest }, Err(
                RuntimeError::InvalidCommand,
            ))
        }
    }
}

impl Interpreter {
    /// This machine's state as mathematics.
    pub closed spec fn m(&self) -> MState {
        MState {
            instrs: self.instructions.deep_view(),
            stack: self.stack@,
            hist: self.history.deep_view(),
        }
    }

    pub open spec fn wf(&self) -> bool {
        hist_ok(self.m().hist, self.m().stack.len() as int)
    }

    pub fn new() -> (res: Self)
        ensures
            res.m().instrs == Seq::<Seq<char>>::empty(),
            res.m().stack == Seq::<i32>::empty(),
            res.m().hist == Seq::<(Seq<char>, Seq<i32>)>::empty(),
            res.wf(),
    {
        let res = Interpreter {
            instructions: VecDeque::<String>::new(),
            stack: vec![],
            history: vec![],
        };
        proof {
            assert(res.m().instrs =~= Seq::<Seq<char>>::empty());
            assert(res.m().hist =~= Seq::<(Seq<char>, Seq<i32>)>::empty());
        }
        res
    }

    /// Appends instruction texts; stack and history stay as they are.
    pub fn add_instructions(&mut self, instructions: &[&str])
        ensures
            final(self).m().instrs == old(self).m().instrs + instructions@.map_values(
                |t: &str| t@,
            ),
            final(self).m().stack == old(self).m().stack,
            final(self).m().hist == old(self).m().hist,
            old(self).wf() ==> final(self).wf(),
    {
        let n = instructions.len();
        let mut i: usize = 0;
        while i < n
            invariant
                i <= n,
                n == instructions@.len(),
                self.m().instrs =~~= old(self).m().instrs + instructions@.subrange(
                    0,
                    i as int,
                ).map_values(|t: &str| t@),
                self.m().stack == old(self).m().stack,
                self.m().hist == old(self).m().hist,
            decreases n - i,
        {
            let s: &str = instructions[i];
            let ghost prev = self.m().instrs;
            self.instructions.push_back(String::from_str(s));
            proof {
                assert(self.m().instrs =~~= prev.push(s@));
                assert(instructions@.subrange(0, i + 1).map_values(|t: &str| t@)
                    =~~= instructions@.subrange(0, i as int).map_values(|t: &str| t@).push(
                    instructions@[i as int]@,
                ));
                assert(self.m().instrs =~~= old(self).m().instrs + instructions@.subrange(
                    0,
                    i + 1,
                ).map_values(|t: &str| t@));
            }
            i += 1;
        }
        proof {
            assert(instructions@.subrange(0, n as int) =~= instructions@);
            assert(self.m().instrs =~~= old(self).m().instrs + instructions@.map_values(
                |t: &str| t@,
            ));
        }
    }

    /// The first pending instruction, if any.
    pub fn current_instruction(&self) -> (res: Option<&String>)
        ensures
            match res {
                Some(s) => self.m().instrs.len() > 0 && s@ == self.m().instrs[0],
                None => self.m().instrs.len() == 0,
            },
    {
        if self.instructions.len() == 0 {
            None
        } else {
            Some(&self.instructions[0])
        }
    }

    /// The first pending instruction, if any.
    pub fn current_instruction_immutable(&self) -> (res: Option<&String>)
        ensures
            match res {
                Some(s) => self.m().instrs.len() > 0 && s@ == self.m().instrs[0],
                None => self.m().instrs.len() == 0,
            },
    {
        if self.instructions.len() == 0 {
            None
        } else {
            Some(&self.instructions[0])
        }
    }

    fn do_operation(&mut self, op: &str) -> (res: Result<(), RuntimeError>)
        requires
            is_op_name(op@),
        ensures
            ({
                let (s2, r) = op_step(
                    MState {
                        instrs: old(self).m().instrs.skip(1),
                        stack: old(self).m().stack,
                        hist: old(self).m().hist,
                    },
                    op@,
                );
                &&& final(self).m().stack == s2.stack
                &&& final(self).m().hist == s2.hist
                &&& final(self).m().instrs == old(self).m().instrs
                &&& res == r
            }),
    {
        if self.stack.len() < 2 {
            Err(RuntimeError::StackUnderflow)
        } else {
            let num1 = self.stack.pop().unwrap();
            let num2 = self.stack.pop().unwrap();
            proof {
                lemma_op_names_distinct();
                assert(num1 == old(self).m().stack.last());
                assert(num2 == old(self).m().stack[old(self).m().stack.len() - 2]);
                assert(old(self).m().stack.take(old(self).m().stack.len() - 2)
                    =~= self.m().stack);
            }
            if str_eq(op, "DIV") {
                if num2 == 0 {
                    self.stack.push(num2);
                    self.stack.push(num1);
                    proof {
                        assert(self.m().stack =~= old(self).m().stack);
                    }
                    return Err(RuntimeError::DivideByZero);
                }
                self.stack.push(divide_i32(num1, num2));
            } else if str_eq(op, "ADD") {
                self.stack.push(num1.wrapping_add(num2));
            } else if str_eq(op, "MUL") {
                self.stack.push(num1.wrapping_mul(num2));
            } else {
                proof {
                    assert(op@ == "SUB"@);
                }
                self.stack.push(num1.wrapping_sub(num2));
            }
            self.history.push((String::from_str(op), vec![num2, num1]));
            proof {
                assert(self.m().hist =~~= old(self).m().hist.push((op@, seq![num2, num1])));
                assert(self.m().stack =~= old(self).m().stack.take(
                    old(self).m().stack.len() - 2,
                ).push(
                    op_value(
                        op@,
                        old(self).m().stack.last(),
                        old(self).m().stack[old(self).m().stack.len() - 2],
                    ),
                ));
            }
            Ok(())
        }
    }

    /// Performs the first instruction; on success it is removed and the
    /// step is recorded in the history.
    pub fn forward(&mut self) -> (res: Result<(), RuntimeError>)
        ensures
            ({
                let (s2, r) = step_spec(old(self).m());
                &&& final(self).m().instrs == s2.instrs
                &&& final(self).m().stack == s2.stack
                &&& final(self).m().hist == s2.hist
                &&& res == r
            }),
            old(self).wf() ==> final(self).wf(),
    {
        proof {
            lemma_op_names_distinct();
            lemma_hist_ok_step(old(self).m());
        }
        let instruction: String = match self.current_instruction_immutable() {
            Some(i) => i.clone(),
            None => {
                return Err(RuntimeError::NoInstructions);
            },
        };

        let trimmed = trim_str(instruction.as_str());
        let instr_vec: Vec<String> = split_spaces(trimmed.as_str());
        proof {
            lemma_split_sp_nonempty(trimmed@);
        }

        if instr_vec.len() == 0 {
            return Err(RuntimeError::InvalidCommand);
        }
        let head = trim_str(instr_vec[0].as_str());
        let res: Result<(), RuntimeError>;

        if str_eq(head.as_str(), "PUSH") {
            if instr_vec.len() != 2 {
                res = Err(RuntimeError::InvalidCommand);
            } else {
                match parse_i32(instr_vec[1].as_str()) {
                    Some(num) => {
                        self.stack.push(num);
                        self.history.push((String::from_str("PUSH"), vec![]));
                        proof {
                            assert(self.m().hist =~~= old(self).m().hist.push(
                                ("PUSH"@, Seq::<i32>::empty()),
                            ));
                        }
                        res = Ok(());
                    },
                    None => {
                        res = Err(RuntimeError::InvalidCommand);
                    },
                }
            }
        } else if str_eq(head.as_str(), "POP") {
            if instr_vec.len() != 1 {
                res = Err(RuntimeError::InvalidCommand);
            } else {
                match self.stack.pop() {
                    Some(num) => {
                        self.history.push((String::from_str("POP"), vec![num]));
                        proof {
                            assert(self.m().hist =~~= old(self).m().hist.push(
                                ("POP"@, seq![num]),
                            ));
                        }
                        res = Ok(());
                    },
                    None => {
                        res = Err(RuntimeError::StackUnderflow);
                    },
                }
            }
        } else if str_eq(head.as_str(), "ADD") || str_eq(head.as_str(), "MUL") || str_eq(
            head.as_str(),
            "SUB",
        ) || str_eq(head.as_str(), "DIV") {
            if instr_vec.len() != 1 {
                res = Err(RuntimeError::InvalidCommand);
            } else {
                res = self.do_operation(head.as_str());
            }
        } else {
            res = Err(RuntimeError::InvalidCommand);
        }

        if res.is_ok() {
            self.instructions.pop_front();
            proof {
                assert(self.m().instrs =~= old(self).m().instrs.skip(1));
            }
        }
        res
    }

    /// Runs forward until the instructions are exhausted or a step fails.
    pub fn run(&mut self) -> (res: Result<(), RuntimeError>)
        ensures
            ({
                let (s2, r) = run_spec(old(self).m());
                &&& final(self).m().instrs == s2.instrs
                &&& final(self).m().stack == s2.stack
                &&& final(self).m().hist == s2.hist
                &&& res == r
            }),
            old(self).wf() ==> final(self).wf(),
    {
        loop
            invariant
                run_spec(self.m()) == run_spec(old(self).m()),
                old(self).wf() ==> self.wf(),
            decreases self.m().instrs.len(),
        {
            let ghost pre = self.m();
            match self.forward() {
                Err(RuntimeError::NoInstructions) => {
                    return Ok(());
                },
                Err(e) => {
                    return Err(e);
                },
                _ => {
                    proof {
                        lemma_step_shrinks(pre);
                    }
                },
            }
        }
    }

    /// Undoes the most recent recorded step.
    pub fn back(&mut self) -> (res: Result<(), RuntimeError>)
        requires
            old(self).wf(),
        ensures
            ({
                let (s2, r) = back_spec(old(self).m());
                &&& final(self).m().instrs == s2.instrs
                &&& final(self).m().stack == s2.stack
                &&& final(self).m().hist == s2.hist
                &&& res == r
            }),
            final(self).wf(),
    {
        match self.history.pop() {
            Some((instr, args)) => {
                proof {
                    lemma_op_names_distinct();
                    assert(old(self).m().hist.last() == (instr@, args@));
                    assert(self.m().hist =~= old(self).m().hist.drop_last());
                }
                if str_eq(instr.as_str(), "PUSH") {
                    let top = self.stack.pop().unwrap();
                    let mut line = String::from_str("PUSH ");
                    let num_text = i64_string(top as i64);
                    line.append(num_text.as_str());
                    self.instructions.push_front(line);
                    proof {
                        assert(self.m().instrs =~= seq![
                            "PUSH "@ + int_text(old(self).m().stack.last() as int),
                        ] + old(self).m().instrs);
                    }
                    Ok(())
                } else if str_eq(instr.as_str(), "POP") {
                    self.instructions.push_front(instr.clone());
                    self.stack.push(args[0]);
                    proof {
                        assert(self.m().instrs =~= seq![instr@] + old(self).m().instrs);
                    }
                    Ok(())
                } else if str_eq(instr.as_str(), "ADD") || str_eq(instr.as_str(), "MUL")
                    || str_eq(instr.as_str(), "SUB") || str_eq(instr.as_str(), "DIV") {
                    self.instructions.push_front(instr.clone());
                    self.stack.pop();
                    self.stack.push(args[0]);
                    self.stack.push(args[1]);
                    proof {
                        assert(self.m().instrs =~= seq![instr@] + old(self).m().instrs);
                        assert(self.m().stack =~= old(self).m().stack.drop_last().push(
                            args@[0],
                        ).push(args@[1]));
                    }
                    Ok(())
                } else {
                    Err(RuntimeError::InvalidCommand)
                }
            },
            None => Err(RuntimeError::NoInstructions),
        }
    }
}

/// Division with the same truncation the machine's spec names.
fn divide_i32(a: i32, b: i32) -> (q: i32)
    requires
        b != 0,
    ensures
        q == div_i32(a, b),
{
    let ua: u64 = if a < 0 {
        (-(a as i64)) as u64
    } else {
        a as u64
    };
    let ub: u64 = if b < 0 {
        (-(b as i64)) as u64
    } else {
        b as u64
    };
    let q: u64 = ua / ub;
    let neg = (a < 0) != (b < 0);
    proof {
        assert(ua == abs_int(a as int));
        assert(ub == abs_int(b as int));
        assert(q == abs_int(a as int) / abs_int(b as int));
        assert(q <= ua <= 2147483648) by {
            vstd::arithmetic::div_mod::lemma_div_is_ordered_by_denominator(
                ua as int,
                1,
                ub as int,
            );
        }
    }
    if neg {
        -((q as i64)) as i32
    } else {
        if q == 2147483648u64 {
            i32::MIN
        } else {
            q as i32
        }
    }
}

/// String comparison against a known operation name.
fn str_eq(a: &str, b: &str) -> (r: bool)
    ensures
        r == (a@ == b@),
{
    let sa = String::from_str(a);
    let sb = String::from_str(b);
    sa == sb
}

/// The six instruction names are pairwise different texts.
pub proof fn lemma_op_names_distinct()
    ensures
        "PUSH"@ != "POP"@,
        !is_op_name("PUSH"@),
        !is_op_name("POP"@),
        "ADD"@ != "MUL"@,
        "ADD"@ != "SUB"@,
        "ADD"@ != "DIV"@,
        "MUL"@ != "SUB"@,
        "MUL"@ != "DIV"@,
        "SUB"@ != "DIV"@,
{
    reveal_strlit("PUSH");
    reveal_strlit("POP");
    reveal_strlit("ADD");
    reveal_strlit("MUL");
    reveal_strlit("SUB");
    reveal_strlit("DIV");
    assert("PUSH"@.len() == 4);
    assert("POP"@.len() == 3);
    assert("ADD"@.len() == 3);
    assert("MUL"@.len() == 3);
    assert("SUB"@.len() == 3);
    assert("DIV"@.len() == 3);
    assert("POP"@[0] == 'P' && "ADD"@[0] == 'A' && "MUL"@[0] == 'M' && "SUB"@[0] == 'S'
        && "DIV"@[0] == 'D');
}

/// After a successful step the instruction list is one shorter.
proof fn lemma_step_shrinks(s: MState)
    ensures
        (step_spec(s).1 is Ok) ==> step_spec(s).0.instrs.len() == s.instrs.len() - 1,
{
}

/// A well-formed history stays well-formed across one forward step.
proof fn lemma_hist_ok_step(s: MState)
    ensures
        hist_ok(s.hist, s.stack.len() as int) ==> hist_ok(
            step_spec(s).0.hist,
            step_spec(s).0.stack.len() as int,
        ),
{
    lemma_op_names_distinct();
    if hist_ok(s.hist, s.stack.len() as int) {
        let (s2, r) = step_spec(s);
        if s2.hist != s.hist {
            assert(s2.hist.drop_last() =~= s.hist);
        }
    }
}

} // verus!
