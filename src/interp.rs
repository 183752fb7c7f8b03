//! The interpreter of flat programs over a byte tape, and its semantics.

use vstd::prelude::*;
use crate::ir::{Inst, InstType};

verus! {

/// The state of an execution: tape, data pointer, instruction pointer, the bytes
/// written so far and the number of input bytes consumed.
pub struct Machine {
    pub tape: Seq<u8>,
    pub dp: int,
    pub ip: int,
    pub out: Seq<u8>,
    pub consumed: int,
}

/// How an execution ended.
pub enum Outcome {
    Halted(Machine),
    OutOfBounds,
    StepLimit,
}

/// Why an execution stopped before the end of the program.
#[derive(Debug, Clone, Copy, PartialEq, Eq, Structural)]
pub enum RunError {
    /// The data pointer left `0..=usize::MAX`, a tape cell outside the tape was
    /// touched, or a jump target was negative.
    OutOfBounds,
    /// The step budget ran out.
    StepLimit,
}

pub open spec fn in_tape(m: Machine, p: int) -> bool {
    0 <= p < m.tape.len()
}

pub open spec fn ptr_ok(p: int) -> bool {
    0 <= p <= usize::MAX
}

/// The next byte of input, or 0 at its end.
pub open spec fn next_input(input: Seq<u8>, consumed: int) -> u8 {
    if 0 <= consumed < input.len() { input[consumed] } else { 0 }
}

pub open spec fn consumed_after(input: Seq<u8>, consumed: int) -> int {
    if 0 <= consumed < input.len() { consumed + 1 } else { consumed }
}

/// One micro-step of instruction `i`. `Seek` and `Skip` take one step per
/// iteration of their loop and keep `ip` until the current cell is zero.
/// `None` is an out-of-bounds fault.
pub open spec fn step(i: Inst, input: Seq<u8>, m: Machine) -> Option<Machine> {
    let arg = i.arg as int;
    let delta = i.delta as int;
    let next = m.ip + 1;
    match i.cmd {
        InstType::ShiftInc => {
            let p = m.dp + arg;
            if !in_tape(m, p) || !ptr_ok(p + delta) {
                None
            } else {
                Some(Machine { tape: m.tape.update(p, m.tape[p].wrapping_add(i.inc)), dp: p + delta, ip: next, ..m })
            }
        },
        InstType::Output => {
            let p = m.dp + arg;
            if !in_tape(m, p) || !ptr_ok(p + delta) {
                None
            } else {
                Some(Machine {
                    tape: m.tape.update(p, m.tape[p].wrapping_add(i.inc)),
                    dp: p + delta,
                    ip: next,
                    out: m.out.push(m.tape[p]),
                    ..m
                })
            }
        },
        InstType::Input => {
            let p = m.dp + arg;
            if !in_tape(m, p) || !ptr_ok(p + delta) {
                None
            } else {
                Some(Machine {
                    tape: m.tape.update(p, next_input(input, m.consumed).wrapping_add(i.inc)),
                    dp: p + delta,
                    ip: next,
                    consumed: consumed_after(input, m.consumed),
                    ..m
                })
            }
        },
        InstType::Seek => {
            if !in_tape(m, m.dp) {
                None
            } else if m.tape[m.dp] != 0 {
                if !ptr_ok(m.dp + arg) { None } else { Some(Machine { dp: m.dp + arg, ..m }) }
            } else {
                let p = m.dp + delta;
                if !in_tape(m, p) {
                    None
                } else {
                    Some(Machine { tape: m.tape.update(p, m.tape[p].wrapping_add(i.inc)), dp: p, ip: next, ..m })
                }
            }
        },
        InstType::Skip => {
            if !in_tape(m, m.dp) {
                None
            } else if m.tape[m.dp] != 0 {
                let p = m.dp + delta;
                if !in_tape(m, p) || !ptr_ok(m.dp + arg) {
                    None
                } else {
                    Some(Machine { tape: m.tape.update(p, m.tape[p].wrapping_add(i.inc)), dp: m.dp + arg, ..m })
                }
            } else {
                Some(Machine { ip: next, ..m })
            }
        },
        InstType::SetCell => {
            let p = m.dp + arg;
            if !in_tape(m, p) || !ptr_ok(p + delta) {
                None
            } else {
                Some(Machine { tape: m.tape.update(p, i.inc), dp: p + delta, ip: next, ..m })
            }
        },
        InstType::Mul => {
            if !in_tape(m, m.dp) {
                None
            } else if m.tape[m.dp] != 0 {
                let p = m.dp + arg;
                if !in_tape(m, p) {
                    None
                } else {
                    let t = m.tape.update(p, m.tape[p].wrapping_add(m.tape[m.dp].wrapping_mul(i.inc)));
                    Some(Machine { tape: t, ip: next, ..m })
                }
            } else {
                Some(Machine { ip: next, ..m })
            }
        },
        InstType::Mulzero => {
            if !in_tape(m, m.dp) || !ptr_ok(m.dp + delta) {
                None
            } else if m.tape[m.dp] != 0 {
                let p = m.dp + arg;
                if !in_tape(m, p) {
                    None
                } else {
                    let t = m.tape.update(p, m.tape[p].wrapping_add(m.tape[m.dp].wrapping_mul(i.inc)));
                    Some(Machine { tape: t.update(m.dp, 0), dp: m.dp + delta, ip: next, ..m })
                }
            } else {
                Some(Machine { dp: m.dp + delta, ip: next, ..m })
            }
        },
        InstType::Open => {
            if !in_tape(m, m.dp) {
                None
            } else if m.tape[m.dp] == 0 {
                if arg < 0 { None } else { Some(Machine { ip: arg + 1, ..m }) }
            } else if !ptr_ok(m.dp + delta) {
                None
            } else {
                Some(Machine { tape: m.tape.update(m.dp, m.tape[m.dp].wrapping_add(i.inc)), dp: m.dp + delta, ip: next, ..m })
            }
        },
        InstType::Close => {
            if !in_tape(m, m.dp) {
                None
            } else if m.tape[m.dp] != 0 {
                if arg < 0 || !ptr_ok(m.dp + delta) {
                    None
                } else {
                    Some(Machine { tape: m.tape.update(m.dp, m.tape[m.dp].wrapping_add(i.inc)), dp: m.dp + delta, ip: arg + 1, ..m })
                }
            } else {
                Some(Machine { ip: next, ..m })
            }
        },
    }
}

/// The execution of `prog` from `m` for at most `fuel` micro-steps. It halts once
/// `ip` is past the last instruction.
pub open spec fn run_spec(prog: Seq<Inst>, input: Seq<u8>, m: Machine, fuel: nat) -> Outcome
    decreases fuel,
{
    if !(0 <= m.ip < prog.len()) {
        Outcome::Halted(m)
    } else if fuel == 0 {
        Outcome::StepLimit
    } else {
        match step(prog[m.ip], input, m) {
            None => Outcome::OutOfBounds,
            Some(m2) => run_spec(prog, input, m2, (fuel - 1) as nat),
        }
    }
}

/// The initial state: a zeroed tape of `length` cells, both pointers at 0.
pub open spec fn initial(length: nat) -> Machine {
    Machine { tape: Seq::new(length, |k: int| 0u8), dp: 0, ip: 0, out: Seq::empty(), consumed: 0 }
}

/// The executable state of the interpreter.
pub struct State {
    pub tape: Vec<u8>,
    pub dp: usize,
    pub ip: usize,
    pub out: Vec<u8>,
    pub consumed: usize,
}

impl State {
    pub open spec fn machine(&self) -> Machine {
        Machine { tape: self.tape@, dp: self.dp as int, ip: self.ip as int, out: self.out@, consumed: self.consumed as int }
    }
}

/// `dp + off`, where it is a valid pointer.
fn offset_ptr(dp: usize, off: i32) -> (r: Option<usize>)
    ensures
        r is Some <==> ptr_ok(dp + off),
        r is Some ==> r->0 == dp + off,
{
    if off >= 0 {
        dp.checked_add(off as usize)
    } else {
        let back: usize = (-(off as i64)) as usize;
        if back <= dp { Some(dp - back) } else { None }
    }
}

fn offset_ptr16(dp: usize, off: i16) -> (r: Option<usize>)
    ensures
        r is Some <==> ptr_ok(dp + off),
        r is Some ==> r->0 == dp + off,
{
    offset_ptr(dp, off as i32)
}

fn add_cell(tape: &mut Vec<u8>, p: usize, v: u8)
    requires
        p < old(tape).len(),
    ensures
        final(tape)@ == old(tape)@.update(p as int, old(tape)@[p as int].wrapping_add(v)),
{
    let c = tape[p];
    tape.set(p, c.wrapping_add(v));
}

/// Performs one micro-step of instruction `i` on `st`, reading input from
/// `input[st.consumed..]`; `false` on a fault, after which the state has no
/// meaning.
pub fn exec_step(st: &mut State, i: Inst, input: &[u8]) -> (ok: bool)
    requires
        old(st).consumed <= input@.len(),
        old(st).ip < usize::MAX,
    ensures
        ok <==> step(i, input@, old(st).machine()) is Some,
        ok ==> final(st).machine() == step(i, input@, old(st).machine())->0,
        ok ==> final(st).consumed <= input@.len(),
{
    let len = st.tape.len();
    match i.cmd {
        InstType::ShiftInc | InstType::Output | InstType::Input | InstType::SetCell => {
            let p = match offset_ptr(st.dp, i.arg) {
                Some(p) => p,
                None => return false,
            };
            if p >= len {
                return false;
            }
            let d = match offset_ptr16(p, i.delta) {
                Some(d) => d,
                None => return false,
            };
            match i.cmd {
                InstType::ShiftInc => add_cell(&mut st.tape, p, i.inc),
                InstType::Output => {
                    let c = st.tape[p];
                    st.out.push(c);
                    add_cell(&mut st.tape, p, i.inc);
                },
                InstType::Input => {
                    let v: u8 = if st.consumed < input.len() {
                        let b = input[st.consumed];
                        st.consumed = st.consumed + 1;
                        b
                    } else {
                        0
                    };
                    st.tape.set(p, v.wrapping_add(i.inc));
                },
                _ => st.tape.set(p, i.inc),
            }
            st.dp = d;
            st.ip = st.ip + 1;
            true
        },
        _ => {
            if st.dp >= len {
                return false;
            }
            let cur = st.tape[st.dp];
            match i.cmd {
                InstType::Seek => {
                    if cur != 0 {
                        match offset_ptr(st.dp, i.arg) {
                            Some(d) => { st.dp = d; },
                            None => return false,
                        }
                    } else {
                        let p = match offset_ptr16(st.dp, i.delta) {
                            Some(p) => p,
                            None => return false,
                        };
                        if p >= len {
                            return false;
                        }
                        add_cell(&mut st.tape, p, i.inc);
                        st.dp = p;
                        st.ip = st.ip + 1;
                    }
                    true
                },
                InstType::Skip => {
                    if cur != 0 {
                        let p = match offset_ptr16(st.dp, i.delta) {
                            Some(p) => p,
                            None => return false,
                        };
                        if p >= len {
                            return false;
                        }
                        let d = match offset_ptr(st.dp, i.arg) {
                            Some(d) => d,
                            None => return false,
                        };
                        add_cell(&mut st.tape, p, i.inc);
                        st.dp = d;
                    } else {
                        st.ip = st.ip + 1;
                    }
                    true
                },
                InstType::Mul | InstType::Mulzero => {
                    let d = match offset_ptr16(st.dp, i.delta) {
                        Some(d) => d,
                        None => {
                            if i.cmd == InstType::Mulzero {
                                return false;
                            }
                            st.dp
                        },
                    };
                    if cur != 0 {
                        let p = match offset_ptr(st.dp, i.arg) {
                            Some(p) => p,
                            None => return false,
                        };
                        if p >= len {
                            return false;
                        }
                        add_cell(&mut st.tape, p, cur.wrapping_mul(i.inc));
                        if i.cmd == InstType::Mulzero {
                            st.tape.set(st.dp, 0);
                        }
                    }
                    if i.cmd == InstType::Mulzero {
                        st.dp = d;
                    }
                    st.ip = st.ip + 1;
                    true
                },
                InstType::Open => {
                    if cur == 0 {
                        if i.arg < 0 {
                            return false;
                        }
                        st.ip = i.arg as usize + 1;
                    } else {
                        let d = match offset_ptr16(st.dp, i.delta) {
                            Some(d) => d,
                            None => return false,
                        };
                        add_cell(&mut st.tape, st.dp, i.inc);
                        st.dp = d;
                        st.ip = st.ip + 1;
                    }
                    true
                },
                _ => {
                    if cur != 0 {
                        if i.arg < 0 {
                            return false;
                        }
                        let d = match offset_ptr16(st.dp, i.delta) {
                            Some(d) => d,
                            None => return false,
                        };
                        add_cell(&mut st.tape, st.dp, i.inc);
                        st.dp = d;
                        st.ip = i.arg as usize + 1;
                    } else {
                        st.ip = st.ip + 1;
                    }
                    true
                },
            }
        },
    }
}

impl State {
    /// The initial state for a tape of `length` cells.
    pub fn new(length: usize) -> (r: State)
        ensures
            r.machine() == initial(length as nat),
    {
        State { tape: zero_tape(length), dp: 0, ip: 0, out: Vec::new(), consumed: 0 }
    }
}

/// A zeroed tape of `length` cells.
fn zero_tape(length: usize) -> (t: Vec<u8>)
    ensures
        t@ == initial(length as nat).tape,
{
    let mut t: Vec<u8> = Vec::with_capacity(length);
    let mut k: usize = 0;
    while k < length
        invariant
            k <= length,
            t@ == Seq::new(k as nat, |j: int| 0u8),
        decreases length - k,
    {
        t.push(0u8);
        k = k + 1;
        assert(t@ =~= Seq::new(k as nat, |j: int| 0u8));
    }
    assert(t@ =~= initial(length as nat).tape);
    t
}

/// Runs `prog` on a zeroed tape of `length` cells for at most `max_steps`
/// micro-steps, reading `input` and returning the bytes written, the final tape
/// and the final data pointer.
pub fn run_bounded(prog: &Vec<Inst>, length: usize, input: &[u8], max_steps: u64) -> (r: Result<
    (Vec<u8>, Vec<u8>, usize),
    RunError,
>)
    ensures
        match run_spec(prog@, input@, initial(length as nat), max_steps as nat) {
            Outcome::Halted(m) => r is Ok && r->Ok_0.0@ == m.out && r->Ok_0.1@ == m.tape
                && r->Ok_0.2 as int == m.dp,
            Outcome::OutOfBounds => r == Err::<(Vec<u8>, Vec<u8>, usize), RunError>(
                RunError::OutOfBounds,
            ),
            Outcome::StepLimit => r == Err::<(Vec<u8>, Vec<u8>, usize), RunError>(
                RunError::StepLimit,
            ),
        },
{
    let mut st = State::new(length);
    let mut fuel: u64 = max_steps;
    while st.ip < prog.len()
        invariant
            st.consumed <= input@.len(),
            run_spec(prog@, input@, st.machine(), fuel as nat) == run_spec(
                prog@,
                input@,
                initial(length as nat),
                max_steps as nat,
            ),
        decreases fuel,
    {
        if fuel == 0 {
            return Err(RunError::StepLimit);
        }
        let i = prog[st.ip];
        if !exec_step(&mut st, i, input) {
            return Err(RunError::OutOfBounds);
        }
        fuel = fuel - 1;
    }
    Ok((st.out, st.tape, st.dp))
}

/// Runs `prog` on a zeroed tape of `length` cells with `input` as standard input.
/// The step budget is `u64::MAX`: no program that can finish in practice reaches it.
pub fn run_with_state(prog: Vec<Inst>, length: usize, input: &[u8]) -> (r: Result<
    (Vec<u8>, Vec<u8>, usize),
    RunError,
>)
    ensures
        match run_spec(prog@, input@, initial(length as nat), u64::MAX as nat) {
            Outcome::Halted(m) => r is Ok && r->Ok_0.0@ == m.out && r->Ok_0.1@ == m.tape
                && r->Ok_0.2 as int == m.dp,
            Outcome::OutOfBounds => r == Err::<(Vec<u8>, Vec<u8>, usize), RunError>(
                RunError::OutOfBounds,
            ),
            Outcome::StepLimit => r == Err::<(Vec<u8>, Vec<u8>, usize), RunError>(
                RunError::StepLimit,
            ),
        },
{
    run_bounded(&prog, length, input, u64::MAX)
}

/// The largest negative multiply offset of `prog`, as a nonnegative bias: the
/// padding that a tape indexed from a shifted origin needs before cell 0.
pub fn get_offset(prog: &Vec<Inst>) -> (r: i64)
    ensures
        r as int == max_neg_mul_offset(prog@),
{
    let mut offset: i64 = 0;
    let mut k: usize = 0;
    while k < prog.len()
        invariant
            k <= prog.len(),
            offset as int == max_neg_mul_offset(prog@.take(k as int)),
        decreases prog.len() - k,
    {
        let i = prog[k];
        if i.cmd == InstType::Mul || i.cmd == InstType::Mulzero {
            let neg: i64 = -(i.arg as i64);
            if neg > offset {
                offset = neg;
            }
        }
        assert(prog@.take(k as int + 1).drop_last() =~= prog@.take(k as int));
        k = k + 1;
    }
    assert(prog@.take(k as int) =~= prog@);
    offset
}

/// The maximum of 0 and of `-arg` over the `Mul` and `Mulzero` instructions.
pub open spec fn max_neg_mul_offset(s: Seq<Inst>) -> int
    decreases s.len(),
{
    if s.len() == 0 {
        0
    } else {
        let rest = max_neg_mul_offset(s.drop_last());
        let i = s.last();
        if (i.cmd == InstType::Mul || i.cmd == InstType::Mulzero) && -(i.arg as int) > rest {
            -(i.arg as int)
        } else {
            rest
        }
    }
}

} // verus!
