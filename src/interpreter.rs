use vstd::prelude::*;
use vstd::arithmetic::div_mod::lemma_add_mod_noop;

use crate::compile::{add_u8, Instruction};
use crate::{INITIAL_MEMORY_CAPACITY, MEMORY_RESIZE_AMOUNT};

verus! {

/// Why a run stops before `Stop`.
#[derive(Debug, Clone, Copy, PartialEq, Eq, Structural)]
pub enum ExecError {
    /// An `IncrementLoop` that can never bring its cell to zero.
    InfiniteLoopDetected,
    /// A move that would take the pointer below cell zero.
    BackwardUnderflow,
    /// An `Input` with no byte left to read.
    InputExhausted,
    /// A move that would take the pointer past the largest addressable cell.
    TapeOverflow,
}

/// What one step asks of the caller.
#[derive(Debug, Clone, Copy, PartialEq, Eq, Structural)]
pub enum Event {
    /// Nothing: go on stepping.
    Continue,
    /// Write this byte, then go on.
    Output(u8),
    /// The current instruction is `Input`: hand a byte to `provide_input`.
    Input,
    /// The program has stopped.
    Halt,
}

/// A program the interpreter can run: it ends in `Stop`, its jumps stay inside
/// it, and its scanning loops move.
pub open spec fn program_ok(p: Seq<Instruction>) -> bool {
    &&& p.len() > 0
    &&& p.last() == Instruction::Stop
    &&& forall|i: int|
        0 <= i < p.len() ==> match #[trigger] p[i] {
            Instruction::LoopStart(j) => j < p.len(),
            Instruction::LoopEnd(j) => j < p.len(),
            Instruction::ForwardLoop(n) => n > 0,
            Instruction::BackwardLoop(n) => n > 0,
            _ => true,
        }
}

/// The machine as its contracts see it.
pub ghost struct MachineView {
    pub tape: Seq<u8>,
    pub pointer: int,
    pub pc: int,
}

/// The tape after the pointer has reached `p`: grown past `p` by
/// `MEMORY_RESIZE_AMOUNT` zero cells where `p` is beyond its end.
pub open spec fn grow(tape: Seq<u8>, p: int) -> Seq<u8> {
    if p < tape.len() {
        tape
    } else {
        tape + Seq::new((p + MEMORY_RESIZE_AMOUNT - tape.len()) as nat, |i: int| 0u8)
    }
}

/// The pointer can reach `p`: it is on the tape, or the grown tape fits in memory.
pub open spec fn reachable(tape: Seq<u8>, p: int) -> bool {
    p < tape.len() || p + MEMORY_RESIZE_AMOUNT <= usize::MAX
}

/// Where a right scan by `n` from `p` stops: the first zero cell, or the first
/// position past the end of the tape.
pub open spec fn scan_right(tape: Seq<u8>, p: int, n: int) -> int
    recommends
        n > 0,
    decreases tape.len() - p,
{
    if p < 0 || p >= tape.len() || tape[p] == 0 || n <= 0 {
        p
    } else if p + n >= tape.len() {
        p + n
    } else {
        scan_right(tape, p + n, n)
    }
}

/// Where a left scan by `n` from `p` stops at the first zero cell; `None` where it
/// would pass cell zero first.
pub open spec fn scan_left(tape: Seq<u8>, p: int, n: int) -> Option<int>
    decreases p,
{
    if p < 0 || p >= tape.len() || n <= 0 {
        None
    } else if tape[p] == 0 {
        Some(p)
    } else if p < n {
        None
    } else {
        scan_left(tape, p - n, n)
    }
}

/// Adding `v` to `c` again and again brings it to zero. Since 256 additions of `v`
/// add nothing modulo 256, the first 256 decide it.
pub open spec fn increment_loop_ends(c: u8, v: u8) -> bool {
    exists|k: int| 0 <= k < 256 && #[trigger] ((c + k * v) % 256) == 0
}

pub open spec fn next(m: MachineView, tape: Seq<u8>, pointer: int) -> MachineView {
    MachineView { tape, pointer, pc: m.pc + 1 }
}

/// One step of the machine on `prog`.
pub open spec fn step_spec(m: MachineView, prog: Seq<Instruction>) -> Result<
    (MachineView, Event),
    ExecError,
> {
    let t = m.tape;
    let p = m.pointer;
    let c = t[p];
    match prog[m.pc] {
        Instruction::Forward(n) => if reachable(t, p + n) {
            Ok((next(m, grow(t, p + n), p + n), Event::Continue))
        } else {
            Err(ExecError::TapeOverflow)
        },
        Instruction::Backward(n) => if p < n {
            Err(ExecError::BackwardUnderflow)
        } else {
            Ok((next(m, t, p - n), Event::Continue))
        },
        Instruction::Increment(v) => Ok((next(m, t.update(p, add_u8(c, v)), p), Event::Continue)),
        Instruction::SetZero => Ok((next(m, t.update(p, 0), p), Event::Continue)),
        Instruction::SetCell(v) => Ok((next(m, t.update(p, v), p), Event::Continue)),
        Instruction::IncrementLoop(v) => if increment_loop_ends(c, v) {
            Ok((next(m, t.update(p, 0), p), Event::Continue))
        } else {
            Err(ExecError::InfiniteLoopDetected)
        },
        Instruction::MultiplyForward(off, f) => if c == 0 {
            Ok((next(m, t, p), Event::Continue))
        } else if reachable(t, p + off) {
            let g = grow(t, p + off);
            Ok(
                (
                    next(m, g.update(p + off, add_u8(g[p + off], ((c * f) % 256) as u8)), p),
                    Event::Continue,
                ),
            )
        } else {
            Err(ExecError::TapeOverflow)
        },
        Instruction::MultiplyBackward(off, f) => if c == 0 {
            Ok((next(m, t, p), Event::Continue))
        } else if p < off {
            Err(ExecError::BackwardUnderflow)
        } else {
            Ok(
                (
                    next(m, t.update(p - off, add_u8(t[p - off], ((c * f) % 256) as u8)), p),
                    Event::Continue,
                ),
            )
        },
        Instruction::ForwardLoop(n) => {
            let q = scan_right(t, p, n as int);
            if reachable(t, q) {
                Ok((next(m, grow(t, q), q), Event::Continue))
            } else {
                Err(ExecError::TapeOverflow)
            }
        },
        Instruction::BackwardLoop(n) => match scan_left(t, p, n as int) {
            Some(q) => Ok((next(m, t, q), Event::Continue)),
            None => Err(ExecError::BackwardUnderflow),
        },
        Instruction::LoopStart(j) => if c == 0 {
            Ok((MachineView { pc: j as int, ..m }, Event::Continue))
        } else {
            Ok((next(m, t, p), Event::Continue))
        },
        Instruction::LoopEnd(j) => if c != 0 {
            Ok((MachineView { pc: j as int, ..m }, Event::Continue))
        } else {
            Ok((next(m, t, p), Event::Continue))
        },
        Instruction::Output => Ok((next(m, t, p), Event::Output(c))),
        Instruction::Input => Ok((m, Event::Input)),
        Instruction::Stop => Ok((m, Event::Halt)),
    }
}

/// The machine a run starts from: `INITIAL_MEMORY_CAPACITY` zero cells, pointer and
/// program counter at zero.
pub open spec fn initial_machine() -> MachineView {
    MachineView { tape: Seq::new(INITIAL_MEMORY_CAPACITY as nat, |i: int| 0u8), pointer: 0, pc: 0 }
}

/// At most `fuel` steps from `m`, reading `input` from `pos` on and having written
/// `out`: the final machine and everything written, if the program stopped; `None`
/// if the steps ran out first.
pub open spec fn run_spec(
    m: MachineView,
    prog: Seq<Instruction>,
    input: Seq<u8>,
    pos: int,
    out: Seq<u8>,
    fuel: nat,
) -> Result<Option<(MachineView, Seq<u8>)>, ExecError>
    decreases fuel,
{
    if fuel == 0 {
        Ok(None)
    } else {
        match step_spec(m, prog) {
            Err(e) => Err(e),
            Ok((m2, Event::Continue)) => run_spec(m2, prog, input, pos, out, (fuel - 1) as nat),
            Ok((m2, Event::Output(b))) => run_spec(
                m2,
                prog,
                input,
                pos,
                out.push(b),
                (fuel - 1) as nat,
            ),
            Ok((m2, Event::Input)) => if 0 <= pos < input.len() {
                run_spec(
                    MachineView {
                        tape: m.tape.update(m.pointer, input[pos]),
                        pointer: m.pointer,
                        pc: m.pc + 1,
                    },
                    prog,
                    input,
                    pos + 1,
                    out,
                    (fuel - 1) as nat,
                )
            } else {
                Err(ExecError::InputExhausted)
            },
            Ok((m2, Event::Halt)) => Ok(Some((m2, out))),
        }
    }
}

/// The tape, the pointer into it, and the index of the next instruction.
#[derive(Debug)]
pub struct Machine {
    pub tape: Vec<u8>,
    pub pointer: usize,
    pub pc: usize,
}

impl View for Machine {
    type V = MachineView;

    open spec fn view(&self) -> MachineView {
        MachineView { tape: self.tape@, pointer: self.pointer as int, pc: self.pc as int }
    }
}

/// Grows the tape so that cell `p` exists.
fn grow_to(tape: &mut Vec<u8>, p: usize)
    requires
        reachable(old(tape)@, p as int),
    ensures
        final(tape)@ == grow(old(tape)@, p as int),
{
    if p >= tape.len() {
        let ghost t0 = tape@;
        tape.resize(p + MEMORY_RESIZE_AMOUNT, 0u8);
        proof {
            assert(tape@ =~= grow(t0, p as int)) by {
                assert forall|i: int| t0.len() <= i < tape@.len() implies tape@[i] == 0u8 by {
                    assert(cloned::<u8>(0u8, tape@[i]));
                }
                assert(tape@.subrange(0, t0.len() as int) == t0);
            }
        }
    }
}

impl Machine {
    /// Whether the machine can step on `prog`.
    pub open spec fn wf(&self, prog: Seq<Instruction>) -> bool {
        &&& program_ok(prog)
        &&& self.pc < prog.len()
        &&& self.pointer < self.tape.len()
    }

    /// A fresh machine: `INITIAL_MEMORY_CAPACITY` zero cells, pointer and program
    /// counter at zero.
    pub fn new() -> (m: Machine)
        ensures
            m@ == initial_machine(),
    {
        let mut tape: Vec<u8> = Vec::new();
        let mut i: usize = 0;
        while i < INITIAL_MEMORY_CAPACITY
            invariant
                i <= INITIAL_MEMORY_CAPACITY,
                tape@ =~= Seq::new(i as nat, |k: int| 0u8),
            decreases INITIAL_MEMORY_CAPACITY - i,
        {
            tape.push(0u8);
            i = i + 1;
        }
        Machine { tape, pointer: 0, pc: 0 }
    }

    /// Runs the instruction at `pc`. An `Input` is left for `provide_input`.
    pub fn step(&mut self, prog: &Vec<Instruction>) -> (r: Result<Event, ExecError>)
        requires
            old(self).wf(prog@),
        ensures
            match r {
                Ok(e) => step_spec(old(self)@, prog@) == Ok::<(MachineView, Event), ExecError>(
                    (final(self)@, e),
                ) && final(self).wf(prog@),
                Err(x) => step_spec(old(self)@, prog@) == Err::<(MachineView, Event), ExecError>(x),
            },
    {
        let p = self.pointer;
        let c = self.tape[p];
        proof {
            assert(prog@.last() == prog@[prog.len() - 1]);
            assert(prog@[self.pc as int] == prog@[self.pc as int]);
        }
        match prog[self.pc] {
            Instruction::Forward(n) => {
                if n > usize::MAX - p {
                    return Err(ExecError::TapeOverflow);
                }
                let q = p + n;
                if q >= self.tape.len() && q > usize::MAX - MEMORY_RESIZE_AMOUNT {
                    return Err(ExecError::TapeOverflow);
                }
                grow_to(&mut self.tape, q);
                self.pointer = q;
                self.pc = self.pc + 1;
                Ok(Event::Continue)
            },
            Instruction::Backward(n) => {
                if p < n {
                    return Err(ExecError::BackwardUnderflow);
                }
                self.pointer = p - n;
                self.pc = self.pc + 1;
                Ok(Event::Continue)
            },
            Instruction::Increment(v) => {
                self.tape.set(p, c.wrapping_add(v));
                self.pc = self.pc + 1;
                Ok(Event::Continue)
            },
            Instruction::SetZero => {
                self.tape.set(p, 0);
                self.pc = self.pc + 1;
                Ok(Event::Continue)
            },
            Instruction::SetCell(v) => {
                self.tape.set(p, v);
                self.pc = self.pc + 1;
                Ok(Event::Continue)
            },
            Instruction::IncrementLoop(v) => {
                if increment_loop_zero(c, v) {
                    self.tape.set(p, 0);
                    self.pc = self.pc + 1;
                    Ok(Event::Continue)
                } else {
                    Err(ExecError::InfiniteLoopDetected)
                }
            },
            Instruction::MultiplyForward(off, f) => {
                if c != 0 {
                    if off > usize::MAX - p {
                        return Err(ExecError::TapeOverflow);
                    }
                    let q = p + off;
                    if q >= self.tape.len() && q > usize::MAX - MEMORY_RESIZE_AMOUNT {
                        return Err(ExecError::TapeOverflow);
                    }
                    grow_to(&mut self.tape, q);
                    let d = self.tape[q];
                    let prod = c.wrapping_mul(f);
                    self.tape.set(q, d.wrapping_add(prod));
                }
                self.pc = self.pc + 1;
                Ok(Event::Continue)
            },
            Instruction::MultiplyBackward(off, f) => {
                if c != 0 {
                    if p < off {
                        return Err(ExecError::BackwardUnderflow);
                    }
                    let q = p - off;
                    let d = self.tape[q];
                    let prod = c.wrapping_mul(f);
                    self.tape.set(q, d.wrapping_add(prod));
                }
                self.pc = self.pc + 1;
                Ok(Event::Continue)
            },
            Instruction::ForwardLoop(n) => {
                let mut q = p;
                loop
                    invariant_except_break
                        q < self.tape.len(),
                        scan_right(self.tape@, q as int, n as int) == scan_right(
                            self.tape@,
                            p as int,
                            n as int,
                        ),
                    invariant
                        self@ == old(self)@,
                        n > 0,
                        p == old(self).pointer,
                        prog@[old(self).pc as int] == Instruction::ForwardLoop(n),
                    ensures
                        scan_right(self.tape@, p as int, n as int) == q as int,
                    decreases self.tape.len() - q,
                {
                    if self.tape[q] == 0 {
                        break;
                    }
                    if n > usize::MAX - q {
                        proof {
                            assert(scan_right(self.tape@, q as int, n as int) == q + n);
                        }
                        return Err(ExecError::TapeOverflow);
                    }
                    q = q + n;
                    if q >= self.tape.len() {
                        break;
                    }
                }
                if q >= self.tape.len() && q > usize::MAX - MEMORY_RESIZE_AMOUNT {
                    return Err(ExecError::TapeOverflow);
                }
                grow_to(&mut self.tape, q);
                self.pointer = q;
                self.pc = self.pc + 1;
                Ok(Event::Continue)
            },
            Instruction::BackwardLoop(n) => {
                let mut q = p;
                while self.tape[q] != 0
                    invariant
                        q < self.tape.len(),
                        n > 0,
                        self@ == old(self)@,
                        p == old(self).pointer,
                        prog@[old(self).pc as int] == Instruction::BackwardLoop(n),
                        scan_left(self.tape@, q as int, n as int) == scan_left(
                            self.tape@,
                            p as int,
                            n as int,
                        ),
                    decreases q,
                {
                    if q < n {
                        proof {
                            assert(scan_left(self.tape@, q as int, n as int) is None);
                        }
                        return Err(ExecError::BackwardUnderflow);
                    }
                    q = q - n;
                }
                self.pointer = q;
                self.pc = self.pc + 1;
                Ok(Event::Continue)
            },
            Instruction::LoopStart(j) => {
                if c == 0 {
                    self.pc = j;
                } else {
                    self.pc = self.pc + 1;
                }
                Ok(Event::Continue)
            },
            Instruction::LoopEnd(j) => {
                if c != 0 {
                    self.pc = j;
                } else {
                    self.pc = self.pc + 1;
                }
                Ok(Event::Continue)
            },
            Instruction::Output => {
                self.pc = self.pc + 1;
                Ok(Event::Output(c))
            },
            Instruction::Input => Ok(Event::Input),
            Instruction::Stop => Ok(Event::Halt),
        }
    }

    /// Stores a byte read for the `Input` at `pc` and moves past it.
    pub fn provide_input(&mut self, prog: &Vec<Instruction>, byte: u8)
        requires
            old(self).wf(prog@),
            prog@[old(self).pc as int] == Instruction::Input,
        ensures
            final(self)@ == (MachineView {
                tape: old(self)@.tape.update(old(self).pointer as int, byte),
                pointer: old(self)@.pointer,
                pc: old(self)@.pc + 1,
            }),
            final(self).wf(prog@),
    {
        proof {
            assert(prog@.last() == prog@[prog.len() - 1]);
        }
        self.tape.set(self.pointer, byte);
        self.pc = self.pc + 1;
    }
}

/// Whether adding `v` to `c` again and again reaches zero; tries the 256 sums that
/// decide it.
fn increment_loop_zero(c: u8, v: u8) -> (r: bool)
    ensures
        r == increment_loop_ends(c, v),
{
    let mut cell: u8 = c;
    let mut i: usize = 0;
    while i < 256
        invariant
            i <= 256,
            cell == (c + i * v) % 256,
            forall|k: int| 0 <= k < i ==> #[trigger] ((c + k * v) % 256) != 0,
        decreases 256 - i,
    {
        if cell == 0 {
            return true;
        }
        proof {
            lemma_add_mod_noop(c + i * v, v as int, 256);
            assert((c + i * v) + v == c + (i + 1) * v) by (nonlinear_arith);
            assert(v as int % 256 == v as int);
        }
        cell = cell.wrapping_add(v);
        i = i + 1;
    }
    false
}


/// Runs `prog` from a fresh machine for at most `max_steps` steps, reading bytes
/// from `input` in order: what it wrote and the final machine if it stopped, `None`
/// if the steps ran out first.
pub fn run(prog: &Vec<Instruction>, input: &Vec<u8>, max_steps: usize) -> (r: Result<
    Option<(Vec<u8>, Machine)>,
    ExecError,
>)
    requires
        program_ok(prog@),
    ensures
        match r {
            Ok(Some((out, m))) => run_spec(
                initial_machine(),
                prog@,
                input@,
                0,
                seq![],
                max_steps as nat,
            ) == Ok::<Option<(MachineView, Seq<u8>)>, ExecError>(Some((m@, out@))),
            Ok(None) => run_spec(initial_machine(), prog@, input@, 0, seq![], max_steps as nat)
                == Ok::<Option<(MachineView, Seq<u8>)>, ExecError>(None),
            Err(e) => run_spec(initial_machine(), prog@, input@, 0, seq![], max_steps as nat)
                == Err::<Option<(MachineView, Seq<u8>)>, ExecError>(e),
        },
{
    let mut machine = Machine::new();
    let mut out: Vec<u8> = Vec::new();
    let mut pos: usize = 0;
    let mut fuel = max_steps;
    let ghost whole = run_spec(initial_machine(), prog@, input@, 0, seq![], max_steps as nat);
    proof {
        assert(out@ =~= Seq::<u8>::empty());
    }
    while fuel > 0
        invariant
            machine.wf(prog@),
            pos <= input.len(),
            run_spec(machine@, prog@, input@, pos as int, out@, fuel as nat) == whole,
            whole == run_spec(initial_machine(), prog@, input@, 0, seq![], max_steps as nat),
        decreases fuel,
    {
        let ghost before = machine@;
        match machine.step(prog) {
            Err(e) => {
                return Err(e);
            },
            Ok(Event::Continue) => {},
            Ok(Event::Output(b)) => {
                out.push(b);
            },
            Ok(Event::Input) => {
                if pos >= input.len() {
                    return Err(ExecError::InputExhausted);
                }
                proof {
                    assert(prog@[before.pc] == Instruction::Input);
                }
                machine.provide_input(prog, input[pos]);
                pos = pos + 1;
            },
            Ok(Event::Halt) => {
                return Ok(Some((out, machine)));
            },
        }
        fuel = fuel - 1;
    }
    Ok(None)
}

} // verus!
