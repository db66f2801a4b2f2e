use vstd::prelude::*;
use vstd::arithmetic::div_mod::lemma_add_mod_noop_right;
use vstd::arithmetic::div_mod::lemma_sub_mod_noop;

use crate::interpreter::program_ok;
use crate::lexer::{lex_spec, token_of, Token};

verus! {

/// One instruction of the compiled program.
#[derive(Debug, Clone, Copy, PartialEq, Eq, Structural)]
pub enum Instruction {
    /// Move the pointer right.
    Forward(usize),
    /// Move the pointer left.
    Backward(usize),
    /// Add to the cell, modulo 256.
    Increment(u8),
    /// Zero the cell.
    SetZero,
    /// Set the cell.
    SetCell(u8),
    /// Add to the cell repeatedly until it is zero.
    IncrementLoop(u8),
    /// Add the cell times a factor to the cell that many places to the right.
    MultiplyForward(usize, u8),
    /// Add the cell times a factor to the cell that many places to the left.
    MultiplyBackward(usize, u8),
    /// Move the pointer right by a step until the cell is zero.
    ForwardLoop(usize),
    /// Move the pointer left by a step until the cell is zero.
    BackwardLoop(usize),
    /// Jump to the index if the cell is zero.
    LoopStart(usize),
    /// Jump to the index if the cell is not zero.
    LoopEnd(usize),
    /// Write the cell.
    Output,
    /// Read a byte into the cell.
    Input,
    /// End of the program.
    Stop,
}

/// Why a token stream does not compile.
#[derive(Debug, Clone, Copy, PartialEq, Eq, Structural)]
pub enum CompileError {
    /// The stream ended inside a loop.
    UnclosedLoop,
    /// A loop end came with no loop open.
    LoopEndWithoutStart,
}

/// The kind of run of tokens being folded.
#[derive(Debug, Clone, Copy, PartialEq, Eq, Structural)]
pub enum CompilingInstruction {
    Nothing,
    Move,
    Increment,
}

/// The state of the compiler between two tokens.
pub ghost struct CompileState {
    /// Instructions emitted so far.
    pub out: Seq<Instruction>,
    /// Indices in `out` of the loops still open, innermost last.
    pub stack: Seq<usize>,
    /// The run being folded.
    pub run: CompilingInstruction,
    /// The net count of the run.
    pub value: int,
    /// The value the current cell is known to hold, if known.
    pub guarantee: Option<u8>,
    /// Bracket depth of a loop being skipped as dead; zero when none is.
    pub skip: nat,
}

pub open spec fn abs(v: int) -> int {
    if v < 0 {
        -v
    } else {
        v
    }
}

/// Adding `v` modulo 256, as a byte.
pub open spec fn delta_byte(v: int) -> u8 {
    (v % 256) as u8
}

pub open spec fn add_u8(a: u8, b: u8) -> u8 {
    ((a + b) % 256) as u8
}

pub open spec fn initial_state() -> CompileState {
    CompileState {
        out: seq![],
        stack: seq![],
        run: CompilingInstruction::Nothing,
        value: 0,
        guarantee: Some(0),
        skip: 0,
    }
}

pub open spec fn with_out(s: CompileState, out: Seq<Instruction>, guarantee: Option<u8>) -> CompileState {
    CompileState {
        out,
        stack: s.stack,
        run: CompilingInstruction::Nothing,
        value: 0,
        guarantee,
        skip: s.skip,
    }
}

/// Emits the pending run: a pointer move, a set of a known cell, or an add.
#[verifier::opaque]
pub open spec fn flush(s: CompileState) -> CompileState {
    match s.run {
        CompilingInstruction::Nothing => s,
        CompilingInstruction::Move => {
            if s.value > 0 {
                with_out(s, s.out.push(Instruction::Forward(s.value as usize)), None)
            } else if s.value < 0 {
                with_out(s, s.out.push(Instruction::Backward((-s.value) as usize)), None)
            } else {
                with_out(s, s.out, s.guarantee)
            }
        },
        CompilingInstruction::Increment => {
            if s.value == 0 {
                with_out(s, s.out, s.guarantee)
            } else {
                match s.guarantee {
                    Some(g) => {
                        let v = delta_byte(g + s.value);
                        with_out(s, s.out.push(Instruction::SetCell(v)), Some(v))
                    },
                    None => if delta_byte(s.value) == 0 {
                        with_out(s, s.out, None)
                    } else {
                        with_out(s, s.out.push(Instruction::Increment(delta_byte(s.value))), None)
                    },
                }
            }
        },
    }
}

/// Adds `d` to the run of kind `kind`, emitting first a run of the other kind.
pub open spec fn add_to_run(s: CompileState, kind: CompilingInstruction, d: int) -> CompileState {
    let f = if s.run == kind {
        s
    } else {
        flush(s)
    };
    CompileState { run: kind, value: f.value + d, ..f }
}

/// Opens a loop whose body may run.
pub open spec fn open_loop(f: CompileState) -> CompileState {
    CompileState {
        out: f.out.push(Instruction::LoopStart(0)),
        stack: f.stack.push(f.out.len() as usize),
        guarantee: None,
        ..f
    }
}

/// A plain loop: the start jumps past the end, the end back past the start.
pub open spec fn generic_loop(out: Seq<Instruction>, s: int) -> Seq<Instruction> {
    out.update(s, Instruction::LoopStart((out.len() + 1) as usize)).push(
        Instruction::LoopEnd((s + 1) as usize),
    )
}

/// A loop whose body is the one instruction after its start.
pub open spec fn single_loop(out: Seq<Instruction>, s: int) -> Seq<Instruction> {
    match out[s + 1] {
        Instruction::Increment(v) => out.drop_last().update(
            s,
            if v == 1 || v == 255 {
                Instruction::SetZero
            } else {
                Instruction::IncrementLoop(v)
            },
        ),
        Instruction::Forward(n) => out.drop_last().update(s, Instruction::ForwardLoop(n)),
        Instruction::Backward(n) => out.drop_last().update(s, Instruction::BackwardLoop(n)),
        _ => generic_loop(out, s),
    }
}

/// Adds `d` at offset `off` to a list of (offset, delta) entries kept in strictly
/// decreasing order of offset.
pub open spec fn add_delta(entries: Seq<(int, u8)>, off: int, d: u8) -> Seq<(int, u8)>
    decreases entries.len(),
{
    if entries.len() == 0 {
        seq![(off, d)]
    } else if entries[0].0 == off {
        entries.update(0, (off, add_u8(entries[0].1, d)))
    } else if entries[0].0 < off {
        seq![(off, d)] + entries
    } else {
        seq![entries[0]] + add_delta(entries.drop_first(), off, d)
    }
}

/// Records a pending delta, if any, at the current offset.
pub open spec fn record(entries: Seq<(int, u8)>, off: int, pending: u8) -> Seq<(int, u8)> {
    if pending != 0 {
        add_delta(entries, off, pending)
    } else {
        entries
    }
}

/// Reads a loop body as moves and adds: the entries recorded so far, the current
/// offset and the delta pending there; `None` if it holds anything else.
pub open spec fn scan(body: Seq<Instruction>) -> Option<(Seq<(int, u8)>, int, u8)>
    decreases body.len(),
{
    if body.len() == 0 {
        Some((seq![], 0, 0))
    } else {
        match scan(body.drop_last()) {
            None => None,
            Some((e, o, p)) => match body.last() {
                Instruction::Forward(n) => Some((record(e, o, p), o + n, 0)),
                Instruction::Backward(n) => Some((record(e, o, p), o - n, 0)),
                Instruction::Increment(v) => Some((e, o, add_u8(p, v))),
                _ => None,
            },
        }
    }
}

/// The deltas of a balanced loop body that takes exactly one from its start cell,
/// by decreasing offset; `None` if the body is not such a loop.
pub open spec fn multipliers(body: Seq<Instruction>) -> Option<Seq<(int, u8)>> {
    match scan(body) {
        Some((e, o, p)) => {
            let all = record(e, o, p);
            if o == 0 && all.contains((0, 255u8)) {
                Some(all)
            } else {
                None
            }
        },
        None => None,
    }
}

/// The multiply instruction for one entry; none for offset zero or delta zero.
pub open spec fn multiply_instr(entry: (int, u8)) -> Seq<Instruction> {
    if entry.0 == 0 || entry.1 == 0 {
        seq![]
    } else if entry.0 > 0 {
        seq![Instruction::MultiplyForward(entry.0 as usize, entry.1)]
    } else {
        seq![Instruction::MultiplyBackward((-entry.0) as usize, entry.1)]
    }
}

pub open spec fn multiply_instrs(entries: Seq<(int, u8)>) -> Seq<Instruction>
    decreases entries.len(),
{
    if entries.len() == 0 {
        seq![]
    } else {
        multiply_instrs(entries.drop_last()) + multiply_instr(entries.last())
    }
}

/// Closes the innermost open loop, rewriting it where its body allows.
#[verifier::opaque]
pub open spec fn close_loop(f: CompileState) -> CompileState {
    let s = f.stack.last() as int;
    let e = f.out.len() as int;
    let stack = f.stack.drop_last();
    let out = if e == s + 1 {
        generic_loop(f.out, s)
    } else if e == s + 2 {
        single_loop(f.out, s)
    } else {
        match multipliers(f.out.subrange(s + 1, e)) {
            Some(all) => f.out.subrange(0, s) + multiply_instrs(all).push(Instruction::SetZero),
            None => generic_loop(f.out, s),
        }
    };
    CompileState { out, stack, guarantee: Some(0), ..f }
}

pub open spec fn push_instr(f: CompileState, i: Instruction, guarantee: Option<u8>) -> CompileState {
    CompileState { out: f.out.push(i), guarantee, ..f }
}

/// One token.
pub open spec fn step(s: CompileState, t: Token) -> Result<CompileState, CompileError> {
    if s.skip > 0 {
        let skip: int = if t == Token::LoopStart {
            s.skip as int + 1
        } else if t == Token::LoopEnd {
            s.skip as int - 1
        } else {
            s.skip as int
        };
        Ok(CompileState { skip: skip as nat, ..s })
    } else {
        match t {
            Token::Increment => Ok(add_to_run(s, CompilingInstruction::Increment, 1)),
            Token::Decrement => Ok(add_to_run(s, CompilingInstruction::Increment, -1)),
            Token::Forward => Ok(add_to_run(s, CompilingInstruction::Move, 1)),
            Token::Backward => Ok(add_to_run(s, CompilingInstruction::Move, -1)),
            Token::LoopStart => {
                let f = flush(s);
                if f.guarantee == Some(0u8) {
                    Ok(CompileState { skip: 1, ..f })
                } else {
                    Ok(open_loop(f))
                }
            },
            Token::LoopEnd => {
                let f = flush(s);
                if f.stack.len() == 0 {
                    Err(CompileError::LoopEndWithoutStart)
                } else {
                    Ok(close_loop(f))
                }
            },
            Token::Input => Ok(push_instr(flush(s), Instruction::Input, None)),
            Token::Output => {
                let f = flush(s);
                Ok(push_instr(f, Instruction::Output, f.guarantee))
            },
            Token::Comment => Ok(s),
        }
    }
}

/// The state after a sequence of tokens, from the initial state.
#[verifier::opaque]
pub open spec fn steps(toks: Seq<Token>) -> Result<CompileState, CompileError>
    decreases toks.len(),
{
    if toks.len() == 0 {
        Ok(initial_state())
    } else {
        match steps(toks.drop_last()) {
            Ok(s) => step(s, toks.last()),
            Err(e) => Err(e),
        }
    }
}

/// The end of the stream: emit the pending run and `Stop`.
pub open spec fn finish(s: CompileState) -> Result<Seq<Instruction>, CompileError> {
    if s.skip > 0 {
        Err(CompileError::UnclosedLoop)
    } else {
        let f = flush(s);
        if f.stack.len() > 0 {
            Err(CompileError::UnclosedLoop)
        } else {
            Ok(f.out.push(Instruction::Stop))
        }
    }
}

/// The compiled program of a token sequence, or why it has none.
pub open spec fn compile_spec(toks: Seq<Token>) -> Result<Seq<Instruction>, CompileError> {
    match steps(toks) {
        Ok(s) => finish(s),
        Err(e) => Err(e),
    }
}

/// Every loop start with a target is matched by the loop end just before that target.
pub open spec fn loop_targets_consistent(out: Seq<Instruction>) -> bool {
    forall|i: int|
        #![trigger out[i]]
        0 <= i < out.len() && out[i] is LoopStart && 0 <= out[i]->LoopStart_0 - 1 < out.len()
            && out[out[i]->LoopStart_0 - 1] is LoopEnd ==> out[out[i]->LoopStart_0 - 1]->LoopEnd_0
            == i + 1
}

/// Loop starts and loop ends come in pairs: a start at `i` jumping to `j` has the
/// end at `j - 1` jumping back to `i + 1`, and the other way round.
pub open spec fn loops_matched(out: Seq<Instruction>) -> bool {
    &&& forall|i: int|
        #![trigger out[i]]
        0 <= i < out.len() && out[i] is LoopStart ==> {
            let j = out[i]->LoopStart_0 as int;
            &&& 1 <= j <= out.len()
            &&& out[j - 1] == Instruction::LoopEnd((i + 1) as usize)
        }
    &&& forall|x: int|
        #![trigger out[x]]
        0 <= x < out.len() && out[x] is LoopEnd ==> {
            let k = out[x]->LoopEnd_0 as int;
            &&& 1 <= k <= out.len()
            &&& out[k - 1] == Instruction::LoopStart((x + 1) as usize)
        }
}

/// No instruction whose payload makes it do nothing: no `Increment(0)`, no move or
/// scan by zero, no multiply by zero.
pub open spec fn nonzero_payloads(out: Seq<Instruction>) -> bool {
    forall|i: int|
        0 <= i < out.len() ==> match #[trigger] out[i] {
            Instruction::Increment(v) => v != 0,
            Instruction::Forward(n) => n != 0,
            Instruction::Backward(n) => n != 0,
            Instruction::ForwardLoop(n) => n != 0,
            Instruction::BackwardLoop(n) => n != 0,
            Instruction::MultiplyForward(_, m) => m != 0,
            Instruction::MultiplyBackward(_, m) => m != 0,
            _ => true,
        }
}

/// The last instruction is `Stop`, and no other is.
pub open spec fn ends_with_single_stop(out: Seq<Instruction>) -> bool {
    &&& out.len() > 0
    &&& out.last() == Instruction::Stop
    &&& forall|i: int| 0 <= i < out.len() - 1 ==> out[i] != Instruction::Stop
}


/// Distance of the pointer move of one instruction that moves by a fixed amount.
pub open spec fn move_weight(i: Instruction) -> int {
    match i {
        Instruction::Forward(n) => n as int,
        Instruction::Backward(n) => n as int,
        _ => 0,
    }
}

/// Total distance of the fixed pointer moves in a list.
pub open spec fn weight(out: Seq<Instruction>) -> int
    decreases out.len(),
{
    if out.len() == 0 {
        0
    } else {
        weight(out.drop_last()) + move_weight(out.last())
    }
}

proof fn lemma_weight_concat(a: Seq<Instruction>, b: Seq<Instruction>)
    ensures
        weight(a + b) == weight(a) + weight(b),
    decreases b.len(),
{
    if b.len() == 0 {
        assert(a + b =~= a);
    } else {
        lemma_weight_concat(a, b.drop_last());
        assert((a + b).drop_last() =~= a + b.drop_last());
    }
}

proof fn lemma_weight_nonneg(a: Seq<Instruction>)
    ensures
        weight(a) >= 0,
    decreases a.len(),
{
    if a.len() > 0 {
        lemma_weight_nonneg(a.drop_last());
    }
}

proof fn lemma_weight_push(a: Seq<Instruction>, x: Instruction)
    ensures
        weight(a.push(x)) == weight(a) + move_weight(x),
{
    assert(a.push(x).drop_last() =~= a);
}

/// The open loops sit at increasing indices, each on a placeholder start.
spec fn stack_ok(out: Seq<Instruction>, stack: Seq<usize>) -> bool {
    &&& forall|k: int|
        0 <= k < stack.len() ==> (stack[k] as int) < out.len() && out[stack[k] as int]
            == Instruction::LoopStart(0)
    &&& forall|k: int, l: int| 0 <= k < l < stack.len() ==> stack[k] < stack[l]
}

/// Each loop start with a target has its loop end just before the target, and no
/// open loop lies between the two.
spec fn loops_ok(out: Seq<Instruction>, stack: Seq<usize>) -> bool {
    forall|i: int|
        #![trigger out[i]]
        0 <= i < out.len() && out[i] is LoopStart && out[i]->LoopStart_0 != 0 ==> {
            let j = out[i]->LoopStart_0 as int;
            &&& i < j - 1 < out.len()
            &&& out[j - 1] == Instruction::LoopEnd((i + 1) as usize)
            &&& forall|k: int| 0 <= k < stack.len() ==> !(i < #[trigger] stack[k] < j - 1)
        }
}

/// The instruction at index `i` jumps back if it is a loop end, and carries no
/// payload that would make it do nothing.
spec fn instr_payload_ok(x: Instruction, i: int) -> bool {
    match x {
        Instruction::LoopEnd(k) => 1 <= k <= i,
        Instruction::Forward(n) => n > 0,
        Instruction::Backward(n) => n > 0,
        Instruction::ForwardLoop(n) => n > 0,
        Instruction::BackwardLoop(n) => n > 0,
        Instruction::Increment(v) => v != 0,
        Instruction::MultiplyForward(_, m) => m != 0,
        Instruction::MultiplyBackward(_, m) => m != 0,
        _ => true,
    }
}

/// Loop ends jump back, and no instruction does nothing by its payload.
#[verifier::opaque]
spec fn payloads_ok(out: Seq<Instruction>) -> bool {
    forall|i: int| 0 <= i < out.len() ==> instr_payload_ok(#[trigger] out[i], i)
}

/// Every loop end jumps back just past a loop start that jumps just past it.
#[verifier::opaque]
spec fn ends_ok(out: Seq<Instruction>) -> bool {
    forall|x: int|
        #![trigger out[x]]
        0 <= x < out.len() && out[x] is LoopEnd ==> {
            let k = out[x]->LoopEnd_0 as int;
            &&& 1 <= k <= x
            &&& out[k - 1] == Instruction::LoopStart((x + 1) as usize)
        }
}

/// A loop start with no target yet is an open loop.
#[verifier::opaque]
spec fn placeholders_open(out: Seq<Instruction>, stack: Seq<usize>) -> bool {
    forall|i: int|
        #![trigger out[i]]
        0 <= i < out.len() && out[i] == Instruction::LoopStart(0) ==> stack.contains(i as usize)
}

spec fn no_stop(out: Seq<Instruction>) -> bool {
    forall|i: int| 0 <= i < out.len() ==> out[i] != Instruction::Stop
}

/// What holds of the state after `pos` tokens.
#[verifier::opaque]
spec fn inv(s: CompileState, pos: int) -> bool {
    &&& s.skip == 0
    &&& weight(s.out) + abs(s.value) <= pos
    &&& s.out.len() + (if s.run == CompilingInstruction::Nothing {
        0int
    } else {
        1int
    }) <= pos
    &&& s.run == CompilingInstruction::Nothing ==> s.value == 0
    &&& stack_ok(s.out, s.stack)
    &&& loops_ok(s.out, s.stack)
    &&& no_stop(s.out)
    &&& payloads_ok(s.out)
    &&& ends_ok(s.out)
    &&& placeholders_open(s.out, s.stack)
}

pub open spec fn entries_view(v: Seq<(isize, u8)>) -> Seq<(int, u8)> {
    v.map_values(|p: (isize, u8)| (p.0 as int, p.1))
}

proof fn lemma_add_delta_skip(e: Seq<(int, u8)>, off: int, d: u8, i: int)
    requires
        0 <= i <= e.len(),
        forall|k: int| 0 <= k < i ==> e[k].0 > off,
    ensures
        add_delta(e, off, d) == e.subrange(0, i) + add_delta(e.subrange(i, e.len() as int), off, d),
    decreases i,
{
    if i == 0 {
        assert(e.subrange(0, 0) + add_delta(e.subrange(0, e.len() as int), off, d) =~= add_delta(
            e,
            off,
            d,
        )) by {
            assert(e.subrange(0, e.len() as int) =~= e);
        }
    } else {
        let t = e.drop_first();
        lemma_add_delta_skip(t, off, d, i - 1);
        assert(t.subrange(0, i - 1) =~= e.subrange(1, i));
        assert(t.subrange(i - 1, t.len() as int) =~= e.subrange(i, e.len() as int));
        assert(e.subrange(0, i) =~= seq![e[0]] + e.subrange(1, i));
        assert(add_delta(e, off, d) == seq![e[0]] + add_delta(t, off, d));
        assert(seq![e[0]] + (e.subrange(1, i) + add_delta(e.subrange(i, e.len() as int), off, d))
            =~= e.subrange(0, i) + add_delta(e.subrange(i, e.len() as int), off, d));
    }
}

fn add_delta_exec(entries: &mut Vec<(isize, u8)>, off: isize, d: u8)
    requires
        off > isize::MIN,
        forall|k: int| 0 <= k < old(entries).len() ==> old(entries)@[k].0 > isize::MIN,
    ensures
        entries_view(final(entries)@) == add_delta(entries_view(old(entries)@), off as int, d),
        final(entries).len() <= old(entries).len() + 1,
        forall|k: int| 0 <= k < final(entries).len() ==> final(entries)@[k].0 > isize::MIN,
{
    let ghost ev = entries_view(entries@);
    let mut i: usize = 0;
    while i < entries.len() && entries[i].0 > off
        invariant
            i <= entries.len(),
            entries@ == old(entries)@,
            forall|k: int| 0 <= k < i ==> entries@[k].0 > off,
        decreases entries.len() - i,
    {
        i = i + 1;
    }
    proof {
        lemma_add_delta_skip(ev, off as int, d, i as int);
    }
    let ghost rest = ev.subrange(i as int, ev.len() as int);
    if i < entries.len() && entries[i].0 == off {
        let m = entries[i].1;
        entries[i] = (off, m.wrapping_add(d));
        proof {
            assert(add_delta(rest, off as int, d) == rest.update(0, (off as int, add_u8(m, d))));
            assert(entries_view(entries@) =~= ev.subrange(0, i as int) + rest.update(
                0,
                (off as int, add_u8(m, d)),
            ));
        }
    } else {
        entries.insert(i, (off, d));
        proof {
            assert(add_delta(rest, off as int, d) == seq![(off as int, d)] + rest);
            assert(entries_view(entries@) =~= ev.subrange(0, i as int) + (seq![(off as int, d)]
                + rest));
        }
    }
}

/// The byte that adds `v` modulo 256.
fn byte_of(v: isize) -> (b: u8)
    requires
        v > isize::MIN,
    ensures
        b == delta_byte(v as int),
{
    if v >= 0 {
        ((v as usize) % 256) as u8
    } else {
        let m = (((-v) as usize) % 256) as u8;
        proof {
            lemma_sub_mod_noop(0, -v, 256);
            assert(0int % 256 == 0);
        }
        0u8.wrapping_sub(m)
    }
}

proof fn lemma_multiply_instrs(e: Seq<(int, u8)>)
    ensures
        weight(multiply_instrs(e)) == 0,
        forall|i: int|
            0 <= i < multiply_instrs(e).len() ==> (#[trigger] multiply_instrs(e)[i] is MultiplyForward
                || multiply_instrs(e)[i] is MultiplyBackward),
        forall|i: int|
            0 <= i < multiply_instrs(e).len() ==> match #[trigger] multiply_instrs(e)[i] {
                Instruction::MultiplyForward(_, m) => m != 0,
                Instruction::MultiplyBackward(_, m) => m != 0,
                _ => true,
            },
    decreases e.len(),
{
    if e.len() > 0 {
        let a = multiply_instrs(e.drop_last());
        let b = multiply_instr(e.last());
        lemma_multiply_instrs(e.drop_last());
        lemma_weight_concat(a, b);
        if b.len() == 1 {
            assert(b.drop_last() =~= Seq::<Instruction>::empty());
            assert(weight(b.drop_last()) == 0);
            assert(move_weight(b.last()) == 0);
        }
        assert(weight(b) == 0);
        assert forall|i: int| 0 <= i < (a + b).len() implies ((a + b)[i] is MultiplyForward || (a
            + b)[i] is MultiplyBackward) by {
            if i >= a.len() {
                assert((a + b)[i] == b[i - a.len()]);
            }
        }
        assert forall|i: int| 0 <= i < (a + b).len() implies match #[trigger] (a + b)[i] {
            Instruction::MultiplyForward(_, m) => m != 0,
            Instruction::MultiplyBackward(_, m) => m != 0,
            _ => true,
        } by {
            if i >= a.len() {
                assert((a + b)[i] == b[i - a.len()]);
            } else {
                assert((a + b)[i] == a[i]);
            }
        }
    }
}

proof fn lemma_scan_none_extends(b: Seq<Instruction>, k: int)
    requires
        0 <= k <= b.len(),
        scan(b.subrange(0, k)) is None,
    ensures
        scan(b) is None,
    decreases b.len() - k,
{
    if k < b.len() {
        assert(b.subrange(0, k + 1).drop_last() =~= b.subrange(0, k));
        lemma_scan_none_extends(b, k + 1);
    } else {
        assert(b.subrange(0, k) =~= b);
    }
}

proof fn lemma_steps_next(toks: Seq<Token>, p: int)
    requires
        0 <= p < toks.len(),
    ensures
        steps(toks.subrange(0, p + 1)) == match steps(toks.subrange(0, p)) {
            Ok(s) => step(s, toks[p]),
            Err(e) => Err(e),
        },
{
    reveal(steps);
    assert(toks.subrange(0, p + 1).drop_last() =~= toks.subrange(0, p));
}

proof fn lemma_steps_empty(toks: Seq<Token>)
    ensures
        steps(toks.subrange(0, 0)) == Ok::<CompileState, CompileError>(initial_state()),
{
    reveal(steps);
}

proof fn lemma_inv_mono(s: CompileState, p: int, q: int)
    requires
        inv(s, p),
        p <= q,
    ensures
        inv(s, q),
{
    reveal(inv);
}

proof fn lemma_steps_err_extends(toks: Seq<Token>, k: int)
    requires
        0 <= k <= toks.len(),
        steps(toks.subrange(0, k)) is Err,
    ensures
        steps(toks) == steps(toks.subrange(0, k)),
    decreases toks.len() - k,
{
    if k < toks.len() {
        lemma_steps_next(toks, k);
        lemma_steps_err_extends(toks, k + 1);
    } else {
        assert(toks.subrange(0, k) =~= toks);
    }
}

proof fn lemma_inv_facts(f: CompileState, pos: int)
    requires
        inv(f, pos),
    ensures
        f.skip == 0,
        weight(f.out) + abs(f.value) <= pos,
        f.out.len() <= pos,
        f.run == CompilingInstruction::Nothing ==> f.value == 0,
        f.stack.len() > 0 ==> f.stack.last() < f.out.len() && f.out[f.stack.last() as int]
            == Instruction::LoopStart(0),
        weight(f.out) >= 0,
{
    reveal(inv);
    lemma_weight_nonneg(f.out);
}

/// Appending an instruction that neither jumps nor stops keeps the open loops and
/// the loop targets as they were.
proof fn lemma_push_keeps_loops(out: Seq<Instruction>, stack: Seq<usize>, x: Instruction)
    requires
        stack_ok(out, stack),
        loops_ok(out, stack),
        no_stop(out),
        !(x is LoopStart),
        !(x is LoopEnd),
        x != Instruction::Stop,
    ensures
        stack_ok(out.push(x), stack),
        loops_ok(out.push(x), stack),
        no_stop(out.push(x)),
{
    let t = out.push(x);
    assert forall|k: int| 0 <= k < out.len() implies t[k] == out[k] by {}
    assert(loops_ok(t, stack));
}

/// Appending an instruction that neither opens nor closes a loop keeps loop ends
/// and placeholders as they were.
proof fn lemma_push_ends(out: Seq<Instruction>, stack: Seq<usize>, x: Instruction)
    requires
        ends_ok(out),
        placeholders_open(out, stack),
        !(x is LoopStart),
        !(x is LoopEnd),
    ensures
        ends_ok(out.push(x)),
        placeholders_open(out.push(x), stack),
{
    reveal(ends_ok);
    reveal(placeholders_open);
    let t = out.push(x);
    assert forall|k: int| 0 <= k < out.len() implies t[k] == out[k] by {}
    assert(ends_ok(t));
}

proof fn lemma_open_loop_ends(out: Seq<Instruction>, stack: Seq<usize>)
    requires
        ends_ok(out),
        placeholders_open(out, stack),
        out.len() <= usize::MAX,
    ensures
        ends_ok(out.push(Instruction::LoopStart(0))),
        placeholders_open(out.push(Instruction::LoopStart(0)), stack.push(out.len() as usize)),
{
    reveal(ends_ok);
    reveal(placeholders_open);
    let t = out.push(Instruction::LoopStart(0));
    let st = stack.push(out.len() as usize);
    assert forall|k: int| 0 <= k < out.len() implies t[k] == out[k] by {}
    assert(ends_ok(t));
    assert forall|i: int|
        #![trigger t[i]]
        0 <= i < t.len() && t[i] == Instruction::LoopStart(0) implies st.contains(i as usize) by {
        if i == out.len() {
            assert(st[stack.len() as int] == i as usize);
        } else {
            assert(out[i] == t[i]);
            assert(stack.contains(i as usize));
            let k = choose|k: int| 0 <= k < stack.len() && stack[k] == i as usize;
            assert(st[k] == i as usize);
        }
    }
}

/// Closing the innermost loop keeps every loop end paired with its start, and
/// leaves placeholders only at loops still open.
proof fn lemma_close_loop_ends(f: CompileState)
    requires
        ends_ok(f.out),
        placeholders_open(f.out, f.stack),
        stack_ok(f.out, f.stack),
        f.stack.len() > 0,
        f.out.len() < isize::MAX,
    ensures
        ends_ok(close_loop(f).out),
        placeholders_open(close_loop(f).out, f.stack.drop_last()),
{
    reveal(ends_ok);
    reveal(placeholders_open);
    reveal(close_loop);
    let s = f.stack.last() as int;
    let e = f.out.len() as int;
    let out = f.out;
    let t = close_loop(f).out;
    let stack = f.stack.drop_last();
    let top = f.stack.len() - 1;
    assert(s < e && out[s] == Instruction::LoopStart(0));
    let multiply = e > s + 2 && multipliers(out.subrange(s + 1, e)) is Some;
    let b = out[s + 1];
    let single = e == s + 2 && (b is Increment || b is Forward || b is Backward);
    if multiply {
        let all = multipliers(out.subrange(s + 1, e))->Some_0;
        lemma_multiply_instrs(all);
        let m = multiply_instrs(all);
        assert(t == out.subrange(0, s) + m.push(Instruction::SetZero));
        assert forall|k: int| s <= k < t.len() implies !(t[k] is LoopStart) && !(t[k] is LoopEnd) by {
            if k < s + m.len() {
                assert(t[k] == m[k - s]);
            }
        }
    } else if !single {
        assert(t == generic_loop(out, s));
    }
    assert forall|k: int| 0 <= k < t.len() && k < s implies t[k] == out[k] by {
        if multiply {
            assert(t[k] == out.subrange(0, s)[k]);
        }
    }
    assert forall|k: int| 0 <= k < t.len() && s < k < e && !multiply implies t[k] == out[k] by {}
    assert forall|x: int|
        #![trigger t[x]]
        0 <= x < t.len() && t[x] is LoopEnd implies {
            let k = t[x]->LoopEnd_0 as int;
            &&& 1 <= k <= x
            &&& t[k - 1] == Instruction::LoopStart((x + 1) as usize)
        } by {
        if !multiply && !single && x == e {
            assert(t[x] == Instruction::LoopEnd((s + 1) as usize));
            assert(t[s] == Instruction::LoopStart((e + 1) as usize));
        } else {
            assert(x != s);
            assert(x < e);
            assert(t[x] == out[x]);
            let k = out[x]->LoopEnd_0 as int;
            assert(out[k - 1] == Instruction::LoopStart((x + 1) as usize));
            assert(k - 1 != s);
            if multiply || single {
                assert(x < s);
            }
            assert(t[k - 1] == out[k - 1]);
        }
    }
    assert forall|i: int|
        #![trigger t[i]]
        0 <= i < t.len() && t[i] == Instruction::LoopStart(0) implies stack.contains(i as usize) by {
        assert(i != s);
        assert(i < e);
        assert(t[i] == out[i]);
        assert(f.stack.contains(i as usize));
        let k = choose|k: int| 0 <= k < f.stack.len() && f.stack[k] == i as usize;
        assert(k != top);
        assert(stack[k] == i as usize);
    }
}

/// Emitting the pending run keeps the invariant.
proof fn lemma_flush_inv(s: CompileState, pos: int)
    requires
        inv(s, pos),
        pos <= isize::MAX,
    ensures
        inv(flush(s), pos),
        flush(s).run == CompilingInstruction::Nothing,
{
    reveal(flush);
    reveal(inv);
    lemma_weight_nonneg(s.out);
    let x = match s.run {
        CompilingInstruction::Move => if s.value > 0 {
            Instruction::Forward(s.value as usize)
        } else {
            Instruction::Backward((-s.value) as usize)
        },
        _ => match s.guarantee {
            Some(g) => Instruction::SetCell(delta_byte(g + s.value)),
            None => Instruction::Increment(delta_byte(s.value)),
        },
    };
    if flush(s).out != s.out {
        assert(flush(s).out == s.out.push(x));
        lemma_weight_push(s.out, x);
        lemma_payloads_push(s.out, x);
        lemma_push_keeps_loops(s.out, s.stack, x);
        lemma_push_ends(s.out, s.stack, x);
    }
}

/// Appending an input or an output keeps the invariant, one token later.
proof fn lemma_push_inv(f: CompileState, x: Instruction, g: Option<u8>, pos: int)
    requires
        inv(f, pos - 1),
        f.run == CompilingInstruction::Nothing,
        x == Instruction::Input || x == Instruction::Output,
    ensures
        inv(push_instr(f, x, g), pos),
{
    reveal(inv);
    reveal(payloads_ok);
    let t = push_instr(f, x, g);
    lemma_weight_push(f.out, x);
    lemma_push_ends(f.out, f.stack, x);
    assert forall|k: int| 0 <= k < f.out.len() implies t.out[k] == f.out[k] by {}
    assert(loops_ok(t.out, t.stack));
    assert(payloads_ok(t.out)) by {
        assert forall|i: int| 0 <= i < t.out.len() implies instr_payload_ok(#[trigger] t.out[i], i) by {
            if i < f.out.len() {
                assert(t.out[i] == f.out[i]);
            }
        }
    }
}

proof fn lemma_open_loop_inv(f: CompileState, pos: int)
    requires
        inv(f, pos - 1),
        f.run == CompilingInstruction::Nothing,
        pos <= isize::MAX,
    ensures
        inv(open_loop(f), pos),
{
    reveal(inv);
    reveal(payloads_ok);
    let t = open_loop(f);
    lemma_weight_push(f.out, Instruction::LoopStart(0));
    lemma_open_loop_ends(f.out, f.stack);
    assert forall|k: int| 0 <= k < f.out.len() implies t.out[k] == f.out[k] by {}
    assert forall|k: int|
        0 <= k < t.stack.len() implies (t.stack[k] as int) < t.out.len() && t.out[t.stack[k] as int]
        == Instruction::LoopStart(0) by {
        if k < f.stack.len() {
            assert(t.stack[k] == f.stack[k]);
        }
    }
    assert forall|k: int, l: int| 0 <= k < l < t.stack.len() implies t.stack[k] < t.stack[l] by {
        if l < f.stack.len() {
            assert(t.stack[k] == f.stack[k]);
            assert(t.stack[l] == f.stack[l]);
        } else {
            assert(t.stack[k] == f.stack[k]);
        }
    }
    assert forall|i: int|
        #![trigger t.out[i]]
        0 <= i < t.out.len() && t.out[i] is LoopStart && t.out[i]->LoopStart_0 != 0 implies {
            let j = t.out[i]->LoopStart_0 as int;
            &&& i < j - 1 < t.out.len()
            &&& t.out[j - 1] == Instruction::LoopEnd((i + 1) as usize)
            &&& forall|k: int| 0 <= k < t.stack.len() ==> !(i < #[trigger] t.stack[k] < j - 1)
        } by {
        assert(i < f.out.len());
        assert(f.out[i] == t.out[i]);
        let j = t.out[i]->LoopStart_0 as int;
        assert forall|k: int| 0 <= k < t.stack.len() implies !(i < #[trigger] t.stack[k] < j - 1) by {
            if k < f.stack.len() {
                assert(t.stack[k] == f.stack[k]);
            }
        }
    }
}

/// Appending an instruction that is no loop end and has a working payload keeps
/// the payloads working.
proof fn lemma_payloads_push(out: Seq<Instruction>, x: Instruction)
    requires
        payloads_ok(out),
        !(x is LoopEnd),
        instr_payload_ok(x, out.len() as int),
    ensures
        payloads_ok(out.push(x)),
{
    reveal(payloads_ok);
    let t = out.push(x);
    assert forall|i: int|
        0 <= i < t.len() implies instr_payload_ok(#[trigger] t[i], i) by {
        if i < out.len() {
            assert(t[i] == out[i]);
        }
    }
}

/// Closing the innermost loop keeps every payload working.
proof fn lemma_close_loop_payloads(f: CompileState)
    requires
        payloads_ok(f.out),
        f.stack.len() > 0,
        f.stack.last() < f.out.len(),
        f.out[f.stack.last() as int] == Instruction::LoopStart(0),
        f.out.len() < isize::MAX,
    ensures
        payloads_ok(close_loop(f).out),
{
    reveal(close_loop);
    let s = f.stack.last() as int;
    let e = f.out.len() as int;
    let out = f.out;
    let t = close_loop(f).out;
    {
        reveal(payloads_ok);
        let multiply = e > s + 2 && multipliers(out.subrange(s + 1, e)) is Some;
        assert forall|i: int|
            0 <= i < t.len() implies instr_payload_ok(#[trigger] t[i], i) by {
            if multiply {
                let all = multipliers(out.subrange(s + 1, e))->Some_0;
                lemma_multiply_instrs(all);
                let m = multiply_instrs(all);
                assert(t == out.subrange(0, s) + m.push(Instruction::SetZero));
                if i < s {
                    assert(t[i] == out[i]);
                } else if i < s + m.len() {
                    assert(t[i] == m[i - s]);
                } else {
                    assert(t[i] == Instruction::SetZero);
                }
            } else if i < e && i != s {
                let b = out[s + 1];
                assert(out[i] == out[i]);
                if e == s + 2 && (b is Increment || b is Forward || b is Backward) {
                    assert(t[i] == out[i]);
                } else {
                    assert(t == generic_loop(out, s));
                    assert(t[i] == out[i]);
                }
            } else if i == s {
                let b = out[s + 1];
                assert(out[s + 1] == b);
            } else {
                assert(t == generic_loop(out, s));
                assert(t[i] == Instruction::LoopEnd((s + 1) as usize));
            }
        }
    }
}

/// Closing the innermost loop keeps the invariant, one token later.
#[verifier::rlimit(80)]
proof fn lemma_close_loop_inv(f: CompileState, pos: int)
    requires
        inv(f, pos - 1),
        f.run == CompilingInstruction::Nothing,
        f.stack.len() > 0,
        pos <= isize::MAX,
        f.out.len() > f.stack.last() + 2 ==> match multipliers(
            f.out.subrange(f.stack.last() + 1, f.out.len() as int),
        ) {
            Some(all) => multiply_instrs(all).len() <= f.out.len() - f.stack.last() - 1,
            None => true,
        },
    ensures
        inv(close_loop(f), pos),
{
    reveal(inv);
    reveal(close_loop);
    let s = f.stack.last() as int;
    let e = f.out.len() as int;
    let out = f.out;
    let stack = f.stack.drop_last();
    let t = close_loop(f);
    let top = f.stack.len() - 1;
    assert(s < e && out[s] == Instruction::LoopStart(0));
    assert forall|k: int| 0 <= k < stack.len() implies #[trigger] stack[k] < s by {
        assert(stack[k] == f.stack[k]);
    }
    lemma_weight_nonneg(out);
    assert(t.stack == stack);
    lemma_close_loop_payloads(f);
    lemma_close_loop_ends(f);
    if e == s + 1 {
        lemma_generic_loop_inv(f, pos);
    } else if e == s + 2 {
        let b = out[s + 1];
        if b is Increment || b is Forward || b is Backward {
            let d = out.drop_last();
            lemma_weight_push(d, b);
            assert(d.push(b) =~= out);
            lemma_weight_nonneg(d);
            let x = t.out[s];
            assert(t.out == d.update(s, x));
            assert(d.update(s, x) =~= d.drop_last().push(x));
            assert(d.drop_last().push(out[s]) =~= d);
            lemma_weight_push(d.drop_last(), x);
            lemma_weight_push(d.drop_last(), out[s]);
            assert forall|k: int| 0 <= k < s implies t.out[k] == out[k] by {}
            assert forall|i: int|
                #![trigger t.out[i]]
                0 <= i < t.out.len() && t.out[i] is LoopStart && t.out[i]->LoopStart_0 != 0 implies {
                    let j = t.out[i]->LoopStart_0 as int;
                    &&& i < j - 1 < t.out.len()
                    &&& t.out[j - 1] == Instruction::LoopEnd((i + 1) as usize)
                    &&& forall|k: int|
                        0 <= k < t.stack.len() ==> !(i < #[trigger] t.stack[k] < j - 1)
                } by {
                assert(i < s);
                assert(f.out[i] == t.out[i]);
                let j = t.out[i]->LoopStart_0 as int;
                assert(!(i < f.stack[top] < j - 1));
                assert(j - 1 < s);
                assert forall|k: int| 0 <= k < t.stack.len() implies !(i < #[trigger] t.stack[k]
                    < j - 1) by {
                    assert(t.stack[k] == f.stack[k]);
                }
            }
        } else {
            lemma_generic_loop_inv(f, pos);
        }
    } else {
        let body = out.subrange(s + 1, e);
        match multipliers(body) {
            Some(all) => {
                let pre = out.subrange(0, s);
                let m = multiply_instrs(all);
                lemma_multiply_instrs(all);
                assert(t.out =~= pre + m.push(Instruction::SetZero));
                lemma_weight_push(m, Instruction::SetZero);
                lemma_weight_concat(pre, m.push(Instruction::SetZero));
                lemma_weight_concat(pre, out.subrange(s, e));
                assert(pre + out.subrange(s, e) =~= out);
                lemma_weight_nonneg(out.subrange(s, e));
                assert forall|k: int| 0 <= k < s implies t.out[k] == out[k] by {}
                assert forall|k: int| s <= k < t.out.len() implies !(t.out[k] is LoopStart) && !(
                t.out[k] is LoopEnd) && t.out[k] != Instruction::Stop by {
                    if k < s + m.len() {
                        assert(t.out[k] == m[k - s]);
                    }
                }
                assert forall|i: int|
                    #![trigger t.out[i]]
                    0 <= i < t.out.len() && t.out[i] is LoopStart && t.out[i]->LoopStart_0 != 0 implies {
                        let j = t.out[i]->LoopStart_0 as int;
                        &&& i < j - 1 < t.out.len()
                        &&& t.out[j - 1] == Instruction::LoopEnd((i + 1) as usize)
                        &&& forall|k: int|
                            0 <= k < t.stack.len() ==> !(i < #[trigger] t.stack[k] < j - 1)
                    } by {
                    assert(i < s);
                    assert(f.out[i] == t.out[i]);
                    let j = t.out[i]->LoopStart_0 as int;
                    assert(!(i < f.stack[top] < j - 1));
                    assert(j - 1 < s);
                    assert forall|k: int| 0 <= k < t.stack.len() implies !(i < #[trigger] t.stack[k]
                        < j - 1) by {
                        assert(t.stack[k] == f.stack[k]);
                    }
                }
            },
            None => {
                lemma_generic_loop_inv(f, pos);
            },
        }
    }
}

proof fn lemma_generic_loop_inv(f: CompileState, pos: int)
    requires
        inv(f, pos - 1),
        f.run == CompilingInstruction::Nothing,
        f.stack.len() > 0,
        pos <= isize::MAX,
        payloads_ok(generic_loop(f.out, f.stack.last() as int)),
        ends_ok(generic_loop(f.out, f.stack.last() as int)),
        placeholders_open(generic_loop(f.out, f.stack.last() as int), f.stack.drop_last()),
    ensures
        ({
            let t = CompileState {
                out: generic_loop(f.out, f.stack.last() as int),
                stack: f.stack.drop_last(),
                guarantee: Some(0),
                ..f
            };
            inv(t, pos)
        }),
{
    reveal(inv);
    let s = f.stack.last() as int;
    let e = f.out.len() as int;
    let out = f.out;
    let stack = f.stack.drop_last();
    let top = f.stack.len() - 1;
    let t = CompileState { out: generic_loop(out, s), stack, guarantee: Some(0), ..f };
    assert(s < e && out[s] == Instruction::LoopStart(0));
    assert forall|k: int| 0 <= k < stack.len() implies #[trigger] stack[k] < s by {
        assert(stack[k] == f.stack[k]);
    }
    let u = out.update(s, Instruction::LoopStart((e + 1) as usize));
    assert(u =~= out.subrange(0, s).push(Instruction::LoopStart((e + 1) as usize)) + out.subrange(
        s + 1,
        e,
    ));
    assert(out =~= out.subrange(0, s).push(Instruction::LoopStart(0)) + out.subrange(s + 1, e));
    lemma_weight_push(out.subrange(0, s), Instruction::LoopStart((e + 1) as usize));
    lemma_weight_push(out.subrange(0, s), Instruction::LoopStart(0));
    lemma_weight_concat(
        out.subrange(0, s).push(Instruction::LoopStart((e + 1) as usize)),
        out.subrange(s + 1, e),
    );
    lemma_weight_concat(out.subrange(0, s).push(Instruction::LoopStart(0)), out.subrange(s + 1, e));
    lemma_weight_push(u, Instruction::LoopEnd((s + 1) as usize));
    assert forall|k: int| 0 <= k < e && k != s implies t.out[k] == out[k] by {}
    assert forall|i: int|
        #![trigger t.out[i]]
        0 <= i < t.out.len() && t.out[i] is LoopStart && t.out[i]->LoopStart_0 != 0 implies {
            let j = t.out[i]->LoopStart_0 as int;
            &&& i < j - 1 < t.out.len()
            &&& t.out[j - 1] == Instruction::LoopEnd((i + 1) as usize)
            &&& forall|k: int| 0 <= k < t.stack.len() ==> !(i < #[trigger] t.stack[k] < j - 1)
        } by {
        if i != s {
            assert(i < e);
            assert(f.out[i] == t.out[i]);
            let j = t.out[i]->LoopStart_0 as int;
            assert(j - 1 != s);
            assert forall|k: int| 0 <= k < t.stack.len() implies !(i < #[trigger] t.stack[k] < j
                - 1) by {
                assert(t.stack[k] == f.stack[k]);
            }
        }
    }
}

/// Reads the body `start + 1 .. end` of a loop as a multiply loop: its entries
/// by decreasing offset, or `None` where it is not one.
fn find_multipliers(instructions: &Vec<Instruction>, start: usize, end: usize) -> (r: Option<
    Vec<(isize, u8)>,
>)
    requires
        start + 1 < end <= instructions.len(),
        weight(instructions@) <= isize::MAX,
    ensures
        match r {
            Some(v) => multipliers(instructions@.subrange(start + 1, end as int)) == Some(
                entries_view(v@),
            ) && v.len() <= end - start - 1 && forall|k: int|
                0 <= k < v.len() ==> v@[k].0 > isize::MIN,
            None => multipliers(instructions@.subrange(start + 1, end as int)) is None,
        },
{
    let ghost out = instructions@;
    let ghost body = out.subrange(start + 1, end as int);
    proof {
        lemma_weight_concat(out.subrange(0, start + 1), out.subrange(start + 1, out.len() as int));
        assert(out.subrange(0, start + 1) + out.subrange(start + 1, out.len() as int) =~= out);
        lemma_weight_concat(body, out.subrange(end as int, out.len() as int));
        assert(body + out.subrange(end as int, out.len() as int) =~= out.subrange(
            start + 1,
            out.len() as int,
        ));
        lemma_weight_nonneg(out.subrange(0, start + 1));
        lemma_weight_nonneg(out.subrange(end as int, out.len() as int));
        assert(out.subrange(start + 1, (start + 1) as int) =~= Seq::<Instruction>::empty());
    }
    let mut entries: Vec<(isize, u8)> = Vec::new();
    let mut total_offset: isize = 0;
    let mut pending: u8 = 0;
    let mut index: usize = start + 1;
    proof {
        assert(entries_view(entries@) =~= Seq::<(int, u8)>::empty());
    }
    while index < end
        invariant
            start + 1 <= index <= end,
            end <= instructions.len(),
            instructions@ == out,
            body == out.subrange(start + 1, end as int),
            weight(body) <= isize::MAX,
            scan(out.subrange(start + 1, index as int)) == Some(
                (entries_view(entries@), total_offset as int, pending),
            ),
            abs(total_offset as int) <= weight(out.subrange(start + 1, index as int)),
            entries.len() + (if pending != 0 {
                1int
            } else {
                0int
            }) <= index - start - 1,
            forall|k: int| 0 <= k < entries.len() ==> entries@[k].0 > isize::MIN,
        decreases end - index,
    {
        let ghost prefix = out.subrange(start + 1, index as int);
        let ghost next = out.subrange(start + 1, index + 1);
        proof {
            assert(next.drop_last() =~= prefix);
            let k = index + 1 - (start + 1);
            lemma_weight_concat(body.subrange(0, k), body.subrange(k, body.len() as int));
            lemma_weight_nonneg(body.subrange(k, body.len() as int));
            assert(body.subrange(0, k) + body.subrange(k, body.len() as int) =~= body);
            assert(body.subrange(0, k) =~= next);
            lemma_weight_nonneg(prefix);
        }
        match instructions[index] {
            Instruction::Forward(n) => {
                if pending != 0 {
                    add_delta_exec(&mut entries, total_offset, pending);
                    pending = 0;
                }
                total_offset = total_offset + n as isize;
            },
            Instruction::Backward(n) => {
                if pending != 0 {
                    add_delta_exec(&mut entries, total_offset, pending);
                    pending = 0;
                }
                total_offset = total_offset - n as isize;
            },
            Instruction::Increment(v) => {
                pending = pending.wrapping_add(v);
            },
            _ => {
                proof {
                    lemma_scan_none_extends(body, index + 1 - (start + 1));
                    assert(body.subrange(0, index + 1 - (start + 1)) =~= next);
                }
                return None;
            },
        }
        index = index + 1;
    }
    proof {
        assert(out.subrange(start + 1, index as int) =~= body);
    }
    if pending != 0 {
        add_delta_exec(&mut entries, total_offset, pending);
    }
    if total_offset != 0 {
        return None;
    }
    let ghost all = entries_view(entries@);
    let mut found = false;
    let mut k: usize = 0;
    while k < entries.len()
        invariant
            k <= entries.len(),
            all == entries_view(entries@),
            found <==> exists|j: int| 0 <= j < k && all[j] == (0int, 255u8),
        decreases entries.len() - k,
    {
        if entries[k].0 == 0 && entries[k].1 == 255 {
            found = true;
        }
        proof {
            if found {
                if entries[k as int].0 == 0 && entries[k as int].1 == 255 {
                    assert(all[k as int] == (0int, 255u8));
                }
            } else {
                assert(all[k as int] != (0int, 255u8));
            }
        }
        k = k + 1;
    }
    if found {
        Some(entries)
    } else {
        None
    }
}

/// Compiles tokens into instructions.
pub struct Compiler {
    tokens: Vec<Token>,
    position: usize,
    instructions: Vec<Instruction>,
    loop_stack: Vec<usize>,
    compiling_instruction: CompilingInstruction,
    value: isize,
    cell_guarantee: Option<u8>,
}

impl Compiler {
    /// The compiler's state as the abstract state machine sees it.
    pub closed spec fn model(&self) -> CompileState {
        CompileState {
            out: self.instructions@,
            stack: self.loop_stack@,
            run: self.compiling_instruction,
            value: self.value as int,
            guarantee: self.cell_guarantee,
            skip: 0,
        }
    }

    /// The tokens to compile.
    pub closed spec fn tokens(&self) -> Seq<Token> {
        self.tokens@
    }

    /// A compiler that has consumed nothing yet.
    pub closed spec fn wf(&self) -> bool {
        &&& self.tokens@.len() <= isize::MAX
        &&& self.position == 0
        &&& self.model() == initial_state()
    }

    /// A compiler over the given tokens.
    pub fn new(tokens: Vec<Token>) -> (c: Self)
        requires
            tokens@.len() <= isize::MAX,
        ensures
            c.wf(),
            c.tokens() == tokens@,
    {
        let c = Compiler {
            tokens,
            position: 0,
            instructions: Vec::new(),
            loop_stack: Vec::new(),
            compiling_instruction: CompilingInstruction::Nothing,
            value: 0,
            cell_guarantee: Some(0),
        };
        proof {
            assert(c.model().out =~= initial_state().out);
            assert(c.model().stack =~= initial_state().stack);
        }
        c
    }

    /// Emits the pending run.
    fn compile_compiling_instruction(&mut self, Ghost(pos): Ghost<int>)
        requires
            inv(old(self).model(), pos),
            pos <= isize::MAX,
        ensures
            final(self).model() == flush(old(self).model()),
            final(self).model().run == CompilingInstruction::Nothing,
            inv(final(self).model(), pos),
            final(self).tokens@ == old(self).tokens@,
            final(self).position == old(self).position,
    {
        let ghost s0 = self.model();
        proof {
            reveal(flush);
            lemma_inv_facts(s0, pos);
            lemma_flush_inv(s0, pos);
        }
        match self.compiling_instruction {
            CompilingInstruction::Nothing => {},
            CompilingInstruction::Move => {
                if self.value > 0 {
                    self.instructions.push(Instruction::Forward(self.value as usize));
                    self.cell_guarantee = None;
                } else if self.value < 0 {
                    self.instructions.push(Instruction::Backward((-self.value) as usize));
                    self.cell_guarantee = None;
                }
            },
            CompilingInstruction::Increment => {
                if self.value != 0 {
                    let d = byte_of(self.value);
                    match self.cell_guarantee {
                        Some(g) => {
                            let v = g.wrapping_add(d);
                            proof {
                                lemma_add_mod_noop_right(g as int, self.value as int, 256);
                            }
                            self.instructions.push(Instruction::SetCell(v));
                            self.cell_guarantee = Some(v);
                        },
                        None => {
                            if d != 0 {
                                self.instructions.push(Instruction::Increment(d));
                            }
                        },
                    }
                }
            },
        }
        self.compiling_instruction = CompilingInstruction::Nothing;
        self.value = 0;
    }

    /// Adds one pointer move to the current run.
    fn forward_backward(&mut self, token: Token, Ghost(pos): Ghost<int>)
        requires
            inv(old(self).model(), pos),
            pos < isize::MAX,
            token == Token::Forward || token == Token::Backward,
        ensures
            final(self).model() == add_to_run(
                old(self).model(),
                CompilingInstruction::Move,
                if token == Token::Forward {
                    1
                } else {
                    -1
                },
            ),
            inv(final(self).model(), pos + 1),
            final(self).tokens@ == old(self).tokens@,
            final(self).position == old(self).position,
    {
        proof {
            reveal(inv);
        }
        match self.compiling_instruction {
            CompilingInstruction::Move => {},
            _ => {
                self.compile_compiling_instruction(Ghost(pos));
                self.compiling_instruction = CompilingInstruction::Move;
            },
        }
        proof {
            lemma_weight_nonneg(self.instructions@);
        }
        match token {
            Token::Forward => {
                self.value = self.value + 1;
            },
            _ => {
                self.value = self.value - 1;
            },
        }
    }

    /// Adds one cell increment or decrement to the current run.
    fn increment_decrement(&mut self, token: Token, Ghost(pos): Ghost<int>)
        requires
            inv(old(self).model(), pos),
            pos < isize::MAX,
            token == Token::Increment || token == Token::Decrement,
        ensures
            final(self).model() == add_to_run(
                old(self).model(),
                CompilingInstruction::Increment,
                if token == Token::Increment {
                    1
                } else {
                    -1
                },
            ),
            inv(final(self).model(), pos + 1),
            final(self).tokens@ == old(self).tokens@,
            final(self).position == old(self).position,
    {
        proof {
            reveal(inv);
        }
        match self.compiling_instruction {
            CompilingInstruction::Increment => {},
            _ => {
                self.compile_compiling_instruction(Ghost(pos));
                self.compiling_instruction = CompilingInstruction::Increment;
            },
        }
        proof {
            lemma_weight_nonneg(self.instructions@);
        }
        match token {
            Token::Increment => {
                self.value = self.value + 1;
            },
            _ => {
                self.value = self.value - 1;
            },
        }
    }

    #[verifier::rlimit(60)]
    /// Opens a loop, or skips it whole where the cell is known to be zero.
    fn start_loop(&mut self, Ghost(pre): Ghost<CompileState>) -> (r: Result<(), CompileError>)
        requires
            1 <= old(self).position <= old(self).tokens@.len() <= isize::MAX,
            old(self).tokens@[old(self).position - 1] == Token::LoopStart,
            steps(old(self).tokens@.subrange(0, old(self).position - 1)) == Ok::<
                CompileState,
                CompileError,
            >(pre),
            pre.skip == 0,
            flush(pre) == old(self).model(),
            old(self).compiling_instruction == CompilingInstruction::Nothing,
            inv(old(self).model(), old(self).position - 1),
        ensures
            final(self).tokens@ == old(self).tokens@,
            match r {
                Ok(()) => old(self).position <= final(self).position <= final(self).tokens@.len()
                    && steps(final(self).tokens@.subrange(0, final(self).position as int)) == Ok::<
                    CompileState,
                    CompileError,
                >(final(self).model()) && inv(final(self).model(), final(self).position as int),
                Err(e) => e == CompileError::UnclosedLoop && compile_spec(final(self).tokens@)
                    == Err::<Seq<Instruction>, CompileError>(CompileError::UnclosedLoop),
            },
            old(self).cell_guarantee != Some(0u8) ==> r is Ok && final(self).position == old(
                self,
            ).position && final(self).model() == open_loop(old(self).model()),
            old(self).cell_guarantee == Some(0u8) ==> final(self).model() == old(self).model()
                && match r {
                Ok(()) => closes_at(
                    old(self).tokens@,
                    old(self).position as int,
                    final(self).position as int,
                ),
                Err(_) => final(self).position == final(self).tokens@.len() && never_closes(
                    old(self).tokens@,
                    old(self).position as int,
                ),
            },
    {
        let ghost toks = self.tokens@;
        let ghost m0 = self.model();
        let ghost a = self.position as int;
        proof {
            reveal(inv);
            lemma_steps_next(toks, self.position - 1);
        }
        let dead = match self.cell_guarantee {
            Some(g) => g == 0,
            None => false,
        };
        if dead {
            let mut count: usize = 1;
            proof {
                assert(toks.subrange(a, a) =~= Seq::<Token>::empty());
            }
            while self.position < self.tokens.len()
                invariant
                    self.tokens@ == toks,
                    toks == old(self).tokens@,
                    toks.len() <= isize::MAX,
                    1 <= count <= self.position <= toks.len(),
                    old(self).position <= self.position,
                    self.model() == m0,
                    steps(toks.subrange(0, self.position as int)) == Ok::<CompileState, CompileError>(
                        CompileState { skip: count as nat, ..m0 },
                    ),
                    inv(m0, old(self).position - 1),
                    m0 == old(self).model(),
                    old(self).cell_guarantee == Some(0u8),
                    a == old(self).position,
                    count == 1 + depth(toks.subrange(a, self.position as int)),
                    forall|c: int|
                        a <= c <= self.position ==> 1 + #[trigger] depth(toks.subrange(a, c)) > 0,
                decreases toks.len() - self.position,
            {
                let ghost p = self.position as int;
                let token = self.tokens[self.position];
                self.position = self.position + 1;
                proof {
                    lemma_steps_next(toks, p);
                    assert(toks.subrange(a, p + 1).drop_last() =~= toks.subrange(a, p));
                    assert(toks.subrange(a, p + 1).last() == token);
                }
                match token {
                    Token::LoopStart => {
                        count = count + 1;
                    },
                    Token::LoopEnd => {
                        count = count - 1;
                    },
                    _ => {},
                }
                if count == 0 {
                    proof {
                        lemma_inv_mono(m0, old(self).position - 1, self.position as int);
                    }
                    return Ok(());
                }
            }
            proof {
                assert(toks.subrange(0, toks.len() as int) =~= toks);
            }
            Err(CompileError::UnclosedLoop)
        } else {
            let len = self.instructions.len();
            self.loop_stack.push(len);
            self.instructions.push(Instruction::LoopStart(0));
            self.cell_guarantee = None;
            proof {
                lemma_open_loop_inv(m0, self.position as int);
                assert(self.model() == open_loop(m0));
            }
            Ok(())
        }
    }

    #[verifier::rlimit(60)]
    /// Closes the innermost loop, rewriting it as a specialized instruction where its
    /// body allows.
    fn end_loop(&mut self, Ghost(pos): Ghost<int>) -> (r: Result<(), CompileError>)
        requires
            inv(old(self).model(), pos - 1),
            1 <= pos <= isize::MAX,
            old(self).compiling_instruction == CompilingInstruction::Nothing,
        ensures
            final(self).tokens@ == old(self).tokens@,
            final(self).position == old(self).position,
            match r {
                Ok(()) => old(self).model().stack.len() > 0 && final(self).model() == close_loop(
                    old(self).model(),
                ) && inv(final(self).model(), pos),
                Err(e) => e == CompileError::LoopEndWithoutStart && old(self).model().stack.len()
                    == 0 && final(self).model() == old(self).model(),
            },
    {
        let ghost f = self.model();
        proof {
            lemma_inv_facts(f, pos - 1);
        }
        let loop_start = match self.loop_stack.pop() {
            Some(s) => s,
            None => {
                return Err(CompileError::LoopEndWithoutStart);
            },
        };
        let loop_end = self.instructions.len();
        proof {
            assert(f.stack[f.stack.len() - 1] == loop_start);
            assert(loop_start < loop_end);
        }
        if loop_end - loop_start - 1 == 0 {
            self.instructions[loop_start] = Instruction::LoopStart(loop_end + 1);
            self.instructions.push(Instruction::LoopEnd(loop_start + 1));
            proof {
                assert(self.instructions@ =~= generic_loop(f.out, loop_start as int));
            }
        } else if loop_end - loop_start - 1 == 1 {
            match self.instructions[loop_start + 1] {
                Instruction::Increment(v) => {
                    self.instructions.pop();
                    self.instructions[loop_start] = if v == 1 || v == 255 {
                        Instruction::SetZero
                    } else {
                        Instruction::IncrementLoop(v)
                    };
                },
                Instruction::Forward(n) => {
                    self.instructions.pop();
                    self.instructions[loop_start] = Instruction::ForwardLoop(n);
                },
                Instruction::Backward(n) => {
                    self.instructions.pop();
                    self.instructions[loop_start] = Instruction::BackwardLoop(n);
                },
                _ => {
                    self.instructions[loop_start] = Instruction::LoopStart(loop_end + 1);
                    self.instructions.push(Instruction::LoopEnd(loop_start + 1));
                },
            }
            proof {
                assert(self.instructions@ =~= single_loop(f.out, loop_start as int));
            }
        } else {
            match find_multipliers(&self.instructions, loop_start, loop_end) {
                Some(multipliers) => {
                    let ghost all = entries_view(multipliers@);
                    self.instructions.truncate(loop_start);
                    let mut k: usize = 0;
                    while k < multipliers.len()
                        invariant
                            k <= multipliers.len(),
                            all == entries_view(multipliers@),
                            forall|j: int|
                                0 <= j < multipliers.len() ==> multipliers@[j].0 > isize::MIN,
                            self.instructions@ == f.out.subrange(0, loop_start as int)
                                + multiply_instrs(all.subrange(0, k as int)),
                            self.instructions.len() <= loop_start + k,
                            self.tokens@ == old(self).tokens@,
                            self.position == old(self).position,
                            self.loop_stack@ == f.stack.drop_last(),
                            self.compiling_instruction == CompilingInstruction::Nothing,
                            self.value == 0,
                            self.cell_guarantee == f.guarantee,
                        decreases multipliers.len() - k,
                    {
                        let (offset, multiplier) = multipliers[k];
                        let ghost before = self.instructions@;
                        proof {
                            assert(all.subrange(0, k + 1).drop_last() =~= all.subrange(0, k as int));
                            assert(all[k as int] == (offset as int, multiplier));
                        }
                        if offset != 0 && multiplier != 0 {
                            if offset > 0 {
                                self.instructions.push(
                                    Instruction::MultiplyForward(offset as usize, multiplier),
                                );
                            } else {
                                self.instructions.push(
                                    Instruction::MultiplyBackward((-offset) as usize, multiplier),
                                );
                            }
                        }
                        proof {
                            assert(self.instructions@ =~= f.out.subrange(0, loop_start as int)
                                + multiply_instrs(all.subrange(0, k + 1)));
                        }
                        k = k + 1;
                    }
                    self.instructions.push(Instruction::SetZero);
                    proof {
                        assert(all.subrange(0, all.len() as int) =~= all);
                        assert(self.instructions@ =~= f.out.subrange(0, loop_start as int)
                            + multiply_instrs(all).push(Instruction::SetZero));
                    }
                },
                None => {
                    self.instructions[loop_start] = Instruction::LoopStart(loop_end + 1);
                    self.instructions.push(Instruction::LoopEnd(loop_start + 1));
                    proof {
                        assert(self.instructions@ =~= generic_loop(f.out, loop_start as int));
                    }
                },
            }
        }
        self.cell_guarantee = Some(0);
        proof {
            reveal(close_loop);
            lemma_close_loop_inv(f, pos);
        }
        Ok(())
    }

    #[verifier::rlimit(60)]
    /// Compiles the whole token stream: the instructions, ending in one `Stop`, or
    /// the reason the stream does not compile.
    pub fn compile(self) -> (r: Result<Vec<Instruction>, CompileError>)
        requires
            self.wf(),
        ensures
            match r {
                Ok(v) => compile_spec(self.tokens()) == Ok::<Seq<Instruction>, CompileError>(v@),
                Err(e) => compile_spec(self.tokens()) == Err::<Seq<Instruction>, CompileError>(e),
            },
            match r {
                Ok(v) => ends_with_single_stop(v@) && loop_targets_consistent(v@) && loops_matched(
                    v@,
                ) && nonzero_payloads(v@) && program_ok(v@),
                Err(_) => true,
            },
            balanced(self.tokens()) ==> r is Ok,
    {
        let ghost toks = self.tokens@;
        let mut c = self;
        proof {
            lemma_steps_empty(toks);
            if balanced(toks) {
                lemma_balanced_compiles(toks);
            }
            reveal(inv);
            reveal(payloads_ok);
            reveal(ends_ok);
            reveal(placeholders_open);
            reveal(payloads_ok);
            assert(c.model().out =~= Seq::<Instruction>::empty());
        }
        while c.position < c.tokens.len()
            invariant
                c.tokens@ == toks,
                toks == self.tokens(),
                toks.len() <= isize::MAX,
                c.position <= toks.len(),
                steps(toks.subrange(0, c.position as int)) == Ok::<CompileState, CompileError>(
                    c.model(),
                ),
                inv(c.model(), c.position as int),
                balanced(toks) ==> compile_spec(toks) is Ok,
            decreases toks.len() - c.position,
        {
            let ghost p = c.position as int;
            let ghost pre = c.model();
            let token = c.tokens[c.position];
            c.position = c.position + 1;
            proof {
                lemma_steps_next(toks, p);
            }
            match token {
                Token::Increment | Token::Decrement => {
                    c.increment_decrement(token, Ghost(p));
                },
                Token::Forward | Token::Backward => {
                    c.forward_backward(token, Ghost(p));
                },
                Token::LoopStart => {
                    c.compile_compiling_instruction(Ghost(p));
                    match c.start_loop(Ghost(pre)) {
                        Ok(()) => {},
                        Err(e) => {
                            return Err(e);
                        },
                    }
                },
                Token::LoopEnd => {
                    c.compile_compiling_instruction(Ghost(p));
                    match c.end_loop(Ghost(p + 1)) {
                        Ok(()) => {},
                        Err(e) => {
                            proof {
                                assert(toks.subrange(0, p + 1).last() == Token::LoopEnd);
                                assert(steps(toks.subrange(0, p + 1)) == Err::<
                                    CompileState,
                                    CompileError,
                                >(CompileError::LoopEndWithoutStart));
                                lemma_steps_err_extends(toks, p + 1);
                            }
                            return Err(e);
                        },
                    }
                },
                Token::Input => {
                    c.compile_compiling_instruction(Ghost(p));
                    let ghost f = c.model();
                    c.instructions.push(Instruction::Input);
                    c.cell_guarantee = None;
                    proof {
                        lemma_push_inv(f, Instruction::Input, None, p + 1);
                        assert(c.model() == push_instr(f, Instruction::Input, None));
                    }
                },
                Token::Output => {
                    c.compile_compiling_instruction(Ghost(p));
                    let ghost f = c.model();
                    c.instructions.push(Instruction::Output);
                    proof {
                        lemma_push_inv(f, Instruction::Output, f.guarantee, p + 1);
                        assert(c.model() == push_instr(f, Instruction::Output, f.guarantee));
                    }
                },
                Token::Comment => {
                    proof {
                        lemma_inv_mono(pre, p, p + 1);
                    }
                },
            }
        }
        proof {
            assert(toks.subrange(0, toks.len() as int) =~= toks);
        }
        c.compile_compiling_instruction(Ghost(c.position as int));
        if c.loop_stack.len() > 0 {
            return Err(CompileError::UnclosedLoop);
        }
        let ghost body = c.instructions@;
        c.instructions.push(Instruction::Stop);
        proof {
            reveal(inv);
            let out = c.instructions@;
            assert forall|i: int| 0 <= i < body.len() implies out[i] == body[i] by {}
            reveal(ends_ok);
            reveal(placeholders_open);
            reveal(payloads_ok);
            assert(loops_matched(out)) by {
                assert forall|i: int|
                    #![trigger out[i]]
                    0 <= i < out.len() && out[i] is LoopStart implies {
                        let j = out[i]->LoopStart_0 as int;
                        &&& 1 <= j <= out.len()
                        &&& out[j - 1] == Instruction::LoopEnd((i + 1) as usize)
                    } by {
                    assert(i < body.len());
                    assert(body[i] == out[i]);
                    if out[i]->LoopStart_0 == 0 {
                        assert(body[i] == Instruction::LoopStart(0));
                        assert(c.loop_stack@.contains(i as usize));
                    }
                }
                assert forall|x: int|
                    #![trigger out[x]]
                    0 <= x < out.len() && out[x] is LoopEnd implies {
                        let k = out[x]->LoopEnd_0 as int;
                        &&& 1 <= k <= out.len()
                        &&& out[k - 1] == Instruction::LoopStart((x + 1) as usize)
                    } by {
                    assert(x < body.len());
                    assert(body[x] == out[x]);
                }
            }
            assert(loop_targets_consistent(out));
            assert(nonzero_payloads(out)) by {
                assert forall|i: int| 0 <= i < out.len() implies match #[trigger] out[i] {
                    Instruction::Increment(v) => v != 0,
                    Instruction::Forward(n) => n != 0,
                    Instruction::Backward(n) => n != 0,
                    Instruction::ForwardLoop(n) => n != 0,
                    Instruction::BackwardLoop(n) => n != 0,
                    Instruction::MultiplyForward(_, m) => m != 0,
                    Instruction::MultiplyBackward(_, m) => m != 0,
                    _ => true,
                } by {
                    if i < body.len() {
                        assert(body[i] == out[i]);
                        assert(instr_payload_ok(body[i], i));
                    }
                }
            }
        }
        Ok(c.instructions)
    }
}


/// Bracket depth after a token sequence: opening brackets less closing ones.
pub open spec fn depth(t: Seq<Token>) -> int
    decreases t.len(),
{
    if t.len() == 0 {
        0
    } else {
        depth(t.drop_last()) + if t.last() == Token::LoopStart {
            1int
        } else if t.last() == Token::LoopEnd {
            -1int
        } else {
            0int
        }
    }
}

/// No prefix closes more brackets than it opens, and the whole closes all it opens.
pub open spec fn balanced(t: Seq<Token>) -> bool {
    &&& depth(t) == 0
    &&& forall|k: int| 0 <= k <= t.len() ==> #[trigger] depth(t.subrange(0, k)) >= 0
}

proof fn lemma_skip_body(toks: Seq<Token>, a: int, body: Seq<Token>, k: int, f: CompileState)
    requires
        0 <= a,
        0 <= k <= body.len(),
        a + body.len() <= toks.len(),
        toks.subrange(a, a + body.len()) == body,
        steps(toks.subrange(0, a)) == Ok::<CompileState, CompileError>(
            CompileState { skip: 1, ..f },
        ),
        forall|j: int| 0 <= j <= body.len() ==> #[trigger] depth(body.subrange(0, j)) >= 0,
    ensures
        steps(toks.subrange(0, a + k)) == Ok::<CompileState, CompileError>(
            CompileState { skip: (1 + depth(body.subrange(0, k))) as nat, ..f },
        ),
    decreases k,
{
    if k == 0 {
        assert(body.subrange(0, 0) =~= Seq::<Token>::empty());
        assert(toks.subrange(0, a + 0) =~= toks.subrange(0, a));
    } else {
        lemma_skip_body(toks, a, body, k - 1, f);
        lemma_steps_next(toks, a + k - 1);
        assert(toks.subrange(a, a + body.len())[k - 1] == toks[a + k - 1]);
        assert(body.subrange(0, k).drop_last() =~= body.subrange(0, k - 1));
        assert(body.subrange(0, k).last() == body[k - 1]);
        assert(depth(body.subrange(0, k - 1)) >= 0);
        assert(depth(body.subrange(0, k)) >= 0);
    }
}

/// A loop whose opening bracket is reached while the current cell is known to hold
/// zero emits nothing: after its closing bracket the compiler is in the state that
/// emitting the pending run leaves, whatever the loop holds.
pub proof fn lemma_dead_loop_emits_nothing(pre: Seq<Token>, body: Seq<Token>)
    requires
        steps(pre) is Ok,
        steps(pre)->Ok_0.skip == 0,
        flush(steps(pre)->Ok_0).guarantee == Some(0u8),
        balanced(body),
    ensures
        steps(pre + seq![Token::LoopStart] + body + seq![Token::LoopEnd]) == Ok::<
            CompileState,
            CompileError,
        >(flush(steps(pre)->Ok_0)),
{
    reveal(flush);
    let s = steps(pre)->Ok_0;
    let f = flush(s);
    let toks = pre + seq![Token::LoopStart] + body + seq![Token::LoopEnd];
    let a = pre.len() as int + 1;
    assert(toks.subrange(0, pre.len() as int) =~= pre);
    lemma_steps_next(toks, pre.len() as int);
    assert(toks[pre.len() as int] == Token::LoopStart);
    assert(f.skip == 0);
    assert(step(s, Token::LoopStart) == Ok::<CompileState, CompileError>(
        CompileState { skip: 1, ..f },
    ));
    assert(toks.subrange(a, a + body.len()) =~= body);
    lemma_skip_body(toks, a, body, body.len() as int, f);
    assert(body.subrange(0, body.len() as int) =~= body);
    lemma_steps_next(toks, a + body.len());
    assert(toks[a + body.len()] == Token::LoopEnd);
    assert(toks.subrange(0, toks.len() as int) =~= toks);
    assert(CompileState { skip: 0, ..f } == f);
}

proof fn lemma_comments_steps(toks: Seq<Token>, k: int)
    requires
        0 <= k <= toks.len(),
        forall|i: int| 0 <= i < toks.len() ==> toks[i] == Token::Comment,
    ensures
        steps(toks.subrange(0, k)) == Ok::<CompileState, CompileError>(initial_state()),
    decreases k,
{
    if k == 0 {
        lemma_steps_empty(toks);
    } else {
        lemma_comments_steps(toks, k - 1);
        lemma_steps_next(toks, k - 1);
    }
}

/// A source of comments only, with none of the eight commands, compiles to a lone
/// `Stop`.
pub proof fn lemma_comments_compile_to_stop(src: Seq<char>)
    requires
        forall|i: int| 0 <= i < src.len() ==> token_of(#[trigger] src[i]) == Token::Comment,
    ensures
        compile_spec(lex_spec(src)) == Ok::<Seq<Instruction>, CompileError>(
            seq![Instruction::Stop],
        ),
{
    reveal(flush);
    let toks = lex_spec(src);
    lemma_comments_steps(toks, toks.len() as int);
    assert(toks.subrange(0, toks.len() as int) =~= toks);
    assert(Seq::<Instruction>::empty().push(Instruction::Stop) =~= seq![Instruction::Stop]);
}


/// How a token changes the bracket depth.
pub open spec fn bracket_delta(t: Token) -> int {
    if t == Token::LoopStart {
        1
    } else if t == Token::LoopEnd {
        -1
    } else {
        0
    }
}

/// Open loops plus the depth of a loop being skipped follow the bracket depth.
proof fn lemma_step_depth(s: CompileState, t: Token)
    requires
        s.stack.len() + s.skip + bracket_delta(t) >= 0,
    ensures
        step(s, t) is Ok,
        step(s, t)->Ok_0.stack.len() + step(s, t)->Ok_0.skip == s.stack.len() + s.skip
            + bracket_delta(t),
{
    reveal(flush);
    reveal(close_loop);
}

proof fn lemma_steps_depth(toks: Seq<Token>, k: int)
    requires
        0 <= k <= toks.len(),
        forall|j: int| 0 <= j <= toks.len() ==> #[trigger] depth(toks.subrange(0, j)) >= 0,
    ensures
        steps(toks.subrange(0, k)) is Ok,
        steps(toks.subrange(0, k))->Ok_0.stack.len() + steps(toks.subrange(0, k))->Ok_0.skip
            == depth(toks.subrange(0, k)),
    decreases k,
{
    if k == 0 {
        lemma_steps_empty(toks);
        assert(toks.subrange(0, 0) =~= Seq::<Token>::empty());
    } else {
        lemma_steps_depth(toks, k - 1);
        lemma_steps_next(toks, k - 1);
        assert(toks.subrange(0, k).drop_last() =~= toks.subrange(0, k - 1));
        assert(toks.subrange(0, k).last() == toks[k - 1]);
        assert(depth(toks.subrange(0, k)) >= 0);
        lemma_step_depth(steps(toks.subrange(0, k - 1))->Ok_0, toks[k - 1]);
    }
}

/// A token sequence whose brackets balance always compiles.
pub proof fn lemma_balanced_compiles(toks: Seq<Token>)
    requires
        balanced(toks),
    ensures
        compile_spec(toks) is Ok,
{
    reveal(flush);
    lemma_steps_depth(toks, toks.len() as int);
    assert(toks.subrange(0, toks.len() as int) =~= toks);
}


/// The tokens from `a` on close a loop opened just before `a` exactly at `b`: the
/// bracket depth, counted from one at `a`, first comes back to zero at `b`.
pub open spec fn closes_at(toks: Seq<Token>, a: int, b: int) -> bool {
    &&& a < b <= toks.len()
    &&& 1 + depth(toks.subrange(a, b)) == 0
    &&& forall|c: int| a <= c < b ==> 1 + #[trigger] depth(toks.subrange(a, c)) > 0
}

/// The tokens from `a` on never close a loop opened just before `a`.
pub open spec fn never_closes(toks: Seq<Token>, a: int) -> bool {
    forall|c: int| a <= c <= toks.len() ==> 1 + #[trigger] depth(toks.subrange(a, c)) > 0
}

} // verus!
