use vstd::prelude::*;
use vstd::arithmetic::div_mod::{lemma_add_mod_noop, lemma_mod_multiples_vanish};

use crate::interpreter::{
    grow, increment_loop_ends, reachable, scan_right, step_spec, Event, MachineView,
};
use crate::compile::{
    add_delta, add_u8, multipliers, multiply_instr, multiply_instrs, record, scan, Instruction,
};

verus! {

/// Cells around the pointer, indexed by their offset from it, with no end either way.
pub type Cells = spec_fn(int) -> u8;

/// The cells with `d` added, modulo 256, at offset `i`.
pub open spec fn cell_add(t: Cells, i: int, d: u8) -> Cells {
    |j: int|
        if j == i {
            add_u8(t(j), d)
        } else {
            t(j)
        }
}

/// The deltas of a list of (offset, delta) entries at offset `i`, summed modulo 256.
pub open spec fn total(e: Seq<(int, u8)>, i: int) -> u8
    decreases e.len(),
{
    if e.len() == 0 {
        0
    } else {
        add_u8(
            total(e.drop_last(), i),
            if e.last().0 == i {
                e.last().1
            } else {
                0
            },
        )
    }
}

/// Runs pointer moves and adds from offset `p`; other instructions do nothing here.
/// The cells and the offset the pointer ends at.
pub open spec fn run_moves(t: Cells, p: int, body: Seq<Instruction>) -> (Cells, int)
    decreases body.len(),
{
    if body.len() == 0 {
        (t, p)
    } else {
        let (t1, p1) = run_moves(t, p, body.drop_last());
        match body.last() {
            Instruction::Forward(n) => (t1, p1 + n),
            Instruction::Backward(n) => (t1, p1 - n),
            Instruction::Increment(v) => (cell_add(t1, p1, v), p1),
            _ => (t1, p1),
        }
    }
}

/// The cells after `k` passes of a loop body, each pass starting at offset zero.
pub open spec fn passes(t: Cells, body: Seq<Instruction>, k: nat) -> Cells
    decreases k,
{
    if k == 0 {
        t
    } else {
        run_moves(passes(t, body, (k - 1) as nat), 0, body).0
    }
}

/// Runs multiplies and clears at offset zero; other instructions do nothing here.
pub open spec fn run_multiplies(t: Cells, instrs: Seq<Instruction>) -> Cells
    decreases instrs.len(),
{
    if instrs.len() == 0 {
        t
    } else {
        let t1 = run_multiplies(t, instrs.drop_last());
        match instrs.last() {
            Instruction::MultiplyForward(off, m) => cell_add(
                t1,
                off as int,
                ((t1(0) * m) % 256) as u8,
            ),
            Instruction::MultiplyBackward(off, m) => cell_add(
                t1,
                -(off as int),
                ((t1(0) * m) % 256) as u8,
            ),
            Instruction::SetZero => |j: int|
                if j == 0 {
                    0u8
                } else {
                    t1(j)
                },
            _ => t1,
        }
    }
}

/// Each offset fits in a multiply instruction.
pub open spec fn offsets_fit(e: Seq<(int, u8)>) -> bool {
    forall|j: int| 0 <= j < e.len() ==> -usize::MAX <= #[trigger] e[j].0 <= usize::MAX
}

/// Offsets in strictly decreasing order.
pub open spec fn strictly_decreasing(e: Seq<(int, u8)>) -> bool {
    forall|a: int, b: int| 0 <= a < b < e.len() ==> e[a].0 > e[b].0
}

proof fn lemma_add_u8_value(x: u8, y: u8)
    ensures
        add_u8(x, y) as int == if x + y < 256 {
            x + y
        } else {
            x + y - 256
        },
{
    if x + y < 256 {
        assert((x + y) % 256 == x + y);
    } else {
        assert((x + y) % 256 == x + y - 256);
    }
}

proof fn lemma_add_u8_facts(x: u8, y: u8, z: u8)
    ensures
        add_u8(x, 0) == x,
        add_u8(0, x) == x,
        add_u8(x, y) == add_u8(y, x),
        add_u8(add_u8(x, y), z) == add_u8(x, add_u8(y, z)),
{
    lemma_add_u8_value(x, 0);
    lemma_add_u8_value(0, x);
    lemma_add_u8_value(x, y);
    lemma_add_u8_value(y, x);
    lemma_add_u8_value(add_u8(x, y), z);
    lemma_add_u8_value(y, z);
    lemma_add_u8_value(x, add_u8(y, z));
}

proof fn lemma_total_concat(a: Seq<(int, u8)>, b: Seq<(int, u8)>, i: int)
    ensures
        total(a + b, i) == add_u8(total(a, i), total(b, i)),
    decreases b.len(),
{
    if b.len() == 0 {
        assert(a + b =~= a);
        lemma_add_u8_facts(total(a, i), 0, 0);
    } else {
        lemma_total_concat(a, b.drop_last(), i);
        assert((a + b).drop_last() =~= a + b.drop_last());
        let x = if b.last().0 == i {
            b.last().1
        } else {
            0u8
        };
        lemma_add_u8_facts(total(a, i), total(b.drop_last(), i), x);
    }
}

proof fn lemma_total_single(x: (int, u8), i: int)
    ensures
        total(seq![x], i) == if x.0 == i {
            x.1
        } else {
            0u8
        },
{
    assert(seq![x].drop_last() =~= Seq::<(int, u8)>::empty());
    assert(total(Seq::<(int, u8)>::empty(), i) == 0);
    let y = if x.0 == i {
        x.1
    } else {
        0u8
    };
    lemma_add_u8_facts(y, 0, 0);
}

proof fn lemma_total_add_delta(e: Seq<(int, u8)>, off: int, d: u8, i: int)
    ensures
        total(add_delta(e, off, d), i) == add_u8(
            total(e, i),
            if i == off {
                d
            } else {
                0
            },
        ),
    decreases e.len(),
{
    let x = if i == off {
        d
    } else {
        0u8
    };
    if e.len() == 0 {
        lemma_total_single((off, d), i);
        lemma_add_u8_facts(x, 0, 0);
    } else {
        let rest = e.drop_first();
        assert(e =~= seq![e[0]] + rest);
        lemma_total_concat(seq![e[0]], rest, i);
        lemma_total_single(e[0], i);
        let y = if e[0].0 == i {
            e[0].1
        } else {
            0u8
        };
        if e[0].0 == off {
            let e2 = e.update(0, (off, add_u8(e[0].1, d)));
            assert(e2 =~= seq![(off, add_u8(e[0].1, d))] + rest);
            lemma_total_concat(seq![(off, add_u8(e[0].1, d))], rest, i);
            lemma_total_single((off, add_u8(e[0].1, d)), i);
            lemma_add_u8_facts(y, x, total(rest, i));
            lemma_add_u8_facts(y, total(rest, i), x);
            lemma_add_u8_facts(x, total(rest, i), 0);
            lemma_add_u8_facts(0, total(rest, i), 0);
        } else if e[0].0 < off {
            lemma_total_concat(seq![(off, d)], e, i);
            lemma_total_single((off, d), i);
            lemma_add_u8_facts(x, total(e, i), 0);
        } else {
            lemma_total_add_delta(rest, off, d, i);
            lemma_total_concat(seq![e[0]], add_delta(rest, off, d), i);
            lemma_add_u8_facts(y, total(rest, i), x);
        }
    }
}

proof fn lemma_total_record(e: Seq<(int, u8)>, o: int, p: u8, i: int)
    ensures
        total(record(e, o, p), i) == add_u8(
            total(e, i),
            if i == o {
                p
            } else {
                0
            },
        ),
{
    if p != 0 {
        lemma_total_add_delta(e, o, p, i);
    } else {
        lemma_add_u8_facts(total(e, i), 0, 0);
    }
}

proof fn lemma_add_delta_sorted(e: Seq<(int, u8)>, off: int, d: u8)
    requires
        strictly_decreasing(e),
    ensures
        strictly_decreasing(add_delta(e, off, d)),
        forall|k: int|
            0 <= k < add_delta(e, off, d).len() ==> #[trigger] add_delta(e, off, d)[k].0 == off
                || exists|j: int| 0 <= j < e.len() && e[j].0 == add_delta(e, off, d)[k].0,
    decreases e.len(),
{
    let r = add_delta(e, off, d);
    if e.len() > 0 {
        let rest = e.drop_first();
        if e[0].0 == off {
            assert forall|k: int| 0 <= k < r.len() implies r[k].0 == off || exists|j: int|
                0 <= j < e.len() && e[j].0 == r[k].0 by {
                if k > 0 {
                    assert(e[k].0 == r[k].0);
                }
            }
        } else if e[0].0 < off {
            assert forall|k: int| 0 <= k < r.len() implies r[k].0 == off || exists|j: int|
                0 <= j < e.len() && e[j].0 == r[k].0 by {
                if k > 0 {
                    assert(e[k - 1].0 == r[k].0);
                }
            }
        } else {
            lemma_add_delta_sorted(rest, off, d);
            let rr = add_delta(rest, off, d);
            assert(r == seq![e[0]] + rr);
            assert forall|k: int| 0 <= k < r.len() implies r[k].0 == off || exists|j: int|
                0 <= j < e.len() && e[j].0 == r[k].0 by {
                if k > 0 {
                    assert(r[k] == rr[k - 1]);
                    if rr[k - 1].0 != off {
                        let j = choose|j: int| 0 <= j < rest.len() && rest[j].0 == rr[k - 1].0;
                        assert(e[j + 1].0 == r[k].0);
                    }
                } else {
                    assert(e[0].0 == r[0].0);
                }
            }
            assert forall|a: int, b: int| 0 <= a < b < r.len() implies r[a].0 > r[b].0 by {
                if a == 0 {
                    assert(r[b] == rr[b - 1]);
                    if rr[b - 1].0 != off {
                        let j = choose|j: int| 0 <= j < rest.len() && rest[j].0 == rr[b - 1].0;
                        assert(e[j + 1].0 == rest[j].0);
                    }
                } else {
                    assert(r[a] == rr[a - 1]);
                    assert(r[b] == rr[b - 1]);
                }
            }
        }
    }
}

proof fn lemma_record_sorted(e: Seq<(int, u8)>, o: int, p: u8)
    requires
        strictly_decreasing(e),
    ensures
        strictly_decreasing(record(e, o, p)),
{
    if p != 0 {
        lemma_add_delta_sorted(e, o, p);
    }
}

/// One pass of a body that reads as moves and adds: the pointer ends at the scanned
/// offset, and each cell gains the recorded deltas at its offset plus the delta still
/// pending where the pointer ends.
proof fn lemma_pass(t: Cells, body: Seq<Instruction>)
    requires
        scan(body) is Some,
    ensures
        ({
            let (e, o, p) = scan(body)->Some_0;
            &&& run_moves(t, 0, body).1 == o
            &&& strictly_decreasing(e)
            &&& forall|i: int|
                #![trigger run_moves(t, 0, body).0(i)]
                run_moves(t, 0, body).0(i) == add_u8(t(i), total(record(e, o, p), i))
        }),
    decreases body.len(),
{
    if body.len() == 0 {
        assert forall|i: int| #![trigger run_moves(t, 0, body).0(i)]
            run_moves(t, 0, body).0(i) == add_u8(t(i), total(record(seq![], 0, 0), i)) by {
            lemma_add_u8_facts(t(i), 0, 0);
        }
    } else {
        let b = body.drop_last();
        lemma_pass(t, b);
        let (e, o, p) = scan(b)->Some_0;
        let (t1, p1) = run_moves(t, 0, b);
        match body.last() {
            Instruction::Forward(n) => {
                lemma_record_sorted(e, o, p);
                assert forall|i: int| #![trigger run_moves(t, 0, body).0(i)]
                    run_moves(t, 0, body).0(i) == add_u8(t(i), total(record(record(e, o, p), o + n, 0), i)) by {
                    assert(t1(i) == add_u8(t(i), total(record(e, o, p), i)));
                }
            },
            Instruction::Backward(n) => {
                lemma_record_sorted(e, o, p);
                assert forall|i: int| #![trigger run_moves(t, 0, body).0(i)]
                    run_moves(t, 0, body).0(i) == add_u8(t(i), total(record(record(e, o, p), o - n, 0), i)) by {
                    assert(t1(i) == add_u8(t(i), total(record(e, o, p), i)));
                }
            },
            Instruction::Increment(v) => {
                assert forall|i: int| #![trigger run_moves(t, 0, body).0(i)]
                    run_moves(t, 0, body).0(i) == add_u8(t(i), total(record(e, o, add_u8(p, v)), i)) by {
                    assert(t1(i) == add_u8(t(i), total(record(e, o, p), i)));
                    lemma_total_record(e, o, p, i);
                    lemma_total_record(e, o, add_u8(p, v), i);
                    let x = if i == o {
                        p
                    } else {
                        0u8
                    };
                    let y = if i == o {
                        v
                    } else {
                        0u8
                    };
                    lemma_add_u8_facts(t(i), total(e, i), x);
                    lemma_add_u8_facts(add_u8(t(i), total(e, i)), x, y);
                    lemma_add_u8_facts(t(i), total(e, i), add_u8(x, y));
                    lemma_add_u8_facts(x, y, 0);
                    lemma_add_u8_facts(t(i), add_u8(total(e, i), x), y);
                    lemma_add_u8_facts(total(e, i), x, y);
                }
            },
            _ => {},
        }
    }
}

proof fn lemma_total_absent(e: Seq<(int, u8)>, i: int)
    requires
        forall|j: int| 0 <= j < e.len() ==> e[j].0 != i,
    ensures
        total(e, i) == 0,
    decreases e.len(),
{
    if e.len() > 0 {
        lemma_total_absent(e.drop_last(), i);
    }
}

proof fn lemma_total_at_entry(e: Seq<(int, u8)>, j: int)
    requires
        strictly_decreasing(e),
        0 <= j < e.len(),
    ensures
        total(e, e[j].0) == e[j].1,
    decreases e.len(),
{
    let k = e[j].0;
    let d = e.drop_last();
    if j == e.len() - 1 {
        lemma_total_absent(d, k);
        lemma_add_u8_facts(e[j].1, 0, 0);
    } else {
        lemma_total_at_entry(d, j);
        lemma_add_u8_facts(e[j].1, 0, 0);
    }
}

/// `k` passes of a balanced body add `k` times its total deltas to each cell.
proof fn lemma_passes(t: Cells, body: Seq<Instruction>, k: nat, i: int)
    requires
        scan(body) is Some,
        scan(body)->Some_0.1 == 0,
    ensures
        passes(t, body, k)(i) == ((t(i) + k * total(
            record(scan(body)->Some_0.0, 0, scan(body)->Some_0.2),
            i,
        )) % 256) as u8,
    decreases k,
{
    let (e, o, p) = scan(body)->Some_0;
    let all = record(e, o, p);
    let x = total(all, i);
    if k == 0 {
    } else {
        lemma_passes(t, body, (k - 1) as nat, i);
        let tk = passes(t, body, (k - 1) as nat);
        lemma_pass(tk, body);
        assert(passes(t, body, k)(i) == add_u8(tk(i), x));
        lemma_add_mod_noop(t(i) + (k - 1) * x, x as int, 256);
        assert((t(i) + (k - 1) * x) + x == t(i) + k * x) by (nonlinear_arith);
        assert(x as int % 256 == x as int);
    }
}

/// Running the multiply instructions of some entries adds, at each offset other than
/// zero, the start cell times the entries' total there.
proof fn lemma_run_multiplies(t: Cells, e: Seq<(int, u8)>, i: int)
    requires
        offsets_fit(e),
    ensures
        run_multiplies(t, multiply_instrs(e))(0) == t(0),
        i != 0 ==> run_multiplies(t, multiply_instrs(e))(i) == ((t(i) + t(0) * total(e, i))
            % 256) as u8,
    decreases e.len(),
{
    if e.len() == 0 {
        assert(multiply_instrs(e) =~= Seq::<Instruction>::empty());
        assert(total(e, i) == 0);
        assert(t(0) as int * 0int == 0);
    } else {
        let d = e.drop_last();
        let x = e.last();
        assert(forall|j: int| 0 <= j < d.len() ==> d[j] == e[j]);
        lemma_run_multiplies(t, d, i);
        let a = multiply_instrs(d);
        let m = multiply_instr(x);
        let t1 = run_multiplies(t, a);
        let y = if x.0 == i {
            x.1
        } else {
            0u8
        };
        let prev = total(d, i);
        assert(multiply_instrs(e) == a + m);
        if m.len() == 0 {
            assert(a + m =~= a);
        } else {
            assert((a + m).drop_last() =~= a);
        }
        if i != 0 {
            assert(run_multiplies(t, a + m)(i) == if x.0 == i && x.0 != 0 && x.1 != 0 {
                add_u8(t1(i), ((t(0) * x.1) % 256) as u8)
            } else {
                t1(i)
            });
            lemma_mul_add_step(t(i) as int, t(0) as int, prev, y);
            lemma_add_u8_facts(prev, 0, 0);
        }
    }
}

proof fn lemma_mul_add_step(ti: int, c: int, prev: u8, y: u8)
    requires
        0 <= ti < 256,
        0 <= c < 256,
    ensures
        add_u8(((ti + c * prev) % 256) as u8, ((c * y) % 256) as u8) == ((ti + c * add_u8(
            prev,
            y,
        )) % 256) as u8,
        y == 0 ==> ((ti + c * prev) % 256) as u8 == ((ti + c * add_u8(prev, y)) % 256) as u8,
{
    lemma_add_mod_noop(ti + c * prev, c * y, 256);
    lemma_add_mod_noop(ti, c * (prev + y), 256);
    lemma_add_mod_noop(ti, c * ((prev + y) % 256), 256);
    assert(c * (prev + y) == c * prev + c * y) by (nonlinear_arith);
    vstd::arithmetic::div_mod::lemma_mul_mod_noop_right(c, prev + y, 256);
    assert((ti + c * prev) + c * y == ti + c * (prev + y));
    assert(0 <= (ti + c * prev) % 256 < 256);
    assert(0 <= (c * y) % 256 < 256);
    if y == 0 {
        assert(c * y == 0) by (nonlinear_arith)
            requires
                y == 0,
        ;
        assert((prev + y) % 256 == prev);
    }
}

/// A loop that compiles to multiplies agrees with them. Started on a cell holding
/// `c`, its body runs exactly `c` times before the cell is zero, and then every cell
/// holds what the multiply instructions followed by `SetZero` leave. This speaks of
/// the cells around the pointer only, on a tape without ends; it needs each offset
/// to fit in an instruction.
pub proof fn lemma_multiply_rewrite_sound(body: Seq<Instruction>, t: Cells)
    requires
        multipliers(body) is Some,
        offsets_fit(multipliers(body)->Some_0),
    ensures
        forall|k: nat| k < t(0) ==> #[trigger] passes(t, body, k)(0) != 0,
        passes(t, body, t(0) as nat)(0) == 0,
        forall|i: int|
            #![trigger passes(t, body, t(0) as nat)(i)]
            passes(t, body, t(0) as nat)(i) == run_multiplies(
                t,
                multiply_instrs(multipliers(body)->Some_0).push(Instruction::SetZero),
            )(i),
{
    let (e, o, p) = scan(body)->Some_0;
    let all = multipliers(body)->Some_0;
    assert(all == record(e, o, p));
    lemma_pass(t, body);
    lemma_record_sorted(e, o, p);
    let j0 = choose|j: int| 0 <= j < all.len() && all[j] == (0int, 255u8);
    lemma_total_at_entry(all, j0);
    assert(total(all, 0) == 255);
    let c = t(0) as int;
    assert forall|k: nat| k < t(0) implies #[trigger] passes(t, body, k)(0) != 0 by {
        lemma_passes(t, body, k, 0);
        lemma_mod_multiples_vanish(k as int, c - k, 256);
        assert(c + k * 255 == 256 * k + (c - k)) by (nonlinear_arith);
    }
    lemma_passes(t, body, t(0) as nat, 0);
    lemma_mod_multiples_vanish(c, 0, 256);
    assert(c + c * 255 == 256 * c + 0) by (nonlinear_arith);
    let ms = multiply_instrs(all);
    assert(ms.push(Instruction::SetZero).drop_last() =~= ms);
    assert forall|i: int|
        #![trigger passes(t, body, t(0) as nat)(i)]
        passes(t, body, t(0) as nat)(i) == run_multiplies(t, ms.push(Instruction::SetZero))(i) by {
        lemma_passes(t, body, t(0) as nat, i);
        lemma_run_multiplies(t, all, i);
        if i != 0 {
            assert(c * total(all, i) == t(0) as nat * total(all, i));
        }
    }
}


/// A loop whose body only adds one, or only takes one, always ends with its cell at
/// zero, whatever the cell held; so `SetZero` does what such a loop does.
pub proof fn lemma_clear_loop_ends(c: u8)
    ensures
        increment_loop_ends(c, 1),
        increment_loop_ends(c, 255),
{
    let k1: int = if c == 0 {
        0
    } else {
        256 - c
    };
    assert(((c + k1 * (1u8)) % 256) == 0);
    let k2: int = c as int;
    assert(c + k2 * 255 == 256 * k2 + 0) by (nonlinear_arith)
        requires
            k2 == c,
    ;
    lemma_mod_multiples_vanish(k2, 0, 256);
    assert(((c + k2 * (255u8)) % 256) == 0);
}


/// Adding `v` to `c` again and again reaches zero after some number of additions
/// exactly when it does within the first 256, which is what `IncrementLoop` checks.
pub proof fn lemma_increment_loop_period(c: u8, v: u8, k: nat)
    requires
        (c + k * v) % 256 == 0,
    ensures
        increment_loop_ends(c, v),
{
    let r = k as int % 256;
    let q = k as int / 256;
    vstd::arithmetic::div_mod::lemma_fundamental_div_mod(k as int, 256);
    assert(c + k * v == 256 * (q * v) + (c + r * v)) by (nonlinear_arith)
        requires
            k == 256 * q + r,
    ;
    lemma_mod_multiples_vanish(q * v, c + r * v, 256);
    assert(((c + r * v) % 256) == 0);
}


/// Exactly `k` steps of the machine that neither write, read nor stop:
/// the machine after them, or `None` if a step fails or does anything else.
pub open spec fn quiet_steps(m: MachineView, prog: Seq<Instruction>, k: nat) -> Option<
    MachineView,
>
    decreases k,
{
    if k == 0 {
        Some(m)
    } else {
        match step_spec(m, prog) {
            Ok((m2, Event::Continue)) => quiet_steps(m2, prog, (k - 1) as nat),
            _ => None,
        }
    }
}

/// The three instructions of a loop whose body is one right move by `n`, at `s`.
pub open spec fn forward_move_loop_at(prog: Seq<Instruction>, s: int, n: usize) -> bool {
    &&& 0 <= s
    &&& s + 3 <= usize::MAX
    &&& s + 2 < prog.len()
    &&& prog[s] == Instruction::LoopStart((s + 3) as usize)
    &&& prog[s + 1] == Instruction::Forward(n)
    &&& prog[s + 2] == Instruction::LoopEnd((s + 1) as usize)
    &&& n > 0
}

proof fn lemma_forward_body(prog: Seq<Instruction>, s: int, n: usize, t: Seq<u8>, p: int)
    requires
        forward_move_loop_at(prog, s, n),
        0 <= p < t.len(),
        t[p] != 0,
        reachable(t, scan_right(t, p, n as int)),
    ensures
        exists|k: nat|
            #[trigger] quiet_steps(MachineView { tape: t, pointer: p, pc: s + 1 }, prog, k) == Some(
                MachineView {
                    tape: grow(t, scan_right(t, p, n as int)),
                    pointer: scan_right(t, p, n as int),
                    pc: s + 3,
                },
            ),
    decreases t.len() - p,
{
    let q = scan_right(t, p, n as int);
    let p2 = p + n;
    let m1 = MachineView { tape: t, pointer: p, pc: s + 1 };
    let m2 = MachineView { tape: grow(t, p2), pointer: p2, pc: s + 2 };
    let fin = MachineView { tape: grow(t, q), pointer: q, pc: s + 3 };
    assert(step_spec(m1, prog) == Ok::<(MachineView, Event), crate::interpreter::ExecError>(
        (m2, Event::Continue),
    ));
    if p2 >= t.len() {
        assert(q == p2);
        assert(grow(t, p2)[p2] == 0u8);
        assert(step_spec(m2, prog) == Ok::<(MachineView, Event), crate::interpreter::ExecError>(
            (fin, Event::Continue),
        ));
        assert(quiet_steps(fin, prog, 0) == Some(fin));
        assert(quiet_steps(m2, prog, 1) == Some(fin));
        assert(quiet_steps(m1, prog, 2) == Some(fin));
    } else if t[p2] == 0 {
        assert(q == p2);
        assert(step_spec(m2, prog) == Ok::<(MachineView, Event), crate::interpreter::ExecError>(
            (fin, Event::Continue),
        ));
        assert(quiet_steps(fin, prog, 0) == Some(fin));
        assert(quiet_steps(m2, prog, 1) == Some(fin));
        assert(quiet_steps(m1, prog, 2) == Some(fin));
    } else {
        assert(q == scan_right(t, p2, n as int));
        let m3 = MachineView { tape: t, pointer: p2, pc: s + 1 };
        assert(step_spec(m2, prog) == Ok::<(MachineView, Event), crate::interpreter::ExecError>(
            (m3, Event::Continue),
        ));
        lemma_forward_body(prog, s, n, t, p2);
        let k = choose|k: nat| quiet_steps(m3, prog, k) == Some(fin);
        assert(quiet_steps(m2, prog, k + 1) == Some(fin));
        assert(quiet_steps(m1, prog, k + 2) == Some(fin));
    }
}

/// A loop whose body is one right move by `n`, run step by step, ends with the same
/// tape and pointer as the one `ForwardLoop(n)` step that replaces it, where the tape
/// can grow to where the scan stops.
pub proof fn lemma_forward_loop_sound(prog: Seq<Instruction>, s: int, n: usize, t: Seq<u8>, p: int)
    requires
        forward_move_loop_at(prog, s, n),
        0 <= p < t.len(),
        reachable(t, scan_right(t, p, n as int)),
    ensures
        exists|k: nat|
            #[trigger] quiet_steps(MachineView { tape: t, pointer: p, pc: s }, prog, k) == Some(
                MachineView {
                    tape: grow(t, scan_right(t, p, n as int)),
                    pointer: scan_right(t, p, n as int),
                    pc: s + 3,
                },
            ),
        step_spec(
            MachineView { tape: t, pointer: p, pc: s },
            prog.update(s, Instruction::ForwardLoop(n)),
        ) == Ok::<(MachineView, Event), crate::interpreter::ExecError>(
            (
                MachineView {
                    tape: grow(t, scan_right(t, p, n as int)),
                    pointer: scan_right(t, p, n as int),
                    pc: s + 1,
                },
                Event::Continue,
            ),
        ),
{
    let q = scan_right(t, p, n as int);
    let m0 = MachineView { tape: t, pointer: p, pc: s };
    let fin = MachineView { tape: grow(t, q), pointer: q, pc: s + 3 };
    if t[p] == 0 {
        assert(q == p);
        assert(grow(t, p) == t);
        assert(step_spec(m0, prog) == Ok::<(MachineView, Event), crate::interpreter::ExecError>(
            (fin, Event::Continue),
        ));
        assert(quiet_steps(fin, prog, 0) == Some(fin));
        assert(quiet_steps(m0, prog, 1) == Some(fin));
    } else {
        let m1 = MachineView { tape: t, pointer: p, pc: s + 1 };
        assert(step_spec(m0, prog) == Ok::<(MachineView, Event), crate::interpreter::ExecError>(
            (m1, Event::Continue),
        ));
        lemma_forward_body(prog, s, n, t, p);
        let k = choose|k: nat| quiet_steps(m1, prog, k) == Some(fin);
        assert(quiet_steps(m0, prog, k + 1) == Some(fin));
    }
}

} // verus!
