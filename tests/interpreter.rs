use brainfuck::compile::{Compiler, Instruction};
use brainfuck::interpreter::{run, Event, ExecError, Machine};
use brainfuck::lexer::lex;
use brainfuck::INITIAL_MEMORY_CAPACITY;

fn compile(code: &str) -> Vec<Instruction> {
    Compiler::new(lex(code)).compile().unwrap()
}

fn run_to_end(prog: &Vec<Instruction>, input: &[u8]) -> Result<(Vec<u8>, Machine), ExecError> {
    run(prog, &input.to_vec(), 1_000_000).map(|finished| finished.expect("ran out of steps"))
}

#[test]
fn fresh_machine() {
    let machine = Machine::new();
    assert_eq!(machine.tape, vec![0u8; INITIAL_MEMORY_CAPACITY]);
    assert_eq!(machine.pointer, 0);
    assert_eq!(machine.pc, 0);
}

#[test]
fn cat_fragment() {
    let (output, machine) = run_to_end(&compile(",."), b"A").unwrap();
    assert_eq!(output, b"A".to_vec());
    assert_eq!(machine.tape[0], 65);
}

#[test]
fn multiply_loop_program() {
    let prog = compile("++++++++[>++++++++<-]>+++++++++.");
    assert_eq!(
        prog,
        vec![
            Instruction::SetCell(8),
            Instruction::MultiplyForward(1, 8),
            Instruction::SetZero,
            Instruction::Forward(1),
            Instruction::Increment(9),
            Instruction::Output,
            Instruction::Stop
        ]
    );
    let (output, _) = run_to_end(&prog, b"").unwrap();
    assert_eq!(output, vec![8 * 8 + 9]);
}

#[test]
fn letter_a_program() {
    let (output, _) = run_to_end(&compile("++++++++[>++++++++<-]>+."), b"").unwrap();
    assert_eq!(output, vec![0x41]);
}

#[test]
fn clear_then_write() {
    let prog = compile("++++[-]+.");
    assert_eq!(
        prog,
        vec![
            Instruction::SetCell(4),
            Instruction::SetZero,
            Instruction::SetCell(1),
            Instruction::Output,
            Instruction::Stop
        ]
    );
    let (output, _) = run_to_end(&prog, b"").unwrap();
    assert_eq!(output, vec![0x01]);
}

#[test]
fn dead_loop_at_start() {
    let prog = compile("[+++]+.");
    assert_eq!(
        prog,
        vec![Instruction::SetCell(1), Instruction::Output, Instruction::Stop]
    );
    let (output, _) = run_to_end(&prog, b"").unwrap();
    assert_eq!(output, vec![0x01]);
}

#[test]
fn unbounded_right_scan() {
    let prog = compile("+>+>+>[>]");
    assert_eq!(prog[6], Instruction::ForwardLoop(1));
    let (_, machine) = run_to_end(&prog, b"").unwrap();
    assert_eq!(&machine.tape[0..4], &[1, 1, 1, 0]);
    assert_eq!(machine.pointer, 3);
}

#[test]
fn right_scan_grows_tape() {
    let prog = compile(",[>>>>>>>>>>>>>>>>>>>>>>>>>>>>>>>>>>>>>>>>>>>>>>>>>>>>>>>>]");
    let (_, machine) = run_to_end(&prog, b"x").unwrap();
    assert_eq!(machine.pointer, 56);
    assert_eq!(machine.tape.len(), 56 + 16);
}

#[test]
fn forward_grows_tape() {
    let prog = compile(&">".repeat(40));
    let (_, machine) = run_to_end(&prog, b"").unwrap();
    assert_eq!(machine.pointer, 40);
    assert_eq!(machine.tape.len(), 56);
    assert!(machine.tape.iter().all(|c| *c == 0));
}

#[test]
fn left_scan_stops_at_zero() {
    let prog = compile(">+>+>+[<]");
    let (_, machine) = run_to_end(&prog, b"").unwrap();
    assert_eq!(machine.pointer, 0);
}

#[test]
fn multiply_backward_runs() {
    let (_, machine) = run_to_end(&compile(">,[-<+++>]"), &[5]).unwrap();
    assert_eq!(machine.tape[0], 15);
    assert_eq!(machine.tape[1], 0);
}

#[test]
fn multiply_wraps() {
    let (_, machine) = run_to_end(&compile(",[->+++<]"), &[100]).unwrap();
    assert_eq!(machine.tape[1], 44);
}

#[test]
fn increment_loop_reaches_zero() {
    let prog = compile("++[++++++]");
    assert_eq!(prog[1], Instruction::IncrementLoop(6));
    let (_, machine) = run_to_end(&prog, b"").unwrap();
    assert_eq!(machine.tape[0], 0);
}

#[test]
fn increment_loop_never_zero() {
    let prog = compile("+[++]");
    assert_eq!(run_to_end(&prog, b"").unwrap_err(), ExecError::InfiniteLoopDetected);
}

#[test]
fn move_below_zero() {
    assert_eq!(run_to_end(&compile("<"), b"").unwrap_err(), ExecError::BackwardUnderflow);
    assert_eq!(
        run_to_end(&compile(",[<]"), b"x").unwrap_err(),
        ExecError::BackwardUnderflow
    );
    assert_eq!(
        run_to_end(&compile(",[-<+>]"), b"x").unwrap_err(),
        ExecError::BackwardUnderflow
    );
}

#[test]
fn input_exhausted() {
    assert_eq!(run_to_end(&compile(",,"), b"a").unwrap_err(), ExecError::InputExhausted);
}

#[test]
fn pointer_past_memory() {
    let prog = vec![Instruction::Forward(usize::MAX), Instruction::Stop];
    assert_eq!(run_to_end(&prog, b"").unwrap_err(), ExecError::TapeOverflow);
}

#[test]
fn generic_loop_runs() {
    let (output, _) = run_to_end(&compile(",[.-]"), &[3]).unwrap();
    assert_eq!(output, vec![3, 2, 1]);
}

#[test]
fn step_events() {
    let prog = compile(",.");
    let mut machine = Machine::new();
    assert_eq!(machine.step(&prog), Ok(Event::Input));
    assert_eq!(machine.pc, 0);
    machine.provide_input(&prog, 7);
    assert_eq!(machine.pc, 1);
    assert_eq!(machine.step(&prog), Ok(Event::Output(7)));
    assert_eq!(machine.step(&prog), Ok(Event::Halt));
    assert_eq!(machine.pc, 2);
}

#[test]
fn step_budget_runs_out() {
    let prog = compile("+[]");
    assert_eq!(
        prog,
        vec![
            Instruction::SetCell(1),
            Instruction::LoopStart(3),
            Instruction::LoopEnd(2),
            Instruction::Stop
        ]
    );
    assert!(run(&prog, &vec![], 100).unwrap().is_none());
}

#[test]
fn run_reports_output_in_order() {
    let (output, machine) = run(&compile(",>,<.>."), &vec![1, 2], 100)
        .unwrap()
        .unwrap();
    assert_eq!(output, vec![1, 2]);
    assert_eq!(machine.pointer, 1);
    assert_eq!(machine.pc, 7);
}

fn naive(source: &str, input: &[u8]) -> (Vec<u8>, Vec<u8>) {
    let code: Vec<char> = source.chars().collect();
    let mut tape = vec![0u8; 64];
    let mut pointer = 0usize;
    let mut pc = 0usize;
    let mut next_input = 0usize;
    let mut output = Vec::new();
    while pc < code.len() {
        match code[pc] {
            '>' => pointer += 1,
            '<' => pointer -= 1,
            '+' => tape[pointer] = tape[pointer].wrapping_add(1),
            '-' => tape[pointer] = tape[pointer].wrapping_sub(1),
            '.' => output.push(tape[pointer]),
            ',' => {
                tape[pointer] = input[next_input];
                next_input += 1;
            }
            '[' if tape[pointer] == 0 => {
                let mut depth = 1;
                while depth > 0 {
                    pc += 1;
                    match code[pc] {
                        '[' => depth += 1,
                        ']' => depth -= 1,
                        _ => {}
                    }
                }
            }
            ']' if tape[pointer] != 0 => {
                let mut depth = 1;
                while depth > 0 {
                    pc -= 1;
                    match code[pc] {
                        ']' => depth += 1,
                        '[' => depth -= 1,
                        _ => {}
                    }
                }
            }
            _ => {}
        }
        pc += 1;
    }
    (output, tape)
}

#[test]
fn optimized_matches_naive() {
    let cases: [(&str, &[u8]); 10] = [
        (",[].", &[0]),
        (">[]+.", b""),
        ("++++++++[>++++++++<-]>+++++++++.", b""),
        (",[->+>++<<]>.>.", &[7]),
        (",[->>+++<<]>>.", &[200]),
        (",>,<[->>+<<]>[->+<]>.", &[3, 4]),
        (">+>+>+>[>]<[<]>>.", b""),
        (",[.-]", &[5]),
        ("++[>+++[>++<-]<-]>>.", b""),
        ("[+++]++++[-]+.,.", &[9]),
    ];
    for (source, input) in cases {
        let (expected_output, expected_tape) = naive(source, input);
        let (output, machine) = run_to_end(&compile(source), input).unwrap();
        assert_eq!(output, expected_output, "{source}");
        for (i, cell) in expected_tape.iter().enumerate() {
            let got = machine.tape.get(i).copied().unwrap_or(0);
            assert_eq!(got, *cell, "{source} cell {i}");
        }
    }
}

#[test]
fn empty_loop_on_zero_cell_is_skipped() {
    let (output, _) = run_to_end(&compile(",[]."), &[0]).unwrap();
    assert_eq!(output, vec![0]);
    let (_, machine) = run_to_end(&compile(">[]"), b"").unwrap();
    assert_eq!(machine.pointer, 1);
}
