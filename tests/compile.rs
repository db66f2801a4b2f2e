use brainfuck::compile::{CompileError, Compiler, Instruction};
use brainfuck::lexer::lex;

fn compile(code: &str) -> Vec<Instruction> {
    Compiler::new(lex(code)).compile().unwrap()
}

fn compile_err(code: &str) -> CompileError {
    Compiler::new(lex(code)).compile().unwrap_err()
}

#[test]
fn set_zero_works() {
    assert!(
        matches!(compile(",[-].")[1], Instruction::SetZero),
        "did not optimise zero"
    );
}

#[test]
fn dead_code_removed() {
    assert!(
        compile(".[+].[-].[>].-+><.")
            .iter()
            .all(|instruction| matches!(instruction, Instruction::Output | Instruction::Stop)),
        "did not remove dead code"
    );
}

#[test]
fn backward_works() {
    assert!(
        matches!(compile("<<<")[0], Instruction::Backward(3)),
        "did not go backward"
    );
    assert!(
        matches!(compile("<<<<<")[0], Instruction::Backward(5)),
        "did not go backward"
    );
}

#[test]
fn forward_works() {
    assert!(
        matches!(compile(">>>")[0], Instruction::Forward(3)),
        "did not go forward"
    );
    assert!(
        matches!(compile(">>>>>")[0], Instruction::Forward(5)),
        "did not go forward"
    );
}

#[test]
fn decrement_works() {
    assert!(
        matches!(compile(">-")[1], Instruction::Increment(u8::MAX)),
        "did not decrement"
    );
}

#[test]
fn multiply_forward_works() {
    assert!(
        matches!(
            compile(",[->>+++<<]")[1],
            Instruction::MultiplyForward(2, 3)
        ),
        "did not detect multiply"
    );
    assert!(
        matches!(
            compile(",[>>+++<<-]")[1],
            Instruction::MultiplyForward(2, 3)
        ),
        "did not detect multiply"
    );
    assert!(
        matches!(
            compile(
                "
            ,
            [
                >>
                +++
                >>
                +
                <<<<

                +

                >>>>
                -
                <<<<

                --
            ]
            "
            )[1],
            Instruction::MultiplyForward(2, 3)
        ),
        "did not detect multiply"
    );

    assert!(
        !matches!(
            compile(",[>>++<-]")[1],
            Instruction::MultiplyForward(..)
        ),
        "false positive"
    );
}

#[test]
fn dead_code_exact_list() {
    assert_eq!(
        compile(".[+].[-].[>].-+><."),
        vec![
            Instruction::Output,
            Instruction::Output,
            Instruction::Output,
            Instruction::Output,
            Instruction::Output,
            Instruction::Stop
        ]
    );
}

#[test]
fn clear_cell_with_plus() {
    assert_eq!(
        compile(",[+]."),
        vec![
            Instruction::Input,
            Instruction::SetZero,
            Instruction::Output,
            Instruction::Stop
        ]
    );
}

#[test]
fn run_folding_exact_lists() {
    assert_eq!(compile("<<<"), vec![Instruction::Backward(3), Instruction::Stop]);
    assert_eq!(compile(">>>>>"), vec![Instruction::Forward(5), Instruction::Stop]);
    assert_eq!(
        compile(">-"),
        vec![
            Instruction::Forward(1),
            Instruction::Increment(255),
            Instruction::Stop
        ]
    );
}

#[test]
fn opposite_moves_cancel() {
    assert_eq!(compile("><<>"), vec![Instruction::Stop]);
}

#[test]
fn increments_wrap_to_a_byte() {
    let code = ",".to_string() + &"+".repeat(300);
    assert_eq!(
        compile(&code),
        vec![Instruction::Input, Instruction::Increment(44), Instruction::Stop]
    );
}

#[test]
fn known_cell_becomes_set() {
    assert_eq!(compile("---"), vec![Instruction::SetCell(253), Instruction::Stop]);
}

#[test]
fn multiply_full_list_sorted_by_offset() {
    assert_eq!(
        compile(",[-<+>>>++<<]"),
        vec![
            Instruction::Input,
            Instruction::MultiplyForward(2, 2),
            Instruction::MultiplyBackward(1, 1),
            Instruction::SetZero,
            Instruction::Stop
        ]
    );
}

#[test]
fn multiply_with_cancelled_delta_drops_entry() {
    assert_eq!(
        compile(",[->+<>-<]"),
        vec![Instruction::Input, Instruction::SetZero, Instruction::Stop]
    );
}

#[test]
fn no_false_multiply_exact() {
    let out = compile(",[>>++<-]");
    assert!(out
        .iter()
        .all(|i| !matches!(i, Instruction::MultiplyForward(..))));
    assert_eq!(out[1], Instruction::LoopStart(7));
    assert_eq!(out[6], Instruction::LoopEnd(2));
}

#[test]
fn loop_targets_match() {
    let out = compile(",[.[-]>,]");
    for (i, ins) in out.iter().enumerate() {
        if let Instruction::LoopStart(j) = ins {
            if *j >= 1 && *j - 1 < out.len() {
                if let Instruction::LoopEnd(k) = out[*j - 1] {
                    assert_eq!(k, i + 1);
                }
            }
        }
    }
    assert_eq!(
        out,
        vec![
            Instruction::Input,
            Instruction::LoopStart(7),
            Instruction::Output,
            Instruction::SetZero,
            Instruction::Forward(1),
            Instruction::Input,
            Instruction::LoopEnd(2),
            Instruction::Stop
        ]
    );
}

#[test]
fn single_stop_at_end() {
    for code in ["", "+", ",[->+<]", "+[>]<.", "x y z"] {
        let out = compile(code);
        assert_eq!(out.last(), Some(&Instruction::Stop));
        assert_eq!(
            out.iter().filter(|i| matches!(i, Instruction::Stop)).count(),
            1
        );
    }
}

#[test]
fn comments_only() {
    assert_eq!(compile("hello world\n"), vec![Instruction::Stop]);
    assert_eq!(compile(""), vec![Instruction::Stop]);
}

#[test]
fn empty_loop_jumps_past_its_end() {
    assert_eq!(
        compile(",[]"),
        vec![
            Instruction::Input,
            Instruction::LoopStart(3),
            Instruction::LoopEnd(2),
            Instruction::Stop
        ]
    );
}

#[test]
fn whole_turn_of_adds_emits_nothing() {
    let code = ">".to_string() + &"+".repeat(256);
    assert_eq!(compile(&code), vec![Instruction::Forward(1), Instruction::Stop]);
    let code = ",".to_string() + &"-".repeat(512);
    assert_eq!(compile(&code), vec![Instruction::Input, Instruction::Stop]);
}

#[test]
fn known_cell_turn_is_still_set() {
    let code = "+".repeat(256);
    assert_eq!(compile(&code), vec![Instruction::SetCell(0), Instruction::Stop]);
}

#[test]
fn single_instruction_loops() {
    assert_eq!(
        compile(",[>>]"),
        vec![Instruction::Input, Instruction::ForwardLoop(2), Instruction::Stop]
    );
    assert_eq!(
        compile(",[<]"),
        vec![Instruction::Input, Instruction::BackwardLoop(1), Instruction::Stop]
    );
    assert_eq!(
        compile(",[++]"),
        vec![Instruction::Input, Instruction::IncrementLoop(2), Instruction::Stop]
    );
    assert_eq!(
        compile(",[.]"),
        vec![
            Instruction::Input,
            Instruction::LoopStart(4),
            Instruction::Output,
            Instruction::LoopEnd(2),
            Instruction::Stop
        ]
    );
}

#[test]
fn unclosed_loop_is_an_error() {
    assert_eq!(compile_err("+["), CompileError::UnclosedLoop);
    assert_eq!(compile_err("[+"), CompileError::UnclosedLoop);
    assert_eq!(compile_err("[[]"), CompileError::UnclosedLoop);
}

#[test]
fn loop_end_without_start_is_an_error() {
    assert_eq!(compile_err("+]"), CompileError::LoopEndWithoutStart);
    assert_eq!(compile_err("]["), CompileError::LoopEndWithoutStart);
}
