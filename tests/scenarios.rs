use bropt::{compile, get_offset, run_bounded, run_with_state, InstType, RunError};

fn run(code: &str, length: usize, input: &[u8]) -> (Vec<u8>, Vec<u8>, usize) {
    let prog = compile(code).expect("compiles");
    run_with_state(prog, length, input).expect("runs")
}

#[test]
fn move_loop_adds_into_next_cell() {
    let (_, tape, dp) = run("++>+++<[->+<]", 8, &[]);
    assert_eq!(tape[0], 0);
    assert_eq!(tape[1], 5);
    assert_eq!(dp, 0);
}

#[test]
fn multiply_loop_outputs_product() {
    let (out, _, _) = run("+++++[>+++++<-]>.", 16, &[]);
    assert_eq!(out, vec![25u8]);
}

#[test]
fn cat_echoes_input() {
    let (out, _, _) = run(">,[.,]", 16, b"hello");
    assert_eq!(out, b"hello".to_vec());
}

#[test]
fn nested_reset_loop_terminates() {
    let (_, tape, _) = run("++[>++[-]<-]", 8, &[]);
    assert_eq!(tape[0], 0);
    assert_eq!(tape[1], 0);
}

#[test]
fn clear_loop_resets_cell() {
    let prog = compile("[-]").unwrap();
    assert_eq!(prog.len(), 1);
    assert_eq!(prog[0].cmd, InstType::SetCell);
    assert_eq!(prog[0].inc, 0);
    let code = format!("{}[-]", "+".repeat(42));
    let (_, tape, _) = run(&code, 4, &[]);
    assert_eq!(tape[0], 0);
    let (_, tape, _) = run(&"+".repeat(42), 4, &[]);
    assert_eq!(tape[0], 42);
}

#[test]
fn seek_loop_finds_zero_cell() {
    let prog = compile("[>>]").unwrap();
    assert_eq!(prog.len(), 1);
    assert_eq!(prog[0].cmd, InstType::Seek);
    assert_eq!(prog[0].arg, 2);
    let (_, tape, dp) = run("+>>+>>+<<<<[>>]", 8, &[]);
    assert_eq!(&tape[..7], &[1, 0, 1, 0, 1, 0, 0]);
    assert_eq!(dp, 6);
}

#[test]
fn unmatched_brackets_are_rejected() {
    assert_eq!(compile("[").unwrap_err(), "Unmatched [");
    assert_eq!(compile("]").unwrap_err(), "Unmatched ]");
    assert_eq!(compile("[]]").unwrap_err(), "Unmatched ]");
    assert_eq!(compile("[[]").unwrap_err(), "Unmatched [");
    assert_eq!(compile("][").unwrap_err(), "Unmatched ]");
    for k in 0..6 {
        assert!(compile(&"[]".repeat(k)).is_ok());
    }
}

#[test]
fn jumps_are_linked() {
    let prog = compile("+[>,[.-]<.]>[<]").unwrap();
    for (i, inst) in prog.iter().enumerate() {
        if inst.cmd == InstType::Open {
            let j = inst.arg as usize;
            assert_eq!(prog[j].cmd, InstType::Close);
            assert_eq!(prog[j].arg as usize, i);
        }
        if inst.cmd == InstType::Close {
            let j = inst.arg as usize;
            assert_eq!(prog[j].cmd, InstType::Open);
            assert_eq!(prog[j].arg as usize, i);
        }
    }
}

#[test]
fn comments_are_ignored() {
    let (out, _, _) = run("a+b+c+ hello .", 4, &[]);
    assert_eq!(out, vec![3u8]);
}

#[test]
fn input_at_end_reads_zero() {
    let (_, tape, _) = run("+,", 4, &[]);
    assert_eq!(tape[0], 0);
}

#[test]
fn wrapping_cells() {
    let (_, tape, _) = run("-", 4, &[]);
    assert_eq!(tape[0], 255);
    let (_, tape, _) = run(&"+".repeat(257), 4, &[]);
    assert_eq!(tape[0], 1);
}

#[test]
fn moving_left_of_the_tape_is_an_error() {
    let prog = compile("<+").unwrap();
    assert_eq!(run_with_state(prog, 4, &[]), Err(RunError::OutOfBounds));
    let prog = compile(">>>>+").unwrap();
    assert_eq!(run_with_state(prog, 4, &[]), Err(RunError::OutOfBounds));
}

#[test]
fn step_budget_is_enforced() {
    let prog = compile("+[]").unwrap();
    assert_eq!(run_bounded(&prog, 4, &[], 1000), Err(RunError::StepLimit));
    let prog = compile("+++").unwrap();
    assert!(run_bounded(&prog, 4, &[], 1000).is_ok());
}

#[test]
fn offset_of_negative_multiplication() {
    let prog = compile("+[<+++>-]").unwrap();
    assert!(prog.iter().any(|i| i.cmd == InstType::Mulzero && i.arg == -1 && i.inc == 3));
    assert_eq!(get_offset(&prog), 1);
    assert_eq!(get_offset(&compile("+[>+<-]").unwrap()), 0);
}

#[test]
fn hello_world() {
    let code = "++++++++[>++++[>++>+++>+++>+<<<<-]>+>+>->>+[<]<-]>>.>---.+++++++..+++.>>.<-.<.+++.------.--------.>>+.>++.";
    let (out, _, _) = run(code, 64, &[]);
    assert_eq!(out, b"Hello World!\n".to_vec());
}
