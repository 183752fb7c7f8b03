use bropt::{compile, run_with_state};

/// A direct interpreter of the source, for comparison.
fn reference(code: &str, length: usize, input: &[u8]) -> (Vec<u8>, Vec<u8>, usize) {
    let code: Vec<char> = code.chars().filter(|c| "+-<>.,[]".contains(*c)).collect();
    let mut jump = vec![0usize; code.len()];
    let mut stack = Vec::new();
    for (i, c) in code.iter().enumerate() {
        if *c == '[' {
            stack.push(i);
        } else if *c == ']' {
            let j = stack.pop().unwrap();
            jump[i] = j;
            jump[j] = i;
        }
    }
    let mut tape = vec![0u8; length];
    let (mut dp, mut ip, mut k) = (0usize, 0usize, 0usize);
    let mut out = Vec::new();
    while ip < code.len() {
        match code[ip] {
            '+' => tape[dp] = tape[dp].wrapping_add(1),
            '-' => tape[dp] = tape[dp].wrapping_sub(1),
            '>' => dp += 1,
            '<' => dp -= 1,
            '.' => out.push(tape[dp]),
            ',' => {
                tape[dp] = if k < input.len() { input[k] } else { 0 };
                k = (k + 1).min(input.len());
            }
            '[' => {
                if tape[dp] == 0 {
                    ip = jump[ip];
                }
            }
            _ => {
                if tape[dp] != 0 {
                    ip = jump[ip];
                }
            }
        }
        ip += 1;
    }
    (out, tape, dp)
}

fn same(code: &str, input: &[u8]) {
    let prog = compile(code).unwrap();
    let got = run_with_state(prog, 64, input).unwrap();
    let want = reference(code, 64, input);
    assert_eq!(got.0, want.0, "output of {}", code);
    assert_eq!(got.1, want.1, "tape of {}", code);
    assert_eq!(got.2, want.2, "pointer of {}", code);
}

#[test]
fn optimized_runs_match_direct_interpretation() {
    same("++>+++<[->+<]", b"");
    same("+++++[>+++++<-]>.", b"");
    same(">,[.,]", b"hello");
    same("++[>++[-]<-]", b"");
    same("+>>+>>+<<<<[>>]", b"");
    same("+++[>+++[>++<-]<-]>>.", b"");
    same(">>+++[<<++>>-]<<[->>+>+<<<]>>>.<.", b"");
    same(",[>+>++<<-]>.>.", b"\x07");
    same("+++[>+<-]>[>+>+<<-]>[-]>[<+>-]<.", b"");
    same("+[>+++++<-]>[<+>[-]]<.", b"");
    same(",[->+>>+<<<]>>+++[<+>>-<-]<.>>.", b"\x05");
    same(">+++[<+++++>-]<[>>+<<-]>>[->+<]>.", b"");
    same("++++[>++[>+>-<<-]<-]>>.>.", b"");
    same("+[[-]>+<]>.", b"");
    same(",>,<[->>+<<]>[->+<]>.", b"\x03\x04");
}
