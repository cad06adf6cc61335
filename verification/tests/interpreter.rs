use brainfuck::parse;
use brainfuck::run;
use brainfuck::run_limited;
use brainfuck::Instruction;
use brainfuck::ParseError;

#[test]
fn hello_world() {
    assert_eq!(
        run(
            "++++++++[>++++[>++>+++>+++>+<<<<-]>+>+>->>+[<]<-]>>.>---.+++++++..+++.>>.<-.<.+++.------.--------.>>+.>++.",
            "",
        ),
        "Hello World!\n"
    );
}

#[test]
fn cat() {
    assert_eq!(run(",[.,]", "hello"), "hello");
}

#[test]
fn quine() {
    // Written by Erik Bosman
    // https://copy.sh/brainfuck/prog/quine505.b
    let program = r">+++++>+++>+++>+++++>+++>+++>+++++>++++++>+>++>+++>++++>++++>+++>+++>+++++>+>+>++++>+++++++>+>+++++>+>+>+++++>++++++>+++>+++>++>+>+>++++>++++++>++++>++++>+++>+++++>+++>+++>++++>++>+>+>+>+>++>++>++>+>+>++>+>+>++++++>++++++>+>+>++++++>++++++>+>+>+>+++++>++++++>+>+++++>+++>+++>++++>++>+>+>++>+>+>++>++>+>+>++>++>+>+>+>+>++>+>+>+>++++>++>++>+>+++++>++++++>+++>+++>+++>+++>+++>+++>++>+>+>+>+>++>+>+>++++>+++>+++>+++>+++++>+>+++++>++++++>+>+>+>++>+++>+++>+++++++>+++>++++>+>++>+>+++++++>++++++>+>+++++>++++++>+++>+++>++>++>++>++>++>++>+>++>++>++>++>++>++>++>++>++>+>++++>++>++>++>++>++>++>++>+++++>++++++>++++>+++>+++++>++++++>++++>+++>+++>++++>+>+>+>+>+++++>+++>+++++>++++++>+++>+++>+++>++>+>+>+>++++>++++[[>>>+<<<-]<]>>>>[<<[-]<[-]+++++++[>+++++++++>++++++<<-]>-.>+>[<.<<+>>>-]>]<<<[>>+>>>>+<<<<<<-]>++[>>>+>>>>++>>++>>+>>+[<<]>-]>>>-->>-->>+>>+++>>>>+[<<]<[[-[>>+<<-]>>]>.[>>]<<[[<+>-]<<]<<]";
    assert_eq!(run(program, ""), program);
}

#[test]
fn repeated_runs_agree() {
    let first = run(",[.,]", "determinism");
    let second = run(",[.,]", "determinism");
    assert_eq!(first, second);
}

#[test]
fn decrement_wraps_to_255() {
    assert_eq!(run("-.", ""), "\u{ff}");
}

#[test]
fn increments_wrap_around_to_zero() {
    let source = "+".repeat(256) + ".";
    assert_eq!(run(&source, ""), "\0");
}

#[test]
fn tape_wraps_at_bottom_boundary() {
    // moving left from cursor 0 lands on the last cell; the first cell stays
    // distinguishable, so coming back shows the cursor really returned
    assert_eq!(run("<-.", ""), "\u{ff}");
    assert_eq!(run("+<->.", ""), "\u{1}");
}

#[test]
fn tape_wraps_at_top_boundary() {
    // one step past the last cell wraps to cell 0, and a step back from
    // cell 0 returns to the last cell
    let source = "+".to_string() + &">".repeat(29999) + "->.<.";
    assert_eq!(run(&source, ""), "\u{1}\u{ff}");
}

#[test]
fn unmatched_open_bracket_is_an_error() {
    assert_eq!(parse("[+").unwrap_err(), ParseError::UnmatchedBrackets);
}

#[test]
fn unmatched_close_bracket_is_an_error() {
    assert_eq!(parse("+]").unwrap_err(), ParseError::UnmatchedBrackets);
}

#[test]
fn close_bracket_at_start_is_an_error() {
    assert_eq!(parse("]").unwrap_err(), ParseError::UnmatchedBrackets);
}

#[test]
fn clear_loop_zeroes_the_cell() {
    assert_eq!(run("+++++[-].", ""), "\0");
}

#[test]
fn clear_loop_takes_two_ticks_per_unit() {
    // five increments, then the clear loop: one opening test and two ticks
    // for each of the five passes through the body, sixteen ticks in all
    let some = run_limited("+++++[-]", "", 16);
    assert_eq!(some, Some(String::new()));
    assert_eq!(run_limited("+++++[-]", "", 15), None);
}

#[test]
fn endless_loop_hits_the_ceiling() {
    assert_eq!(run_limited("+[]", "", 100000), None);
}

#[test]
fn comment_characters_are_ignored() {
    assert_eq!(run("a+b+c+d.", ""), run("+++.", ""));
    assert_eq!(
        run(", read one\n. write it back\n", "x"),
        run(",.", "x")
    );
}

#[test]
fn source_without_instructions_outputs_nothing() {
    assert_eq!(run("hello", "world"), "");
}

#[test]
fn exhausted_input_reads_the_zero_sentinel() {
    assert_eq!(run(",.", ""), "\0");
    assert_eq!(run(",.,.", "A"), "A\0");
}

#[test]
fn input_code_points_truncate_to_one_byte() {
    assert_eq!(run(",.", "\u{101}"), "\u{1}");
    assert_eq!(run(",.", "\u{100}"), "\0");
}

#[test]
fn parse_resolves_bracket_partners() {
    let program = parse("+[-]").unwrap();
    assert_eq!(
        program,
        vec![
            Instruction::Increment,
            Instruction::Open(3),
            Instruction::Decrement,
            Instruction::Close(1),
        ]
    );
}

#[test]
fn parse_resolves_nested_brackets() {
    let program = parse("[[]]").unwrap();
    assert_eq!(
        program,
        vec![
            Instruction::Open(3),
            Instruction::Open(2),
            Instruction::Close(1),
            Instruction::Close(0),
        ]
    );
}

#[test]
fn limited_run_returns_the_output_once_halted() {
    assert_eq!(run_limited(",[.,]", "hi", 1000), Some("hi".to_string()));
}
