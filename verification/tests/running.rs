use tapevm::ast::{parser, AstNode};
use tapevm::cursor::Cursor;
use tapevm::error::Error;
use tapevm::machine::{RuntimeEnvironment, TAPE_LENGTH};
use tapevm::semantics::Signal;
use tapevm::token::lexer;

fn parse(source: &str) -> Vec<AstNode> {
    parser(lexer(source.chars().collect())).unwrap()
}

/// Runs a program to its end or its first failure, feeding it `input` and
/// collecting what it writes.
fn execute(
    env: &mut RuntimeEnvironment,
    ast: &Vec<AstNode>,
    input: &str,
) -> (Result<(), Error>, String) {
    let mut cursor = Cursor::new(ast);
    let mut keys = input.chars();
    let mut written = String::new();
    loop {
        match env.run(&mut cursor, 1_000_000) {
            Ok(Signal::Continue) => panic!("the program did not stop"),
            Ok(Signal::Output(c)) => written.push(c),
            Ok(Signal::Input) => loop {
                let key = keys.next().expect("the program asked for more input");
                if env.input(&mut cursor, key) {
                    break;
                }
            },
            Ok(Signal::Finished) => return (Ok(()), written),
            Err(e) => return (Err(e), written),
        }
    }
}

#[test]
fn fresh_machine_is_all_zero() {
    let env = RuntimeEnvironment::new();
    assert_eq!(TAPE_LENGTH, 30_000);
    assert_eq!(env.pointer(), 0);
    assert_eq!(*env.c_mem(), 0);
    for index in 0..TAPE_LENGTH {
        assert_eq!(env.cell(index), Some(0));
    }
    assert_eq!(env.cell(TAPE_LENGTH), None);
}

#[test]
fn current_cell_can_be_written() {
    let mut env = RuntimeEnvironment::new();
    *env.c_mem_mut() = 42;
    assert_eq!(*env.c_mem(), 42);
    assert_eq!(env.cell(0), Some(42));
    assert_eq!(env.cell(1), Some(0));
    assert_eq!(env.pointer(), 0);
}

#[test]
fn empty_program_finishes_at_once() {
    let ast = parse("");
    let mut env = RuntimeEnvironment::new();
    let mut cursor = Cursor::new(&ast);
    assert_eq!(cursor.depth(), 0);
    assert_eq!(cursor.index(), None);
    assert!(cursor.node().is_none());
    assert_eq!(env.step(&mut cursor), Ok(Signal::Finished));
    assert_eq!(env.run(&mut cursor, 10), Ok(Signal::Finished));
}

#[test]
fn increment_wraps_from_255_to_0() {
    let ast = parse("+");
    let mut env = RuntimeEnvironment::new();
    *env.c_mem_mut() = 255;
    let mut cursor = Cursor::new(&ast);
    assert_eq!(env.step(&mut cursor), Ok(Signal::Continue));
    assert_eq!(*env.c_mem(), 0);
}

#[test]
fn decrement_wraps_from_0_to_255() {
    let ast = parse("-");
    let mut env = RuntimeEnvironment::new();
    let mut cursor = Cursor::new(&ast);
    assert_eq!(env.step(&mut cursor), Ok(Signal::Continue));
    assert_eq!(*env.c_mem(), 255);
    assert_eq!(env.step(&mut cursor), Ok(Signal::Finished));
}

#[test]
fn cell_counts_through_all_its_values() {
    let source: String = std::iter::repeat('+').take(256 + 3).collect();
    let ast = parse(&source);
    let mut env = RuntimeEnvironment::new();
    assert_eq!(execute(&mut env, &ast, ""), (Ok(()), String::new()));
    assert_eq!(*env.c_mem(), 3);
}

#[test]
fn moving_left_from_the_first_cell_fails() {
    let ast = parse("+<+");
    let mut env = RuntimeEnvironment::new();
    let mut cursor = Cursor::new(&ast);
    assert_eq!(env.step(&mut cursor), Ok(Signal::Continue));
    assert_eq!(env.step(&mut cursor), Err(Error::MemoryPointerOverflow));
    assert_eq!(env.pointer(), 0);
    assert_eq!(*env.c_mem(), 1);
    assert_eq!(cursor.index(), Some(1));
    assert_eq!(cursor.node(), Some(&AstNode::DecrementPointer));
    assert_eq!(env.step(&mut cursor), Err(Error::MemoryPointerOverflow));
}

#[test]
fn moving_right_reaches_the_last_cell_and_no_further() {
    let source: String = std::iter::repeat('>').take(TAPE_LENGTH).collect();
    let ast = parse(&source);
    let mut env = RuntimeEnvironment::new();
    let mut cursor = Cursor::new(&ast);
    for moved in 1..TAPE_LENGTH {
        assert_eq!(env.step(&mut cursor), Ok(Signal::Continue));
        assert_eq!(env.pointer(), moved);
    }
    assert_eq!(env.pointer(), TAPE_LENGTH - 1);
    assert_eq!(env.step(&mut cursor), Err(Error::MemoryPointerOverflow));
    assert_eq!(env.pointer(), TAPE_LENGTH - 1);
    assert_eq!(cursor.index(), Some(TAPE_LENGTH - 1));
}

#[test]
fn moving_right_then_left_comes_back() {
    let ast = parse(">>+<<");
    let mut env = RuntimeEnvironment::new();
    assert_eq!(execute(&mut env, &ast, ""), (Ok(()), String::new()));
    assert_eq!(env.pointer(), 0);
    assert_eq!(env.cell(2), Some(1));
    assert_eq!(env.cell(0), Some(0));
}

#[test]
fn loop_runs_until_its_cell_is_zero() {
    let ast = parse("++[-]");
    let mut env = RuntimeEnvironment::new();
    let mut cursor = Cursor::new(&ast);
    let mut bodies = 0;
    let mut steps = 0;
    loop {
        let depth = cursor.depth();
        match env.step(&mut cursor) {
            Ok(Signal::Continue) => {
                steps += 1;
                if cursor.depth() > depth {
                    bodies += 1;
                }
            }
            Ok(Signal::Finished) => break,
            other => panic!("unexpected {:?}", other),
        }
    }
    assert_eq!(bodies, 2);
    assert_eq!(steps, 2 + 2 * 2 + 1);
    assert_eq!(*env.c_mem(), 0);
    assert_eq!(env.pointer(), 0);
}

#[test]
fn loop_is_skipped_on_a_zero_cell() {
    let ast = parse("[+]>");
    let mut env = RuntimeEnvironment::new();
    let mut cursor = Cursor::new(&ast);
    assert_eq!(env.step(&mut cursor), Ok(Signal::Continue));
    assert_eq!(cursor.depth(), 1);
    assert_eq!(cursor.index(), Some(1));
    assert_eq!(env.cell(0), Some(0));
    assert_eq!(env.step(&mut cursor), Ok(Signal::Continue));
    assert_eq!(env.step(&mut cursor), Ok(Signal::Finished));
    assert_eq!(env.pointer(), 1);
}

#[test]
fn copy_pattern_adds_one_cell_to_another() {
    let ast = parse("++>+++++[<+>-]");
    let mut env = RuntimeEnvironment::new();
    assert_eq!(execute(&mut env, &ast, ""), (Ok(()), String::new()));
    assert_eq!(env.cell(0), Some(7));
    assert_eq!(env.cell(1), Some(0));
    assert_eq!(env.pointer(), 1);
}

#[test]
fn loop_condition_sees_what_the_body_wrote_elsewhere() {
    // The body leaves the controlling cell, clears it from the far side and
    // comes back.
    let ast = parse("+>+<[>[-]<-]");
    let mut env = RuntimeEnvironment::new();
    assert_eq!(execute(&mut env, &ast, ""), (Ok(()), String::new()));
    assert_eq!(env.cell(0), Some(0));
    assert_eq!(env.cell(1), Some(0));
}

#[test]
fn nested_loops_multiply() {
    let ast = parse("+++[>++++[>++<-]<-]");
    let mut env = RuntimeEnvironment::new();
    assert_eq!(execute(&mut env, &ast, ""), (Ok(()), String::new()));
    assert_eq!(env.cell(2), Some(24));
    assert_eq!(env.pointer(), 0);
}

#[test]
fn output_hands_out_the_cell_as_a_character() {
    let source: String = std::iter::repeat('+').take(65).chain(".+.".chars()).collect();
    let ast = parse(&source);
    let mut env = RuntimeEnvironment::new();
    assert_eq!(execute(&mut env, &ast, ""), (Ok(()), "AB".to_string()));
}

#[test]
fn output_of_the_highest_ascii_code_succeeds() {
    let source: String = std::iter::repeat('+').take(127).chain(".".chars()).collect();
    let ast = parse(&source);
    let mut env = RuntimeEnvironment::new();
    assert_eq!(execute(&mut env, &ast, ""), (Ok(()), "\u{7f}".to_string()));
}

#[test]
fn output_beyond_ascii_fails() {
    let source: String = std::iter::repeat('+').take(128).chain(".".chars()).collect();
    let ast = parse(&source);
    let mut env = RuntimeEnvironment::new();
    assert_eq!(
        execute(&mut env, &ast, ""),
        (Err(Error::NonAsciiOutputValue), String::new())
    );
    assert_eq!(*env.c_mem(), 128);
}

#[test]
fn output_before_a_failure_stays_written() {
    let source: String = std::iter::repeat('+').take(33).chain(".<.".chars()).collect();
    let ast = parse(&source);
    let mut env = RuntimeEnvironment::new();
    assert_eq!(
        execute(&mut env, &ast, ""),
        (Err(Error::MemoryPointerOverflow), "!".to_string())
    );
}

#[test]
fn failure_inside_a_loop_stops_the_loop() {
    let ast = parse("+[<+]+");
    let mut env = RuntimeEnvironment::new();
    let mut cursor = Cursor::new(&ast);
    assert_eq!(env.run(&mut cursor, 100), Err(Error::MemoryPointerOverflow));
    assert_eq!(cursor.depth(), 2);
    assert_eq!(cursor.index(), Some(0));
    assert_eq!(cursor.node(), Some(&AstNode::DecrementPointer));
    assert_eq!(env.cell(0), Some(1));
}

#[test]
fn input_waits_for_a_character() {
    let ast = parse(",.");
    let mut env = RuntimeEnvironment::new();
    let mut cursor = Cursor::new(&ast);
    assert_eq!(env.step(&mut cursor), Ok(Signal::Input));
    assert_eq!(env.step(&mut cursor), Ok(Signal::Input));
    assert_eq!(cursor.index(), Some(0));
    assert!(env.input(&mut cursor, 'x'));
    assert_eq!(*env.c_mem(), 120);
    assert_eq!(env.step(&mut cursor), Ok(Signal::Output('x')));
    assert_eq!(env.step(&mut cursor), Ok(Signal::Finished));
}

#[test]
fn input_discards_what_is_not_ascii() {
    let ast = parse("+,");
    let mut env = RuntimeEnvironment::new();
    let mut cursor = Cursor::new(&ast);
    assert_eq!(env.run(&mut cursor, 10), Ok(Signal::Input));
    assert!(!env.input(&mut cursor, '\u{e9}'));
    assert!(!env.input(&mut cursor, '\u{80}'));
    assert_eq!(*env.c_mem(), 1);
    assert_eq!(env.step(&mut cursor), Ok(Signal::Input));
    assert!(env.input(&mut cursor, '\u{7f}'));
    assert_eq!(*env.c_mem(), 127);
    assert_eq!(env.step(&mut cursor), Ok(Signal::Finished));
}

#[test]
fn input_is_refused_where_none_is_asked_for() {
    let ast = parse("+");
    let mut env = RuntimeEnvironment::new();
    let mut cursor = Cursor::new(&ast);
    assert!(!env.input(&mut cursor, 'a'));
    assert_eq!(*env.c_mem(), 0);
    assert_eq!(cursor.index(), Some(0));
    assert_eq!(env.step(&mut cursor), Ok(Signal::Continue));
    assert!(!env.input(&mut cursor, 'a'));
    assert_eq!(*env.c_mem(), 1);
}

#[test]
fn echo_copies_input_to_output() {
    let ast = parse(",[.,]");
    let mut env = RuntimeEnvironment::new();
    assert_eq!(
        execute(&mut env, &ast, "tape\u{e9}!\0"),
        (Ok(()), "tape!".to_string())
    );
}

#[test]
fn run_stops_when_the_budget_is_spent() {
    let ast = parse("+++++");
    let mut env = RuntimeEnvironment::new();
    let mut cursor = Cursor::new(&ast);
    assert_eq!(env.run(&mut cursor, 0), Ok(Signal::Continue));
    assert_eq!(*env.c_mem(), 0);
    assert_eq!(env.run(&mut cursor, 2), Ok(Signal::Continue));
    assert_eq!(*env.c_mem(), 2);
    assert_eq!(cursor.index(), Some(2));
    assert_eq!(env.run(&mut cursor, 3), Ok(Signal::Continue));
    assert_eq!(*env.c_mem(), 5);
    assert_eq!(env.run(&mut cursor, 1), Ok(Signal::Finished));
}

#[test]
fn run_in_parts_is_run_at_once() {
    let ast = parse("++++[>+++[>+<-]<-]>>.");
    let mut whole = RuntimeEnvironment::new();
    let mut whole_cursor = Cursor::new(&ast);
    let at_once = whole.run(&mut whole_cursor, 500);
    let mut parts = RuntimeEnvironment::new();
    let mut parts_cursor = Cursor::new(&ast);
    assert_eq!(parts.run(&mut parts_cursor, 50), Ok(Signal::Continue));
    let in_parts = parts.run(&mut parts_cursor, 450);
    assert_eq!(at_once, Ok(Signal::Output('\u{c}')));
    assert_eq!(in_parts, at_once);
    assert_eq!(whole.pointer(), parts.pointer());
    for index in 0..4 {
        assert_eq!(whole.cell(index), parts.cell(index));
    }
}

#[test]
fn endless_loop_uses_up_any_budget() {
    let ast = parse("+[]");
    let mut env = RuntimeEnvironment::new();
    let mut cursor = Cursor::new(&ast);
    assert_eq!(env.run(&mut cursor, 10_000), Ok(Signal::Continue));
    assert_eq!(cursor.depth(), 1);
    assert_eq!(cursor.index(), Some(1));
    assert_eq!(*env.c_mem(), 1);
}

#[test]
fn cursor_follows_the_tree() {
    let ast = parse("+[[-]]");
    let mut env = RuntimeEnvironment::new();
    let mut cursor = Cursor::new(&ast);
    assert_eq!(cursor.node(), Some(&AstNode::Increment));
    assert_eq!((cursor.depth(), cursor.index()), (1, Some(0)));
    assert_eq!(env.step(&mut cursor), Ok(Signal::Continue));
    assert_eq!((cursor.depth(), cursor.index()), (1, Some(1)));
    assert_eq!(env.step(&mut cursor), Ok(Signal::Continue));
    assert_eq!((cursor.depth(), cursor.index()), (2, Some(0)));
    assert_eq!(env.step(&mut cursor), Ok(Signal::Continue));
    assert_eq!((cursor.depth(), cursor.index()), (3, Some(0)));
    assert_eq!(cursor.node(), Some(&AstNode::Decrement));
    assert_eq!(env.step(&mut cursor), Ok(Signal::Continue));
    // The body is done: the inner loop's condition comes next.
    assert_eq!((cursor.depth(), cursor.index()), (2, Some(0)));
    assert_eq!(env.step(&mut cursor), Ok(Signal::Continue));
    assert_eq!((cursor.depth(), cursor.index()), (1, Some(1)));
    assert_eq!(env.step(&mut cursor), Ok(Signal::Continue));
    assert_eq!((cursor.depth(), cursor.index()), (0, None));
    assert_eq!(env.step(&mut cursor), Ok(Signal::Finished));
}

#[test]
fn unparsable_source_is_never_run() {
    let open = parser(lexer("+[+".chars().collect()));
    assert_eq!(open, Err(Error::MissingLoopDelimiter));
    let stray = parser(lexer("]".chars().collect()));
    assert_eq!(stray, Err(Error::MissingLoopOpening));
}
