use tapevm::ast::{parser, AstNode};
use tapevm::error::Error;
use tapevm::token::{lexer, Token};

fn parse(source: &str) -> Result<Vec<AstNode>, Error> {
    parser(lexer(source.chars().collect()))
}

fn loops_at(nodes: &[AstNode], level: usize) -> usize {
    let mut count = 0;
    for node in nodes {
        if let AstNode::Loop(body) = node {
            if level == 0 {
                count += 1;
            } else {
                count += loops_at(body, level - 1);
            }
        }
    }
    count
}

fn write_out(nodes: &[AstNode], out: &mut Vec<Token>) {
    for node in nodes {
        match node {
            AstNode::Increment => out.push(Token::Increment),
            AstNode::Decrement => out.push(Token::Decrement),
            AstNode::IncrementPointer => out.push(Token::IncrementPointer),
            AstNode::DecrementPointer => out.push(Token::DecrementPointer),
            AstNode::Output => out.push(Token::Output),
            AstNode::Input => out.push(Token::Input),
            AstNode::Loop(body) => {
                out.push(Token::EnterLoop);
                write_out(body, out);
                out.push(Token::ExitLoop);
            }
        }
    }
}

#[test]
fn parser_of_nothing_is_an_empty_tree() {
    assert_eq!(parser(vec![]), Ok(vec![]));
}

#[test]
fn parser_maps_plain_tokens_one_to_one() {
    assert_eq!(
        parse("+-><.,"),
        Ok(vec![
            AstNode::Increment,
            AstNode::Decrement,
            AstNode::IncrementPointer,
            AstNode::DecrementPointer,
            AstNode::Output,
            AstNode::Input,
        ])
    );
}

#[test]
fn parser_gives_a_loop_its_body() {
    assert_eq!(
        parse("++[-]"),
        Ok(vec![
            AstNode::Increment,
            AstNode::Increment,
            AstNode::Loop(vec![AstNode::Decrement]),
        ])
    );
}

#[test]
fn parser_nests_loops() {
    assert_eq!(
        parse("[[+]-[]]>"),
        Ok(vec![
            AstNode::Loop(vec![
                AstNode::Loop(vec![AstNode::Increment]),
                AstNode::Decrement,
                AstNode::Loop(vec![]),
            ]),
            AstNode::IncrementPointer,
        ])
    );
}

#[test]
fn parser_goes_on_after_a_loop_at_the_outer_level() {
    assert_eq!(
        parse("[>]<[.]"),
        Ok(vec![
            AstNode::Loop(vec![AstNode::IncrementPointer]),
            AstNode::DecrementPointer,
            AstNode::Loop(vec![AstNode::Output]),
        ])
    );
}

#[test]
fn parser_counts_loops_level_by_level() {
    let ast = parse("[+][-[>]][[[<]]],[]").unwrap();
    assert_eq!(loops_at(&ast, 0), 4);
    assert_eq!(loops_at(&ast, 1), 2);
    assert_eq!(loops_at(&ast, 2), 1);
    assert_eq!(loops_at(&ast, 3), 0);
}

#[test]
fn parser_tree_writes_out_as_its_tokens() {
    let source = "++[>+[-]<-]..,[[]]>";
    let tokens = lexer(source.chars().collect());
    let ast = parser(tokens.clone()).unwrap();
    let mut written = Vec::new();
    write_out(&ast, &mut written);
    assert_eq!(written, tokens);
}

#[test]
fn parser_rejects_an_open_loop() {
    assert_eq!(parse("+[+"), Err(Error::MissingLoopDelimiter));
}

#[test]
fn parser_rejects_a_stray_exit() {
    assert_eq!(parse("]"), Err(Error::MissingLoopOpening));
}

#[test]
fn parser_rejects_an_exit_after_a_closed_loop() {
    assert_eq!(parse("[]]"), Err(Error::MissingLoopOpening));
}

#[test]
fn parser_rejects_an_inner_loop_left_open() {
    assert_eq!(parse("[[]"), Err(Error::MissingLoopDelimiter));
    assert_eq!(parse("[[[+]-]"), Err(Error::MissingLoopDelimiter));
}

#[test]
fn parser_reports_the_stray_exit_before_the_open_loop() {
    assert_eq!(parse("]["), Err(Error::MissingLoopOpening));
    assert_eq!(parse("+]+[+"), Err(Error::MissingLoopOpening));
}

#[test]
fn parser_accepts_deep_nesting() {
    let depth = 200;
    let mut source = String::new();
    for _ in 0..depth {
        source.push('[');
    }
    for _ in 0..depth {
        source.push(']');
    }
    let ast = parse(&source).unwrap();
    for level in 0..depth {
        assert_eq!(loops_at(&ast, level), 1);
    }
    assert_eq!(loops_at(&ast, depth), 0);
}
