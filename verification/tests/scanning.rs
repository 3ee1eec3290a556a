use tapevm::token::{classify, lexer, Token};

fn scan(source: &str) -> Vec<Token> {
    lexer(source.chars().collect())
}

#[test]
fn lexer_drops_what_is_no_symbol() {
    assert_eq!(
        scan("a>b<"),
        vec![Token::IncrementPointer, Token::DecrementPointer]
    );
}

#[test]
fn lexer_knows_all_eight_symbols() {
    assert_eq!(
        scan("><+-.,[]"),
        vec![
            Token::IncrementPointer,
            Token::DecrementPointer,
            Token::Increment,
            Token::Decrement,
            Token::Output,
            Token::Input,
            Token::EnterLoop,
            Token::ExitLoop,
        ]
    );
}

#[test]
fn lexer_of_nothing_is_nothing() {
    assert_eq!(scan(""), vec![]);
}

#[test]
fn lexer_of_prose_is_nothing() {
    assert_eq!(scan("read a byte\nthen stop \u{00e9}\u{4e16}\t!"), vec![]);
}

#[test]
fn lexer_keeps_order_and_repeats() {
    assert_eq!(
        scan("+ + x - [y] ."),
        vec![
            Token::Increment,
            Token::Increment,
            Token::Decrement,
            Token::EnterLoop,
            Token::ExitLoop,
            Token::Output,
        ]
    );
}

#[test]
fn lexer_yields_one_token_per_symbol() {
    let source = "ab+c[d-e]f>g<h.i,j  ++\n--";
    let symbols = source.chars().filter(|c| "><+-.,[]".contains(*c)).count();
    assert_eq!(symbols, 12);
    assert_eq!(scan(source).len(), symbols);
}

#[test]
fn classify_tells_symbols_from_the_rest() {
    assert_eq!(classify('+'), Some(Token::Increment));
    assert_eq!(classify(']'), Some(Token::ExitLoop));
    assert_eq!(classify(' '), None);
    assert_eq!(classify('('), None);
    assert_eq!(classify('\u{ff0b}'), None);
}
