//! Scanning: from characters to instruction tokens.

use vstd::prelude::*;

verus! {

/// What one recognised character of the source asks for.
#[derive(Clone, Copy, Debug, PartialEq, Eq, Structural)]
pub enum Token {
    Increment,
    Decrement,
    IncrementPointer,
    DecrementPointer,
    Output,
    Input,
    EnterLoop,
    ExitLoop,
}

/// The token that a character stands for, if it is one of the eight symbols.
pub open spec fn symbol_token(c: char) -> Option<Token> {
    if c == '>' {
        Some(Token::IncrementPointer)
    } else if c == '<' {
        Some(Token::DecrementPointer)
    } else if c == '+' {
        Some(Token::Increment)
    } else if c == '-' {
        Some(Token::Decrement)
    } else if c == '.' {
        Some(Token::Output)
    } else if c == ',' {
        Some(Token::Input)
    } else if c == '[' {
        Some(Token::EnterLoop)
    } else if c == ']' {
        Some(Token::ExitLoop)
    } else {
        None
    }
}

/// Whether a character is one of the eight symbols.
pub open spec fn is_symbol(c: char) -> bool {
    symbol_token(c) is Some
}

/// The token of a character that is known to be a symbol.
pub open spec fn token_of_symbol(c: char) -> Token {
    symbol_token(c).unwrap()
}

/// The token sequence of a source text: the tokens of its symbols, in the
/// order of the text; every other character leaves no trace.
pub open spec fn lex(source: Seq<char>) -> Seq<Token> {
    source.filter_map(|c: char| symbol_token(c))
}

/// The symbols of a source text, in the order of the text.
pub open spec fn symbols(source: Seq<char>) -> Seq<char> {
    source.filter(|c: char| is_symbol(c))
}

/// Scanning keeps exactly the symbols of the text, in their order, and turns
/// each into its token: there are as many tokens as the text has symbols.
pub proof fn lemma_lex_keeps_symbols(source: Seq<char>)
    ensures
        lex(source) == symbols(source).map_values(|c: char| token_of_symbol(c)),
        lex(source).len() == symbols(source).len(),
    decreases source.len(),
{
    reveal(Seq::filter);
    let mapped = symbols(source).map_values(|c: char| token_of_symbol(c));
    if source.len() == 0 {
        assert(lex(source) =~= mapped);
    } else {
        lemma_lex_keeps_symbols(source.drop_last());
        assert(lex(source) =~= mapped);
    }
}

/// Classifies one character.
pub fn classify(c: char) -> (t: Option<Token>)
    ensures
        t == symbol_token(c),
{
    match c {
        '>' => Some(Token::IncrementPointer),
        '<' => Some(Token::DecrementPointer),
        '+' => Some(Token::Increment),
        '-' => Some(Token::Decrement),
        '.' => Some(Token::Output),
        ',' => Some(Token::Input),
        '[' => Some(Token::EnterLoop),
        ']' => Some(Token::ExitLoop),
        _ => None,
    }
}

/// Scans a source text. Cannot fail: unknown characters are comments.
pub fn lexer(keys: Vec<char>) -> (tokens: Vec<Token>)
    ensures
        tokens@ == lex(keys@),
{
    let mut tokens: Vec<Token> = Vec::new();
    let mut i: usize = 0;
    while i < keys.len()
        invariant
            i <= keys.len(),
            tokens@ == lex(keys@.take(i as int)),
        decreases keys.len() - i,
    {
        proof {
            keys@.lemma_filter_map_take_succ(|c: char| symbol_token(c), i as int);
        }
        match classify(keys[i]) {
            Some(t) => {
                tokens.push(t);
            },
            None => {},
        }
        i += 1;
    }
    proof {
        assert(keys@.take(keys@.len() as int) == keys@);
    }
    tokens
}

} // verus!
