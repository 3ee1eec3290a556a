//! Parsing: from a flat token sequence to a tree whose loops own their bodies.

use vstd::prelude::*;
use crate::token::Token;
use crate::error::Error;

verus! {

/// One instruction of a parsed program.
#[derive(Debug, PartialEq, Eq)]
pub enum AstNode {
    Increment,
    Decrement,
    IncrementPointer,
    DecrementPointer,
    Output,
    Input,
    Loop(Vec<AstNode>),
}

/// The mathematical value of an [`AstNode`]: the same seven shapes, with a
/// loop's body as a sequence.
pub ghost enum Instruction {
    Increment,
    Decrement,
    IncrementPointer,
    DecrementPointer,
    Output,
    Input,
    Loop(Seq<Instruction>),
}

impl View for AstNode {
    type V = Instruction;

    open spec fn view(&self) -> Instruction
        decreases self,
    {
        match self {
            AstNode::Increment => Instruction::Increment,
            AstNode::Decrement => Instruction::Decrement,
            AstNode::IncrementPointer => Instruction::IncrementPointer,
            AstNode::DecrementPointer => Instruction::DecrementPointer,
            AstNode::Output => Instruction::Output,
            AstNode::Input => Instruction::Input,
            // The body's program, node by node. A sequence asks for no
            // index beyond its length, so the last branch gives no element.
            AstNode::Loop(body) => Instruction::Loop(
                Seq::new(
                    body@.len(),
                    |i: int|
                        if 0 <= i < body@.len() {
                            body@[i].view()
                        } else {
                            Instruction::Input
                        },
                ),
            ),
        }
    }
}

/// The program that a sequence of nodes stands for.
pub open spec fn program(nodes: Seq<AstNode>) -> Seq<Instruction> {
    Seq::new(nodes.len(), |i: int| nodes[i]@)
}

/// By how much a token changes the nesting depth.
pub open spec fn depth_change(t: Token) -> int {
    match t {
        Token::EnterLoop => 1,
        Token::ExitLoop => -1,
        _ => 0,
    }
}

/// The nesting depth at the end of a token sequence: loops entered minus
/// loops left.
pub open spec fn depth(tokens: Seq<Token>) -> int
    decreases tokens.len(),
{
    if tokens.len() == 0 {
        0
    } else {
        depth(tokens.drop_last()) + depth_change(tokens.last())
    }
}

/// Some loop exit stands where no loop is open: after some prefix the depth
/// is negative.
pub open spec fn closes_unopened(tokens: Seq<Token>) -> bool {
    exists|k: int| 0 <= k <= tokens.len() && #[trigger] depth(tokens.take(k)) < 0
}

/// The brackets of a token sequence match: the depth never falls below zero
/// and is zero at the end. That this is so exactly when every entry has the
/// exit that closes it, and every exit its entry, is shown in
/// [`crate::nesting`].
pub open spec fn well_nested(tokens: Seq<Token>) -> bool {
    !closes_unopened(tokens) && depth(tokens) == 0
}

/// Why a token sequence has no tree, if it has none. A stray exit is found
/// before the end of the sequence is, so it wins over an unclosed entry.
pub open spec fn structural_error(tokens: Seq<Token>) -> Option<Error> {
    if closes_unopened(tokens) {
        Some(Error::MissingLoopOpening)
    } else if depth(tokens) != 0 {
        Some(Error::MissingLoopDelimiter)
    } else {
        None
    }
}

/// The tokens that one instruction is written with.
pub open spec fn instruction_tokens(instruction: Instruction) -> Seq<Token>
    decreases instruction,
{
    match instruction {
        Instruction::Increment => seq![Token::Increment],
        Instruction::Decrement => seq![Token::Decrement],
        Instruction::IncrementPointer => seq![Token::IncrementPointer],
        Instruction::DecrementPointer => seq![Token::DecrementPointer],
        Instruction::Output => seq![Token::Output],
        Instruction::Input => seq![Token::Input],
        Instruction::Loop(body) => seq![Token::EnterLoop] + unparse(body) + seq![Token::ExitLoop],
    }
}

/// The tokens that a program is written with: those of its instructions, one
/// after the other.
pub open spec fn unparse(instructions: Seq<Instruction>) -> Seq<Token>
    decreases instructions,
{
    if instructions.len() == 0 {
        Seq::empty()
    } else {
        unparse(instructions.drop_last()) + instruction_tokens(instructions.last())
    }
}

/// The tokens read so far while some loops are still open: each enclosing
/// sequence up to the loop that is open in it, and that loop's entry.
spec fn open_prefix(enclosing: Seq<Seq<Instruction>>) -> Seq<Token>
    decreases enclosing.len(),
{
    if enclosing.len() == 0 {
        Seq::empty()
    } else {
        open_prefix(enclosing.drop_last()) + unparse(enclosing.last()) + seq![Token::EnterLoop]
    }
}

/// The programs held by a stack of node sequences.
spec fn programs(stack: Seq<Vec<AstNode>>) -> Seq<Seq<Instruction>> {
    Seq::new(stack.len(), |j: int| program(stack[j]@))
}

/// A loop node stands for the loop over the program of its body.
pub proof fn lemma_loop_view(body: Vec<AstNode>)
    ensures
        AstNode::Loop(body)@ == Instruction::Loop(program(body@)),
{
    let direct = AstNode::Loop(body)@;
    assert(direct->Loop_0 =~= program(body@));
}

/// The depth after one more token.
pub proof fn lemma_depth_take_succ(tokens: Seq<Token>, i: int)
    requires
        0 <= i < tokens.len(),
    ensures
        depth(tokens.take(i + 1)) == depth(tokens.take(i)) + depth_change(tokens[i]),
{
    assert(tokens.take(i + 1).drop_last() =~= tokens.take(i));
}

/// The node that a token other than a bracket stands for.
spec fn plain_instruction(t: Token) -> Instruction
    recommends
        t != Token::EnterLoop && t != Token::ExitLoop,
{
    match t {
        Token::Increment => Instruction::Increment,
        Token::Decrement => Instruction::Decrement,
        Token::IncrementPointer => Instruction::IncrementPointer,
        Token::DecrementPointer => Instruction::DecrementPointer,
        Token::Output => Instruction::Output,
        _ => Instruction::Input,
    }
}

/// Builds the tree of a token sequence, or says why there is none.
///
/// On success the tree, written out again, is the token sequence it came
/// from. Nothing is returned of a sequence that fails: the first stray exit
/// stops the parse, and an entry left open is reported at the end.
pub fn parser(tokens: Vec<Token>) -> (result: Result<Vec<AstNode>, Error>)
    ensures
        match result {
            Ok(ast) => well_nested(tokens@) && unparse(program(ast@)) == tokens@,
            Err(e) => structural_error(tokens@) == Some(e),
        },
{
    let mut enclosing: Vec<Vec<AstNode>> = Vec::new();
    let mut current: Vec<AstNode> = Vec::new();
    let mut i: usize = 0;
    proof {
        assert(program(current@) =~= Seq::<Instruction>::empty());
    }
    while i < tokens.len()
        invariant
            i <= tokens.len(),
            open_prefix(programs(enclosing@)) + unparse(program(current@)) == tokens@.take(
                i as int,
            ),
            depth(tokens@.take(i as int)) == enclosing.len(),
            forall|k: int| 0 <= k <= i ==> #[trigger] depth(tokens@.take(k)) >= 0,
        decreases tokens.len() - i,
    {
        let token = tokens[i];
        proof {
            lemma_depth_take_succ(tokens@, i as int);
            assert(tokens@.take(i + 1) =~= tokens@.take(i as int).push(token));
        }
        let ghost before = program(current@);
        let ghost outer = programs(enclosing@);
        match token {
            Token::EnterLoop => {
                enclosing.push(current);
                current = Vec::new();
                proof {
                    assert(programs(enclosing@).drop_last() =~= outer);
                    assert(programs(enclosing@).last() =~= before);
                    assert(program(current@) =~= Seq::<Instruction>::empty());
                }
            },
            Token::ExitLoop => {
                match enclosing.pop() {
                    None => {
                        return Err(Error::MissingLoopOpening);
                    },
                    Some(mut parent) => {
                        let ghost up = program(parent@);
                        proof {
                            lemma_loop_view(current);
                            assert(outer.drop_last() =~= programs(enclosing@));
                            assert(outer.last() =~= up);
                        }
                        parent.push(AstNode::Loop(current));
                        current = parent;
                        proof {
                            assert(program(current@).drop_last() =~= up);
                            assert(program(current@).last() == Instruction::Loop(before));
                            assert(unparse(program(current@)) == unparse(
                                program(current@).drop_last(),
                            ) + instruction_tokens(program(current@).last()));
                            assert(unparse(program(current@)) == unparse(up) + (seq![
                                Token::EnterLoop,
                            ] + unparse(before) + seq![Token::ExitLoop]));
                        }
                    },
                }
            },
            _ => {
                let node = match token {
                    Token::Increment => AstNode::Increment,
                    Token::Decrement => AstNode::Decrement,
                    Token::IncrementPointer => AstNode::IncrementPointer,
                    Token::DecrementPointer => AstNode::DecrementPointer,
                    Token::Output => AstNode::Output,
                    _ => AstNode::Input,
                };
                current.push(node);
                proof {
                    assert(program(current@).drop_last() =~= before);
                    assert(program(current@).last() == plain_instruction(token));
                    assert(instruction_tokens(plain_instruction(token)) =~= seq![token]);
                    assert(open_prefix(programs(enclosing@)) + unparse(program(current@))
                        =~= tokens@.take(i + 1));
                }
            },
        }
        i += 1;
    }
    proof {
        assert(tokens@.take(tokens@.len() as int) =~= tokens@);
    }
    if enclosing.len() != 0 {
        return Err(Error::MissingLoopDelimiter);
    }
    proof {
        assert(programs(enclosing@) =~= Seq::<Seq<Instruction>>::empty());
    }
    Ok(current)
}

} // verus!
