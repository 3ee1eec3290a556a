//! Where an execution stands in its program.

use vstd::prelude::*;
use crate::ast::{program, AstNode, Instruction};
use crate::semantics::{
    advance, control_valid, current, enter, lemma_advance_valid, lemma_enter_valid, start, Level,
};

verus! {

/// One instruction sequence of the tree and an index into it.
struct Frame<'a> {
    nodes: &'a Vec<AstNode>,
    index: usize,
}

/// The control stack of an execution: a position in the top-level sequence
/// and in the body of each loop that is being executed. It borrows the tree
/// and never copies a node.
pub struct Cursor<'a> {
    frames: Vec<Frame<'a>>,
}

impl<'a> View for Cursor<'a> {
    type V = Seq<Level>;

    closed spec fn view(&self) -> Seq<Level> {
        levels(self.frames@)
    }
}

/// The control stack that a stack of frames stands for.
spec fn levels(frames: Seq<Frame>) -> Seq<Level> {
    Seq::new(
        frames.len(),
        |d: int| Level { body: program(frames[d].nodes@), index: frames[d].index as int },
    )
}

impl<'a> Cursor<'a> {
    #[verifier::type_invariant]
    pub(crate) open spec fn in_order(&self) -> bool {
        control_valid(self@)
    }

    /// The cursor at the first instruction of a program.
    pub fn new(ast: &'a Vec<AstNode>) -> (cursor: Self)
        ensures
            cursor@ == start(program(ast@)),
            control_valid(cursor@),
    {
        let mut frames: Vec<Frame<'a>> = Vec::new();
        if ast.len() > 0 {
            frames.push(Frame { nodes: ast, index: 0 });
        }
        assert(levels(frames@) =~= start(program(ast@)));
        Cursor { frames }
    }

    /// How many sequences the execution is inside of: one for the top level
    /// and one for each loop entered and not yet left; none once the program
    /// has finished.
    pub fn depth(&self) -> (depth: usize)
        ensures
            control_valid(self@),
            depth == self@.len(),
    {
        proof {
            use_type_invariant(self);
        }
        self.frames.len()
    }

    /// The index of the instruction that comes next, within the sequence
    /// that holds it.
    pub fn index(&self) -> (index: Option<usize>)
        ensures
            control_valid(self@),
            match index {
                Some(i) => self@.len() > 0 && i == self@.last().index,
                None => self@.len() == 0,
            },
    {
        proof {
            use_type_invariant(self);
        }
        let depth = self.frames.len();
        if depth == 0 {
            None
        } else {
            Some(self.frames[depth - 1].index)
        }
    }

    /// The instruction that comes next, if any is left.
    pub fn node(&self) -> (node: Option<&'a AstNode>)
        ensures
            control_valid(self@),
            match node {
                Some(n) => current(self@) == Some(n@),
                None => current(self@) is None,
            },
    {
        proof {
            use_type_invariant(self);
        }
        let depth = self.frames.len();
        if depth == 0 {
            None
        } else {
            let nodes: &'a Vec<AstNode> = self.frames[depth - 1].nodes;
            Some(&nodes[self.frames[depth - 1].index])
        }
    }

    /// Moves past the current instruction.
    pub(crate) fn advance(&mut self)
        requires
            old(self)@.len() > 0,
        ensures
            final(self)@ == advance(old(self)@),
            control_valid(final(self)@),
    {
        proof {
            use_type_invariant(&*self);
        }
        let ghost before = self@;
        let mut frames: Vec<Frame<'a>> = Vec::new();
        core::mem::swap(&mut self.frames, &mut frames);
        let depth = frames.len();
        let nodes: &'a Vec<AstNode> = frames[depth - 1].nodes;
        let index = frames[depth - 1].index;
        proof {
            let top = before[depth - 1];
            assert(top.index == index && top.body.len() == nodes.len());
        }
        frames.pop();
        if index + 1 < nodes.len() {
            frames.push(Frame { nodes, index: index + 1 });
        }
        proof {
            assert(levels(frames@) =~= advance(before));
            lemma_advance_valid(before);
        }
        self.frames = frames;
    }

    /// Enters the body of the loop that the cursor is at.
    pub(crate) fn enter(&mut self, body: &'a Vec<AstNode>)
        requires
            current(old(self)@) == Some(Instruction::Loop(program(body@))),
        ensures
            final(self)@ == enter(old(self)@, program(body@)),
            control_valid(final(self)@),
    {
        proof {
            use_type_invariant(&*self);
        }
        let ghost before = self@;
        if body.len() > 0 {
            let mut frames: Vec<Frame<'a>> = Vec::new();
            core::mem::swap(&mut self.frames, &mut frames);
            frames.push(Frame { nodes: body, index: 0 });
            proof {
                assert(levels(frames@) =~= enter(before, program(body@)));
                lemma_enter_valid(before, program(body@));
            }
            self.frames = frames;
        }
    }
}

} // verus!
