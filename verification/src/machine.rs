//! The tape machine: a fixed tape of byte cells and a pointer into it.

use vstd::prelude::*;
use crate::ast::{lemma_loop_view, AstNode};
use crate::cursor::Cursor;
use crate::error::Error;
use crate::semantics::{run_spec, step_spec, supply, takes, Machine, Signal};

verus! {

/// The number of cells on the tape.
pub const TAPE_LENGTH: usize = 30_000;

/// The memory of one execution: the tape and the pointer.
pub struct RuntimeEnvironment {
    mem: [u8; TAPE_LENGTH],
    pointer: usize,
}

/// One cell of a tape, to be written.
fn cell_at(mem: &mut [u8; TAPE_LENGTH], index: usize) -> (cell: &mut u8)
    requires
        index < TAPE_LENGTH,
    ensures
        *cell == old(mem)@[index as int],
        final(mem)@ == old(mem)@.update(index as int, *final(cell)),
    no_unwind
{
    &mut mem[index]
}

impl RuntimeEnvironment {
    #[verifier::type_invariant]
    spec fn inside_tape(&self) -> bool {
        self.pointer < TAPE_LENGTH
    }

    /// The cells of the tape, from the first to the last.
    pub closed spec fn tape(&self) -> Seq<u8> {
        self.mem@
    }

    /// The index of the cell that the pointer is at.
    pub closed spec fn position(&self) -> int {
        self.pointer as int
    }

    /// The tape has its fixed length and the pointer is on it. This holds of
    /// every value of the type; the functions below say so of what they
    /// return and leave behind.
    pub open spec fn on_tape(&self) -> bool {
        &&& self.tape().len() == TAPE_LENGTH
        &&& 0 <= self.position() < TAPE_LENGTH
    }

    /// The state of the execution that this memory and a cursor make up.
    pub open spec fn state(&self, cursor: &Cursor) -> Machine {
        Machine { tape: self.tape(), pointer: self.position(), control: cursor@ }
    }

    /// A fresh machine: every cell zero, the pointer at the first cell.
    pub fn new() -> (env: Self)
        ensures
            env.tape() == Seq::new(TAPE_LENGTH as nat, |i: int| 0u8),
            env.position() == 0,
            env.on_tape(),
    {
        let env = RuntimeEnvironment { mem: [0u8; TAPE_LENGTH], pointer: 0usize };
        assert(env.mem@ =~= Seq::new(TAPE_LENGTH as nat, |i: int| 0u8));
        env
    }

    /// The cell under the pointer.
    pub fn c_mem(&self) -> (cell: &u8)
        ensures
            self.on_tape(),
            *cell == self.tape()[self.position()],
    {
        proof {
            use_type_invariant(self);
        }
        &self.mem[self.pointer]
    }

    /// The cell under the pointer, to be written. Whatever is written there,
    /// the other cells and the pointer stay as they are.
    pub fn c_mem_mut(&mut self) -> (cell: &mut u8)
        ensures
            *cell == old(self).tape()[old(self).position()],
            final(self).tape() == old(self).tape().update(old(self).position(), *final(cell)),
            final(self).position() == old(self).position(),
            old(self).on_tape(),
            final(self).on_tape(),
    {
        proof {
            use_type_invariant(&*self);
        }
        cell_at(&mut self.mem, self.pointer)
    }

    /// The index of the cell that the pointer is at.
    pub fn pointer(&self) -> (pointer: usize)
        ensures
            self.on_tape(),
            pointer == self.position(),
    {
        proof {
            use_type_invariant(self);
        }
        self.pointer
    }

    /// The value of any cell of the tape; nothing for an index beyond it.
    pub fn cell(&self, index: usize) -> (value: Option<u8>)
        ensures
            self.on_tape(),
            value == if index < TAPE_LENGTH {
                Some(self.tape()[index as int])
            } else {
                None
            },
    {
        proof {
            use_type_invariant(self);
        }
        if index < TAPE_LENGTH {
            Some(self.mem[index])
        } else {
            None
        }
    }

    /// Executes the instruction that the cursor is at, and says what the host
    /// has to do. A failed step changes nothing: the cursor stays at the
    /// instruction that failed. At an input instruction the machine waits:
    /// the step changes nothing and asks for a character, which
    /// [`RuntimeEnvironment::input`] takes.
    pub fn step<'a>(&mut self, cursor: &mut Cursor<'a>) -> (signal: Result<Signal, Error>)
        ensures
            (final(self).state(final(cursor)), signal) == step_spec(old(self).state(old(cursor))),
            final(self).state(final(cursor)).valid(),
            final(self).on_tape(),
    {
        proof {
            use_type_invariant(&*self);
        }
        match cursor.node() {
            None => Ok(Signal::Finished),
            Some(node) => {
                match node {
                    AstNode::IncrementPointer => {
                        if self.pointer + 1 < TAPE_LENGTH {
                            self.pointer += 1usize;
                            cursor.advance();
                            Ok(Signal::Continue)
                        } else {
                            Err(Error::MemoryPointerOverflow)
                        }
                    },
                    AstNode::DecrementPointer => {
                        if let Some(v) = self.pointer.checked_sub(1usize) {
                            self.pointer = v;
                            cursor.advance();
                            Ok(Signal::Continue)
                        } else {
                            Err(Error::MemoryPointerOverflow)
                        }
                    },
                    AstNode::Increment => {
                        let value = self.c_mem().wrapping_add(1u8);
                        *self.c_mem_mut() = value;
                        cursor.advance();
                        Ok(Signal::Continue)
                    },
                    AstNode::Decrement => {
                        let value = self.c_mem().wrapping_sub(1u8);
                        *self.c_mem_mut() = value;
                        cursor.advance();
                        Ok(Signal::Continue)
                    },
                    AstNode::Output => {
                        let value = *self.c_mem();
                        if value < 128 {
                            cursor.advance();
                            Ok(Signal::Output(value as char))
                        } else {
                            Err(Error::NonAsciiOutputValue)
                        }
                    },
                    AstNode::Input => Ok(Signal::Input),
                    AstNode::Loop(body) => {
                        proof {
                            lemma_loop_view(*body);
                        }
                        if *self.c_mem() != 0u8 {
                            cursor.enter(body);
                        } else {
                            cursor.advance();
                        }
                        Ok(Signal::Continue)
                    },
                }
            },
        }
    }

    /// Offers a character to a machine. It is taken if the machine waits at
    /// an input instruction and the character is ASCII: then it is stored in
    /// the current cell and the cursor moves on. Otherwise nothing changes,
    /// and the host offers the next character that comes.
    pub fn input<'a>(&mut self, cursor: &mut Cursor<'a>, c: char) -> (taken: bool)
        ensures
            taken == takes(old(self).state(old(cursor)), c),
            final(self).state(final(cursor)) == supply(old(self).state(old(cursor)), c),
            final(self).state(final(cursor)).valid(),
            final(self).on_tape(),
    {
        proof {
            use_type_invariant(&*self);
        }
        match cursor.node() {
            Some(AstNode::Input) => {
                let code = c as u32;
                if code < 128 {
                    *self.c_mem_mut() = code as u8;
                    cursor.advance();
                    true
                } else {
                    false
                }
            },
            _ => false,
        }
    }

    /// Executes instructions until one asks something of the host, one
    /// fails, the program ends, or `budget` instructions have been executed.
    /// The signal is `Continue` only where the budget ran out.
    pub fn run<'a>(&mut self, cursor: &mut Cursor<'a>, budget: usize) -> (signal: Result<
        Signal,
        Error,
    >)
        ensures
            (final(self).state(final(cursor)), signal) == run_spec(
                old(self).state(old(cursor)),
                budget as nat,
            ),
            final(self).state(final(cursor)).valid(),
            final(self).on_tape(),
    {
        proof {
            use_type_invariant(&*self);
            use_type_invariant(&*cursor);
        }
        let mut left: usize = budget;
        while left > 0
            invariant
                self.state(cursor).valid(),
                self.on_tape(),
                run_spec(self.state(cursor), left as nat) == run_spec(
                    old(self).state(old(cursor)),
                    budget as nat,
                ),
            decreases left,
        {
            let signal = self.step(cursor);
            match signal {
                Ok(Signal::Continue) => {},
                _ => {
                    return signal;
                },
            }
            left -= 1;
        }
        Ok(Signal::Continue)
    }
}

} // verus!
