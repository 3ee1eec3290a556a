//! What executing a program means, stated on mathematical values.
//!
//! An execution is a tape, a pointer and a control stack. The stack holds one
//! level for the top-level sequence and one for each loop body that has been
//! entered and not yet left; each level says which instruction of its
//! sequence comes next. One step executes the instruction that the innermost
//! level points at.

use vstd::prelude::*;
use crate::ast::Instruction;
use crate::error::Error;

verus! {

/// What the host has to do after a step.
#[derive(Clone, Copy, Debug, PartialEq, Eq, Structural)]
pub enum Signal {
    /// An instruction was executed that needs nothing from the host.
    Continue,
    /// The character is to be written out.
    Output(char),
    /// The next instruction reads a character: the machine waits for one.
    Input,
    /// No instruction is left.
    Finished,
}

/// A position in one instruction sequence.
pub ghost struct Level {
    /// The sequence.
    pub body: Seq<Instruction>,
    /// The index in it of the instruction that comes next.
    pub index: int,
}

/// The state of an execution.
pub ghost struct Machine {
    /// The cells.
    pub tape: Seq<u8>,
    /// The index of the current cell.
    pub pointer: int,
    /// The control stack, outermost level first. A level below the innermost
    /// points at the loop whose body the next level is in.
    pub control: Seq<Level>,
}

/// Each level points at an instruction of its sequence, and each level but
/// the innermost at the loop whose body is the next level's sequence.
pub open spec fn control_valid(control: Seq<Level>) -> bool {
    &&& forall|d: int|
        0 <= d < control.len() ==> 0 <= (#[trigger] control[d]).index < control[d].body.len()
    &&& forall|d: int|
        0 <= d < control.len() - 1 ==> (#[trigger] control[d]).body[control[d].index]
            == Instruction::Loop(control[d + 1].body)
}

impl Machine {
    /// The pointer is on the tape and the control stack is in order.
    pub open spec fn valid(self) -> bool {
        &&& 0 <= self.pointer < self.tape.len()
        &&& control_valid(self.control)
    }

    /// The value of the current cell.
    pub open spec fn cell(self) -> u8 {
        self.tape[self.pointer]
    }
}

/// The control stack at the start of a program.
pub open spec fn start(program: Seq<Instruction>) -> Seq<Level> {
    if program.len() == 0 {
        Seq::empty()
    } else {
        seq![Level { body: program, index: 0 }]
    }
}

/// The instruction that comes next, if any is left.
pub open spec fn current(control: Seq<Level>) -> Option<Instruction> {
    if control.len() == 0 {
        None
    } else {
        Some(control.last().body[control.last().index])
    }
}

/// The control stack once the current instruction is done: the innermost
/// level moves on by one, and is left if that was its last instruction. The
/// level below then points at the loop that was left, whose condition is
/// tested next.
pub open spec fn advance(control: Seq<Level>) -> Seq<Level>
    recommends
        control.len() > 0,
{
    let top = control.last();
    if top.index + 1 < top.body.len() {
        control.drop_last().push(Level { body: top.body, index: top.index + 1 })
    } else {
        control.drop_last()
    }
}

/// The control stack once a loop body is entered. The level of the loop
/// itself stays where it is. An empty body is entered and left at once.
pub open spec fn enter(control: Seq<Level>, body: Seq<Instruction>) -> Seq<Level> {
    if body.len() == 0 {
        control
    } else {
        control.push(Level { body, index: 0 })
    }
}

/// A cell value plus one, modulo 256.
pub open spec fn incremented(cell: u8) -> u8 {
    ((cell + 1) % 256) as u8
}

/// A cell value minus one, modulo 256.
pub open spec fn decremented(cell: u8) -> u8 {
    ((cell - 1) % 256) as u8
}

/// Whether a cell value is a 7-bit ASCII code.
pub open spec fn is_ascii_code(cell: u8) -> bool {
    cell < 128
}

/// One step of an execution: the state after it, and what it asks of the
/// host. A step that fails leaves the state as it was, so the control stack
/// still points at the instruction that failed. A step at an input
/// instruction changes nothing either: the machine waits there until
/// [`supply`] hands it a character.
pub open spec fn step_spec(m: Machine) -> (Machine, Result<Signal, Error>) {
    match current(m.control) {
        None => (m, Ok(Signal::Finished)),
        Some(Instruction::IncrementPointer) => {
            if m.pointer + 1 < m.tape.len() {
                (
                    Machine { pointer: m.pointer + 1, control: advance(m.control), ..m },
                    Ok(Signal::Continue),
                )
            } else {
                (m, Err(Error::MemoryPointerOverflow))
            }
        },
        Some(Instruction::DecrementPointer) => {
            if m.pointer > 0 {
                (
                    Machine { pointer: m.pointer - 1, control: advance(m.control), ..m },
                    Ok(Signal::Continue),
                )
            } else {
                (m, Err(Error::MemoryPointerOverflow))
            }
        },
        Some(Instruction::Increment) => (
            Machine {
                tape: m.tape.update(m.pointer, incremented(m.cell())),
                control: advance(m.control),
                ..m
            },
            Ok(Signal::Continue),
        ),
        Some(Instruction::Decrement) => (
            Machine {
                tape: m.tape.update(m.pointer, decremented(m.cell())),
                control: advance(m.control),
                ..m
            },
            Ok(Signal::Continue),
        ),
        Some(Instruction::Output) => {
            if is_ascii_code(m.cell()) {
                (Machine { control: advance(m.control), ..m }, Ok(Signal::Output(m.cell() as char)))
            } else {
                (m, Err(Error::NonAsciiOutputValue))
            }
        },
        Some(Instruction::Input) => (m, Ok(Signal::Input)),
        Some(Instruction::Loop(body)) => {
            if m.cell() != 0 {
                (Machine { control: enter(m.control, body), ..m }, Ok(Signal::Continue))
            } else {
                (Machine { control: advance(m.control), ..m }, Ok(Signal::Continue))
            }
        },
    }
}

/// Whether a character offered to a machine is taken: the machine must be
/// waiting at an input instruction, and the character must be ASCII.
pub open spec fn takes(m: Machine, c: char) -> bool {
    current(m.control) == Some(Instruction::Input) && (c as u32) < 128
}

/// The state after a character was offered: if it is taken, it is stored in
/// the current cell and the input instruction is done; if not, nothing
/// changes.
pub open spec fn supply(m: Machine, c: char) -> Machine {
    if takes(m, c) {
        Machine { tape: m.tape.update(m.pointer, c as u8), control: advance(m.control), ..m }
    } else {
        m
    }
}


/// Up to `budget` steps in a row, for as long as the steps ask nothing of
/// the host: the state reached, and the signal of the last step. The signal
/// is `Continue` where the budget ran out first.
pub open spec fn run_spec(m: Machine, budget: nat) -> (Machine, Result<Signal, Error>)
    decreases budget,
{
    if budget == 0 {
        (m, Ok(Signal::Continue))
    } else {
        let (next, signal) = step_spec(m);
        if signal == Ok::<Signal, Error>(Signal::Continue) {
            run_spec(next, (budget - 1) as nat)
        } else {
            (next, signal)
        }
    }
}


/// Cell arithmetic wraps round: one more than 255 is 0 and one less than 0
/// is 255; everywhere else a cell goes up or down by one, and each of the
/// two undoes the other.
pub proof fn lemma_cell_arithmetic_wraps(cell: u8)
    ensures
        incremented(255) == 0,
        decremented(0) == 255,
        cell < 255 ==> incremented(cell) == cell + 1,
        cell > 0 ==> decremented(cell) == cell - 1,
        decremented(incremented(cell)) == cell,
        incremented(decremented(cell)) == cell,
{
}

/// The pointer never leaves the tape. A move to the right succeeds on every
/// cell but the last, a move to the left on every cell but the first; where
/// it succeeds the pointer moves by one cell and nothing else changes on the
/// tape, and where it fails the state stays as it was.
pub proof fn lemma_pointer_stays_on_tape(m: Machine)
    requires
        m.valid(),
    ensures
        current(m.control) == Some(Instruction::IncrementPointer) ==> step_spec(m) == if m.pointer
            == m.tape.len() - 1 {
            (m, Err::<Signal, Error>(Error::MemoryPointerOverflow))
        } else {
            (
                Machine { pointer: m.pointer + 1, control: advance(m.control), ..m },
                Ok::<Signal, Error>(Signal::Continue),
            )
        },
        current(m.control) == Some(Instruction::DecrementPointer) ==> step_spec(m) == if m.pointer
            == 0 {
            (m, Err::<Signal, Error>(Error::MemoryPointerOverflow))
        } else {
            (
                Machine { pointer: m.pointer - 1, control: advance(m.control), ..m },
                Ok::<Signal, Error>(Signal::Continue),
            )
        },
        0 <= step_spec(m).0.pointer < m.tape.len(),
{
}

/// The control stack of a program that has just started is in order.
pub proof fn lemma_start_valid(program: Seq<Instruction>)
    ensures
        control_valid(start(program)),
{
}

/// Moving on keeps the control stack in order.
pub proof fn lemma_advance_valid(control: Seq<Level>)
    requires
        control_valid(control),
        control.len() > 0,
    ensures
        control_valid(advance(control)),
{
    let next = advance(control);
    assert forall|d: int| 0 <= d < next.len() - 1 implies (#[trigger] next[d]).body[next[d].index]
        == Instruction::Loop(next[d + 1].body) by {
        assert(next[d] == control[d]);
    }
}

/// Entering the body of the current loop keeps the control stack in order.
pub proof fn lemma_enter_valid(control: Seq<Level>, body: Seq<Instruction>)
    requires
        control_valid(control),
        current(control) == Some(Instruction::Loop(body)),
    ensures
        control_valid(enter(control, body)),
{
    let next = enter(control, body);
    assert forall|d: int| 0 <= d < next.len() - 1 implies (#[trigger] next[d]).body[next[d].index]
        == Instruction::Loop(next[d + 1].body) by {
        assert(next[d] == control[d]);
    }
}

/// A step keeps a state in order and the tape at its length.
pub proof fn lemma_step_valid(m: Machine)
    requires
        m.valid(),
    ensures
        step_spec(m).0.valid(),
        step_spec(m).0.tape.len() == m.tape.len(),
{
    if m.control.len() > 0 {
        lemma_advance_valid(m.control);
        match current(m.control) {
            Some(Instruction::Loop(body)) => {
                lemma_enter_valid(m.control, body);
            },
            _ => {},
        }
    }
}

/// Offering a character keeps a state in order and the tape at its length.
pub proof fn lemma_supply_valid(m: Machine, c: char)
    requires
        m.valid(),
    ensures
        supply(m, c).valid(),
        supply(m, c).tape.len() == m.tape.len(),
{
    if m.control.len() > 0 {
        lemma_advance_valid(m.control);
    }
}

/// An execution stays in its program: until it has finished, the outermost
/// level of the control stack holds the sequence that it started with.
pub proof fn lemma_step_keeps_program(m: Machine)
    requires
        m.valid(),
    ensures
        step_spec(m).0.control.len() > 0 ==> m.control.len() > 0 && step_spec(m).0.control[0].body
            == m.control[0].body,
{
}

/// A run keeps a state in order and the tape at its length.
pub proof fn lemma_run_valid(m: Machine, budget: nat)
    requires
        m.valid(),
    ensures
        run_spec(m, budget).0.valid(),
        run_spec(m, budget).0.tape.len() == m.tape.len(),
    decreases budget,
{
    if budget > 0 {
        lemma_step_valid(m);
        if step_spec(m).1 == Ok::<Signal, Error>(Signal::Continue) {
            lemma_run_valid(step_spec(m).0, (budget - 1) as nat);
        }
    }
}

/// A run may be cut in two: where the first part used up its budget, the
/// second goes on from there; where it stopped earlier, that is the result.
pub proof fn lemma_run_in_parts(m: Machine, first: nat, second: nat)
    ensures
        run_spec(m, first + second) == if run_spec(m, first).1 == Ok::<Signal, Error>(
            Signal::Continue,
        ) {
            run_spec(run_spec(m, first).0, second)
        } else {
            run_spec(m, first)
        },
    decreases first,
{
    if first > 0 {
        if step_spec(m).1 == Ok::<Signal, Error>(Signal::Continue) {
            lemma_run_in_parts(step_spec(m).0, (first - 1) as nat, second);
        }
    }
}

/// A loop that does nothing but decrement its cell ends: it executes its
/// body once for each unit of the cell, tests the cell before each of them
/// and once more at the end, leaves the cell at zero and goes on behind the
/// loop. With the cell at `c` that is `2 * c + 1` steps.
pub proof fn lemma_countdown_loop_ends(m: Machine)
    requires
        m.valid(),
        current(m.control) == Some(Instruction::Loop(seq![Instruction::Decrement])),
    ensures
        run_spec(m, (2 * m.cell() + 1) as nat) == (
            Machine { tape: m.tape.update(m.pointer, 0), control: advance(m.control), ..m },
            Ok::<Signal, Error>(Signal::Continue),
        ),
    decreases m.cell(),
{
    let body = seq![Instruction::Decrement];
    let done = Machine { tape: m.tape.update(m.pointer, 0), control: advance(m.control), ..m };
    reveal_with_fuel(run_spec, 3);
    if m.cell() == 0 {
        assert(m.tape.update(m.pointer, 0) =~= m.tape);
    } else {
        let inside = step_spec(m).0;
        assert(inside.control == m.control.push(Level { body, index: 0 }));
        let again = step_spec(inside).0;
        assert(inside.control.drop_last() =~= m.control);
        assert(again.control == m.control);
        assert(again.cell() == m.cell() - 1);
        lemma_step_valid(m);
        lemma_step_valid(inside);
        lemma_countdown_loop_ends(again);
        lemma_run_in_parts(m, 2, (2 * again.cell() + 1) as nat);
        assert(again.tape.update(m.pointer, 0) =~= m.tape.update(m.pointer, 0));
    }
}

/// The instructions that a control stack still has before it, in the order
/// in which a walk of the tree comes to them if no loop is entered again:
/// the rest of the innermost sequence, then the rest of the one round it
/// from the loop on, and so on outwards.
pub open spec fn pending(control: Seq<Level>) -> Seq<Instruction>
    decreases control.len(),
{
    if control.len() == 0 {
        Seq::empty()
    } else {
        control.last().body.skip(control.last().index) + pending(control.drop_last())
    }
}

/// A program that has just started has all of itself before it.
pub proof fn lemma_pending_at_start(program: Seq<Instruction>)
    ensures
        pending(start(program)) == program,
{
    if program.len() > 0 {
        assert(start(program).drop_last() =~= Seq::<Level>::empty());
        assert(pending(start(program).drop_last()) =~= Seq::<Instruction>::empty());
        assert(program.skip(0) =~= program);
        assert(pending(start(program)) =~= program);
    }
}

/// The current instruction is the first of those pending, and none is
/// pending exactly when the program has finished.
pub proof fn lemma_pending_first(control: Seq<Level>)
    requires
        control_valid(control),
    ensures
        current(control) == if pending(control).len() == 0 {
            None
        } else {
            Some(pending(control).first())
        },
{
}

/// Moving on takes the first instruction off those pending.
pub proof fn lemma_pending_after_advance(control: Seq<Level>)
    requires
        control_valid(control),
        control.len() > 0,
    ensures
        pending(advance(control)) == pending(control).drop_first(),
{
    let top = control.last();
    let below = control.drop_last();
    let next = advance(control);
    if top.index + 1 < top.body.len() {
        assert(next.drop_last() =~= below);
        assert(pending(next) =~= top.body.skip(top.index + 1) + pending(below));
    } else {
        assert(top.body.skip(top.index) =~= seq![top.body[top.index]]);
    }
    assert(pending(next) =~= pending(control).drop_first());
}

/// Entering a loop puts its body before those pending. The loop itself
/// stays pending behind the body: its condition is tested again once the
/// body is done.
pub proof fn lemma_pending_after_enter(control: Seq<Level>, body: Seq<Instruction>)
    ensures
        pending(enter(control, body)) == body + pending(control),
{
    let next = enter(control, body);
    if body.len() == 0 {
        assert(pending(next) =~= body + pending(control));
    } else {
        assert(next.drop_last() =~= control);
        assert(body.skip(0) =~= body);
    }
}

} // verus!
