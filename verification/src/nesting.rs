//! How the brackets of a token sequence and the loops of a tree answer each
//! other.

use vstd::prelude::*;
use crate::ast::{
    closes_unopened, depth, depth_change, instruction_tokens, lemma_depth_take_succ,
    structural_error, unparse, well_nested, Instruction,
};
use crate::error::Error;
use crate::token::Token;

verus! {

/// The depth after one token is the change that the token makes.
pub proof fn lemma_depth_single(t: Token)
    ensures
        depth(seq![t]) == depth_change(t),
{
    assert(seq![t].drop_last() =~= Seq::<Token>::empty());
    assert(depth(seq![t].drop_last()) == 0);
}

/// Depths add up over concatenation.
pub proof fn lemma_depth_concat(a: Seq<Token>, b: Seq<Token>)
    ensures
        depth(a + b) == depth(a) + depth(b),
    decreases b.len(),
{
    if b.len() == 0 {
        assert(a + b =~= a);
    } else {
        lemma_depth_concat(a, b.drop_last());
        assert((a + b).drop_last() =~= a + b.drop_last());
    }
}

/// Two well-nested sequences in a row are well nested.
pub proof fn lemma_concat_well_nested(a: Seq<Token>, b: Seq<Token>)
    requires
        well_nested(a),
        well_nested(b),
    ensures
        well_nested(a + b),
{
    lemma_depth_concat(a, b);
    assert forall|k: int| 0 <= k <= (a + b).len() implies #[trigger] depth((a + b).take(k))
        >= 0 by {
        if k <= a.len() {
            assert((a + b).take(k) =~= a.take(k));
        } else {
            let rest = b.take(k - a.len());
            assert((a + b).take(k) =~= a + rest);
            lemma_depth_concat(a, rest);
        }
    }
}

/// Inside a bracket pair round a well-nested sequence the depth is at least
/// one: from just behind the entry to just before the exit.
pub proof fn lemma_depth_inside_loop(before: Seq<Token>, inner: Seq<Token>, k: int)
    requires
        well_nested(before),
        well_nested(inner),
        before.len() < k <= before.len() + 1 + inner.len(),
    ensures
        depth((before + seq![Token::EnterLoop] + inner + seq![Token::ExitLoop]).take(k)) >= 1,
{
    let whole = before + seq![Token::EnterLoop] + inner + seq![Token::ExitLoop];
    let part = inner.take(k - before.len() - 1);
    assert(whole.take(k) =~= (before + seq![Token::EnterLoop]) + part);
    lemma_depth_concat(before + seq![Token::EnterLoop], part);
    lemma_depth_concat(before, seq![Token::EnterLoop]);
    lemma_depth_single(Token::EnterLoop);
}

/// A bracket pair round a well-nested sequence is well nested.
pub proof fn lemma_loop_well_nested(inner: Seq<Token>)
    requires
        well_nested(inner),
    ensures
        well_nested(seq![Token::EnterLoop] + inner + seq![Token::ExitLoop]),
{
    let whole = seq![Token::EnterLoop] + inner + seq![Token::ExitLoop];
    let none = Seq::<Token>::empty();
    assert(none + seq![Token::EnterLoop] + inner + seq![Token::ExitLoop] =~= whole);
    assert(none.take(0) =~= none);
    lemma_depth_concat(seq![Token::EnterLoop] + inner, seq![Token::ExitLoop]);
    lemma_depth_concat(seq![Token::EnterLoop], inner);
    lemma_depth_single(Token::EnterLoop);
    lemma_depth_single(Token::ExitLoop);
    assert forall|k: int| 0 <= k <= whole.len() implies #[trigger] depth(whole.take(k)) >= 0 by {
        if k == 0 {
            assert(whole.take(0) =~= none);
        } else if k <= 1 + inner.len() {
            lemma_depth_inside_loop(none, inner, k);
        } else {
            assert(whole.take(k) =~= whole);
        }
    }
}

/// Every instruction is written with at least one token.
pub proof fn lemma_instruction_has_tokens(instruction: Instruction)
    ensures
        instruction_tokens(instruction).len() >= 1,
{
}

/// What an instruction is written with is well nested.
pub proof fn lemma_instruction_well_nested(instruction: Instruction)
    ensures
        well_nested(instruction_tokens(instruction)),
    decreases instruction,
{
    let tokens = instruction_tokens(instruction);
    match instruction {
        Instruction::Loop(body) => {
            lemma_unparse_well_nested(body);
            lemma_loop_well_nested(unparse(body));
        },
        _ => {
            let t = tokens[0];
            assert(tokens =~= seq![t]);
            lemma_depth_single(t);
            assert forall|k: int| 0 <= k <= tokens.len() implies #[trigger] depth(tokens.take(k))
                >= 0 by {
                if k == 0 {
                    assert(tokens.take(0) =~= Seq::<Token>::empty());
                } else {
                    assert(tokens.take(k) =~= tokens);
                }
            }
        },
    }
}

/// What a program is written with is well nested: every tree is the tree of
/// a token sequence that parses.
pub proof fn lemma_unparse_well_nested(instructions: Seq<Instruction>)
    ensures
        well_nested(unparse(instructions)),
    decreases instructions,
{
    if instructions.len() == 0 {
        let none = Seq::<Token>::empty();
        assert forall|k: int| 0 <= k <= none.len() implies #[trigger] depth(none.take(k)) >= 0 by {
            assert(none.take(k) =~= none);
        }
    } else {
        lemma_unparse_well_nested(instructions.drop_last());
        lemma_instruction_well_nested(instructions.last());
        lemma_concat_well_nested(
            unparse(instructions.drop_last()),
            instruction_tokens(instructions.last()),
        );
    }
}


/// How many loops a program has at a nesting level. The loops of the
/// program's own sequence are at level 0, those directly in their bodies at
/// level 1, and so on.
pub open spec fn loops_at(instructions: Seq<Instruction>, level: nat) -> nat
    decreases instructions,
{
    if instructions.len() == 0 {
        0
    } else {
        loops_at(instructions.drop_last(), level) + loops_in(instructions.last(), level)
    }
}

/// How many loops one instruction has at a nesting level, itself included.
pub open spec fn loops_in(instruction: Instruction, level: nat) -> nat
    decreases instruction,
{
    match instruction {
        Instruction::Loop(body) => if level == 0 {
            1
        } else {
            loops_at(body, (level - 1) as nat)
        },
        _ => 0,
    }
}

/// How many loop entries of a token sequence stand at a nesting depth: the
/// depth just before the entry.
pub open spec fn entries_at(tokens: Seq<Token>, level: int) -> nat
    decreases tokens.len(),
{
    if tokens.len() == 0 {
        0
    } else {
        let earlier = entries_at(tokens.drop_last(), level);
        if tokens.last() == Token::EnterLoop && depth(tokens.drop_last()) == level {
            earlier + 1
        } else {
            earlier
        }
    }
}

/// Entries are counted piece by piece: the second piece starts at the depth
/// that the first ends at.
pub proof fn lemma_entries_concat(a: Seq<Token>, b: Seq<Token>, level: int)
    ensures
        entries_at(a + b, level) == entries_at(a, level) + entries_at(b, level - depth(a)),
    decreases b.len(),
{
    if b.len() == 0 {
        assert(a + b =~= a);
    } else {
        lemma_entries_concat(a, b.drop_last(), level);
        lemma_depth_concat(a, b.drop_last());
        assert((a + b).drop_last() =~= a + b.drop_last());
    }
}

/// A sequence that closes no unopened loop has no entry at a negative depth.
pub proof fn lemma_no_entries_below(tokens: Seq<Token>, level: int)
    requires
        !closes_unopened(tokens),
        level < 0,
    ensures
        entries_at(tokens, level) == 0,
    decreases tokens.len(),
{
    if tokens.len() > 0 {
        let earlier = tokens.drop_last();
        assert(tokens.take(tokens.len() - 1) =~= earlier);
        assert forall|k: int| 0 <= k <= earlier.len() implies #[trigger] depth(earlier.take(k))
            >= 0 by {
            assert(earlier.take(k) =~= tokens.take(k));
        }
        lemma_no_entries_below(earlier, level);
    }
}

/// The loops of one instruction are the entries of its tokens, level by
/// level.
pub proof fn lemma_instruction_loops_match_entries(instruction: Instruction, level: nat)
    ensures
        loops_in(instruction, level) == entries_at(instruction_tokens(instruction), level as int),
    decreases instruction,
{
    let tokens = instruction_tokens(instruction);
    let none = Seq::<Token>::empty();
    match instruction {
        Instruction::Loop(body) => {
            let inner = unparse(body);
            let entry = seq![Token::EnterLoop];
            let exit = seq![Token::ExitLoop];
            lemma_unparse_well_nested(body);
            lemma_depth_single(Token::EnterLoop);
            lemma_depth_concat(entry, inner);
            lemma_entries_concat(entry + inner, exit, level as int);
            lemma_entries_concat(entry, inner, level as int);
            assert(entry.drop_last() =~= none);
            assert(exit.drop_last() =~= none);
            assert(entries_at(none, level as int) == 0);
            assert(entries_at(none, level - 1) == 0);
            assert(entries_at(exit, level - 1) == 0);
            assert(entries_at(entry, level as int) == if level == 0 {
                1nat
            } else {
                0nat
            });
            if level == 0 {
                lemma_no_entries_below(inner, -1);
            } else {
                lemma_loops_match_entries(body, (level - 1) as nat);
            }
        },
        _ => {
            let t = tokens[0];
            assert(tokens =~= seq![t]);
            assert(tokens.drop_last() =~= none);
            assert(entries_at(none, level as int) == 0);
        },
    }
}

/// A program has as many loops at each nesting level as its tokens have
/// loop entries at that depth. With what the parser promises of its tree,
/// this counts the loops of a parsed source from its brackets.
pub proof fn lemma_loops_match_entries(instructions: Seq<Instruction>, level: nat)
    ensures
        loops_at(instructions, level) == entries_at(unparse(instructions), level as int),
    decreases instructions,
{
    if instructions.len() > 0 {
        let earlier = instructions.drop_last();
        lemma_loops_match_entries(earlier, level);
        lemma_instruction_loops_match_entries(instructions.last(), level);
        lemma_unparse_well_nested(earlier);
        lemma_entries_concat(
            unparse(earlier),
            instruction_tokens(instructions.last()),
            level as int,
        );
    }
}

/// The instruction that a token sequence ends with decides its last token:
/// a loop ends with an exit, any other instruction is its own token.
proof fn lemma_last_token(instructions: Seq<Instruction>)
    requires
        instructions.len() > 0,
    ensures
        unparse(instructions).len() > 0,
        unparse(instructions).last() == instruction_tokens(instructions.last()).last(),
        unparse(instructions).len() == unparse(instructions.drop_last()).len()
            + instruction_tokens(instructions.last()).len(),
{
    lemma_instruction_has_tokens(instructions.last());
}

/// Two programs that are written with the same tokens are the same program:
/// a token sequence has at most one tree.
pub proof fn lemma_unparse_injective(a: Seq<Instruction>, b: Seq<Instruction>)
    requires
        unparse(a) == unparse(b),
    ensures
        a == b,
    decreases unparse(a).len(),
{
    if a.len() == 0 {
        if b.len() > 0 {
            lemma_last_token(b);
        }
        assert(a =~= b);
    } else if b.len() == 0 {
        lemma_last_token(a);
    } else {
        lemma_last_token(a);
        lemma_last_token(b);
        let whole = unparse(a);
        let before_a = unparse(a.drop_last());
        let before_b = unparse(b.drop_last());
        match (a.last(), b.last()) {
            (Instruction::Loop(x), Instruction::Loop(y)) => {
                let inner_a = unparse(x);
                let inner_b = unparse(y);
                let entry = seq![Token::EnterLoop];
                let exit = seq![Token::ExitLoop];
                assert(whole =~= before_a + entry + inner_a + exit);
                assert(whole =~= before_b + entry + inner_b + exit);
                lemma_unparse_well_nested(a.drop_last());
                lemma_unparse_well_nested(b.drop_last());
                lemma_unparse_well_nested(x);
                lemma_unparse_well_nested(y);
                assert(whole.take(before_a.len() as int) =~= before_a);
                assert(whole.take(before_b.len() as int) =~= before_b);
                if before_a.len() < before_b.len() {
                    lemma_depth_inside_loop(before_a, inner_a, before_b.len() as int);
                } else if before_b.len() < before_a.len() {
                    lemma_depth_inside_loop(before_b, inner_b, before_a.len() as int);
                }
                assert(before_a.len() == before_b.len());
                assert(inner_a =~= whole.subrange(before_a.len() as int + 1, whole.len() - 1));
                assert(inner_b =~= whole.subrange(before_b.len() as int + 1, whole.len() - 1));
                lemma_unparse_injective(a.drop_last(), b.drop_last());
                lemma_unparse_injective(x, y);
            },
            (Instruction::Loop(_), _) => {},
            (_, Instruction::Loop(_)) => {},
            _ => {
                assert(before_a =~= whole.drop_last());
                assert(before_b =~= whole.drop_last());
                lemma_unparse_injective(a.drop_last(), b.drop_last());
            },
        }
        assert(a =~= a.drop_last().push(a.last()));
        assert(b =~= b.drop_last().push(b.last()));
    }
}


/// The exit at `exit` closes the entry at `entry`: it is the first place
/// behind the entry where the depth is back to what it was before it.
pub open spec fn matched(tokens: Seq<Token>, entry: int, exit: int) -> bool {
    &&& 0 <= entry < exit < tokens.len()
    &&& tokens[entry] == Token::EnterLoop
    &&& tokens[exit] == Token::ExitLoop
    &&& depth(tokens.take(exit + 1)) == depth(tokens.take(entry))
    &&& forall|k: int|
        entry < k <= exit ==> #[trigger] depth(tokens.take(k)) > depth(tokens.take(entry))
}

/// A loop entry that no exit closes.
pub open spec fn unmatched_entry(tokens: Seq<Token>, entry: int) -> bool {
    &&& 0 <= entry < tokens.len()
    &&& tokens[entry] == Token::EnterLoop
    &&& forall|exit: int| !matched(tokens, entry, exit)
}

/// A loop exit that closes no entry.
pub open spec fn unmatched_exit(tokens: Seq<Token>, exit: int) -> bool {
    &&& 0 <= exit < tokens.len()
    &&& tokens[exit] == Token::ExitLoop
    &&& forall|entry: int| !matched(tokens, entry, exit)
}

/// Walks forward from an entry to the exit that closes it.
proof fn lemma_find_exit(tokens: Seq<Token>, entry: int, k: int) -> (exit: int)
    requires
        0 <= entry < k <= tokens.len(),
        tokens[entry] == Token::EnterLoop,
        depth(tokens) <= depth(tokens.take(entry)),
        forall|j: int|
            entry < j <= k ==> #[trigger] depth(tokens.take(j)) > depth(tokens.take(entry)),
    ensures
        matched(tokens, entry, exit),
    decreases tokens.len() - k,
{
    if k == tokens.len() {
        // The walk cannot come to the end: there the depth is not above
        // what it was before the entry.
        assert(tokens.take(k) =~= tokens);
        assert(false);
        k
    } else {
        lemma_depth_take_succ(tokens, k);
        if depth(tokens.take(k + 1)) > depth(tokens.take(entry)) {
            lemma_find_exit(tokens, entry, k + 1)
        } else {
            k
        }
    }
}

/// Walks back from an exit to the entry that it closes.
proof fn lemma_find_entry(tokens: Seq<Token>, exit: int, k: int) -> (entry: int)
    requires
        0 <= k <= exit < tokens.len(),
        tokens[exit] == Token::ExitLoop,
        depth(tokens.take(exit + 1)) >= 0,
        forall|j: int|
            k < j <= exit ==> #[trigger] depth(tokens.take(j)) > depth(tokens.take(exit + 1)),
    ensures
        matched(tokens, entry, exit),
    decreases k,
{
    lemma_depth_take_succ(tokens, exit);
    if depth(tokens.take(k)) > depth(tokens.take(exit + 1)) {
        if k == 0 {
            // The walk cannot come to the start: there the depth is zero.
            assert(tokens.take(0) =~= Seq::<Token>::empty());
            assert(false);
            k
        } else {
            lemma_find_entry(tokens, exit, k - 1)
        }
    } else {
        lemma_depth_take_succ(tokens, k);
        k
    }
}

/// In a sequence that closes no unopened loop and ends at depth zero, every
/// entry has the exit that closes it.
pub proof fn lemma_entry_is_closed(tokens: Seq<Token>, entry: int) -> (exit: int)
    requires
        well_nested(tokens),
        0 <= entry < tokens.len(),
        tokens[entry] == Token::EnterLoop,
    ensures
        matched(tokens, entry, exit),
{
    lemma_depth_take_succ(tokens, entry);
    assert(depth(tokens.take(entry)) >= 0);
    lemma_find_exit(tokens, entry, entry + 1)
}

/// In a sequence that closes no unopened loop, every exit has the entry
/// that it closes.
pub proof fn lemma_exit_is_opened(tokens: Seq<Token>, exit: int) -> (entry: int)
    requires
        !closes_unopened(tokens),
        0 <= exit < tokens.len(),
        tokens[exit] == Token::ExitLoop,
    ensures
        matched(tokens, entry, exit),
{
    lemma_depth_take_succ(tokens, exit);
    assert(depth(tokens.take(exit + 1)) >= 0);
    lemma_find_entry(tokens, exit, exit)
}

/// The first place at which the depth is negative, given that there is one.
proof fn lemma_first_stray_exit(tokens: Seq<Token>, from: int, bad: int) -> (exit: int)
    requires
        0 <= from < bad <= tokens.len(),
        depth(tokens.take(bad)) < 0,
        forall|j: int| 0 <= j <= from ==> #[trigger] depth(tokens.take(j)) >= 0,
    ensures
        unmatched_exit(tokens, exit),
    decreases bad - from,
{
    lemma_depth_take_succ(tokens, from);
    if depth(tokens.take(from + 1)) < 0 {
        assert forall|entry: int| !matched(tokens, entry, from) by {
            if matched(tokens, entry, from) {
                assert(depth(tokens.take(entry)) >= 0);
            }
        }
        from
    } else {
        lemma_first_stray_exit(tokens, from + 1, bad)
    }
}

/// The last place at which the depth is zero, in a sequence that ends
/// above zero.
proof fn lemma_last_open_entry(tokens: Seq<Token>, from: int) -> (entry: int)
    requires
        !closes_unopened(tokens),
        0 <= from < tokens.len(),
        forall|j: int| from < j <= tokens.len() ==> #[trigger] depth(tokens.take(j)) > 0,
    ensures
        unmatched_entry(tokens, entry),
    decreases from,
{
    assert(depth(tokens.take(from)) >= 0);
    if depth(tokens.take(from)) == 0 {
        lemma_depth_take_succ(tokens, from);
        assert forall|exit: int| !matched(tokens, from, exit) by {
            if matched(tokens, from, exit) {
                assert(depth(tokens.take(exit + 1)) > 0);
            }
        }
        from
    } else {
        if from == 0 {
            // The walk cannot pass the start: there the depth is zero.
            assert(tokens.take(0) =~= Seq::<Token>::empty());
            assert(false);
            from
        } else {
            lemma_last_open_entry(tokens, from - 1)
        }
    }
}

/// What the parser reports is what is wrong with the brackets. It reports a
/// missing opening exactly when some exit closes no entry; a missing
/// delimiter exactly when every exit closes an entry and some entry is
/// closed by no exit; and it builds a tree exactly when every entry has the
/// exit that closes it and every exit the entry that it closes.
pub proof fn lemma_structural_error_names_the_bracket(tokens: Seq<Token>)
    ensures
        structural_error(tokens) == Some(Error::MissingLoopOpening) <==> exists|exit: int|
            unmatched_exit(tokens, exit),
        structural_error(tokens) == Some(Error::MissingLoopDelimiter) <==> (forall|exit: int|
            !unmatched_exit(tokens, exit)) && exists|entry: int| unmatched_entry(tokens, entry),
        structural_error(tokens) is None <==> (forall|exit: int| !unmatched_exit(tokens, exit))
            && forall|entry: int| !unmatched_entry(tokens, entry),
{
    assert(tokens.take(tokens.len() as int) =~= tokens);
    assert(tokens.take(0) =~= Seq::<Token>::empty());
    if closes_unopened(tokens) {
        let bad = choose|k: int| 0 <= k <= tokens.len() && #[trigger] depth(tokens.take(k)) < 0;
        let exit = lemma_first_stray_exit(tokens, 0, bad);
        assert(unmatched_exit(tokens, exit));
    } else {
        assert forall|exit: int| !unmatched_exit(tokens, exit) by {
            if 0 <= exit < tokens.len() && tokens[exit] == Token::ExitLoop {
                let entry = lemma_exit_is_opened(tokens, exit);
                assert(matched(tokens, entry, exit));
            }
        }
        if depth(tokens) != 0 {
            assert(depth(tokens.take(tokens.len() as int)) >= 0);
            let entry = lemma_last_open_entry(tokens, tokens.len() - 1);
            assert(unmatched_entry(tokens, entry));
        } else {
            assert forall|entry: int| !unmatched_entry(tokens, entry) by {
                if 0 <= entry < tokens.len() && tokens[entry] == Token::EnterLoop {
                    let exit = lemma_entry_is_closed(tokens, entry);
                    assert(matched(tokens, entry, exit));
                }
            }
        }
    }
}

} // verus!
