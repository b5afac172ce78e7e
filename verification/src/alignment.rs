//! How positions in a raw program line up with positions in a compressed
//! one that holds the same instructions: by counting the instructions that
//! stand before them. Depths and matching brackets carry over along that
//! line.

use vstd::prelude::*;
use crate::brackets::{
    balanced,
    depth,
    has_unmatched_close,
    has_unmatched_open,
    is_bracket,
    matched,
};
use crate::compressor::{expand, instructions_of, is_compressed, repeated};
use crate::instruction::is_instruction;
use crate::semantics::codes;

verus! {

/// The number of instruction bytes among the first `end` bytes of
/// `program`.
pub open spec fn instruction_count(program: Seq<u8>, end: int) -> int
    decreases end,
{
    if end <= 0 {
        0
    } else if is_instruction(program[end - 1]) {
        instruction_count(program, end - 1) + 1
    } else {
        instruction_count(program, end - 1)
    }
}

/// The number of instructions that the first `k` runs of `ops` stand for.
pub open spec fn offset(ops: Seq<(u8, usize)>, k: int) -> int
    decreases k,
{
    if k <= 0 {
        0
    } else {
        offset(ops, k - 1) + ops[k - 1].1
    }
}

/// `ops` holds well-formed runs that stand for the instructions of
/// `program`, in order.
pub open spec fn stands_for(ops: Seq<(u8, usize)>, program: Seq<u8>) -> bool {
    is_compressed(ops) && expand(ops) == instructions_of(program)
}

/// Counting instructions never counts down, and never more than one for a
/// byte.
pub proof fn lemma_instruction_count_grows(program: Seq<u8>, from: int, to: int)
    requires
        0 <= from <= to,
    ensures
        0 <= instruction_count(program, from) <= instruction_count(program, to),
        instruction_count(program, to) - instruction_count(program, from) <= to - from,
    decreases to,
{
    if from < to {
        lemma_instruction_count_grows(program, from, to - 1);
    } else if 0 < from {
        lemma_instruction_count_grows(program, from - 1, from - 1);
    }
}

/// Every well-formed run adds at least one instruction.
pub proof fn lemma_offset_grows(ops: Seq<(u8, usize)>, from: int, to: int)
    requires
        is_compressed(ops),
        0 <= from <= to <= ops.len(),
    ensures
        0 <= offset(ops, from),
        offset(ops, from) + (to - from) <= offset(ops, to),
    decreases to,
{
    if from < to {
        lemma_offset_grows(ops, from, to - 1);
    } else if 0 < from {
        lemma_offset_grows(ops, from - 1, from - 1);
    }
}

/// The instructions of a prefix are a prefix of the instructions, as long
/// as the count says.
pub proof fn lemma_instructions_of_prefix(program: Seq<u8>, end: int)
    requires
        0 <= end <= program.len(),
    ensures
        0 <= instruction_count(program, end) <= instructions_of(program).len(),
        instructions_of(program.take(end)) == instructions_of(program).take(
            instruction_count(program, end),
        ),
    decreases program.len() - end,
{
    if end == program.len() {
        assert(program.take(end) =~= program);
        lemma_instructions_of_len(program, end);
    } else {
        lemma_instructions_of_prefix(program, end + 1);
        lemma_instructions_of_len(program, end);
        assert(program.take(end + 1).drop_last() =~= program.take(end));
    }
}

/// A prefix has as many instructions as the count says.
pub proof fn lemma_instructions_of_len(program: Seq<u8>, end: int)
    requires
        0 <= end <= program.len(),
    ensures
        instructions_of(program.take(end)).len() == instruction_count(program, end),
    decreases end,
{
    if end > 0 {
        lemma_instructions_of_len(program, end - 1);
        assert(program.take(end).drop_last() =~= program.take(end - 1));
    }
}

/// The instruction byte at `position` is the instruction with the number
/// that the count gives it.
pub proof fn lemma_instruction_at(program: Seq<u8>, position: int)
    requires
        0 <= position < program.len(),
        is_instruction(program[position]),
    ensures
        0 <= instruction_count(program, position) < instructions_of(program).len(),
        instructions_of(program)[instruction_count(program, position)] == program[position],
{
    lemma_instructions_of_prefix(program, position);
    lemma_instructions_of_prefix(program, position + 1);
    assert(program.take(position + 1).drop_last() =~= program.take(position));
    let upto = instructions_of(program.take(position + 1));
    assert(upto[instruction_count(program, position)] == program[position]);
}

/// What a prefix of the runs stands for is a prefix of what all of them
/// stand for, as long as the offset says.
pub proof fn lemma_expand_prefix(ops: Seq<(u8, usize)>, k: int)
    requires
        0 <= k <= ops.len(),
    ensures
        0 <= offset(ops, k) <= expand(ops).len(),
        expand(ops.take(k)) == expand(ops).take(offset(ops, k)),
    decreases ops.len() - k,
{
    lemma_expand_len(ops, k);
    if k == ops.len() {
        assert(ops.take(k) =~= ops);
    } else {
        lemma_expand_prefix(ops, k + 1);
        assert(ops.take(k + 1).drop_last() =~= ops.take(k));
    }
}

/// A prefix of the runs stands for as many instructions as the offset says.
pub proof fn lemma_expand_len(ops: Seq<(u8, usize)>, k: int)
    requires
        0 <= k <= ops.len(),
    ensures
        expand(ops.take(k)).len() == offset(ops, k),
    decreases k,
{
    if k > 0 {
        lemma_expand_len(ops, k - 1);
        assert(ops.take(k).drop_last() =~= ops.take(k - 1));
    }
}

/// Every instruction that run `k` stands for is the run's own.
pub proof fn lemma_expand_at(ops: Seq<(u8, usize)>, k: int, number: int)
    requires
        0 <= k < ops.len(),
        offset(ops, k) <= number < offset(ops, k + 1),
    ensures
        0 <= number < expand(ops).len(),
        expand(ops)[number] == ops[k].0,
{
    lemma_expand_prefix(ops, k);
    lemma_expand_prefix(ops, k + 1);
    assert(ops.take(k + 1).drop_last() =~= ops.take(k));
    let upto = expand(ops.take(k + 1));
    assert(upto[number] == repeated(ops[k].0, ops[k].1 as nat)[number - offset(ops, k)]);
}

/// Every instruction number below the count belongs to an instruction byte.
pub proof fn lemma_position_exists(program: Seq<u8>, number: int, end: int) -> (position: int)
    requires
        0 <= number < instruction_count(program, end),
        end <= program.len(),
    ensures
        0 <= position < end,
        is_instruction(program[position]),
        instruction_count(program, position) == number,
    decreases end,
{
    if instruction_count(program, end - 1) <= number {
        end - 1
    } else {
        lemma_position_exists(program, number, end - 1)
    }
}

/// Every instruction number below the offset of the end belongs to a run.
pub proof fn lemma_run_exists(ops: Seq<(u8, usize)>, number: int, end: int) -> (k: int)
    requires
        0 <= number < offset(ops, end),
        end <= ops.len(),
    ensures
        0 <= k < end,
        offset(ops, k) <= number < offset(ops, k + 1),
    decreases end,
{
    if offset(ops, end - 1) <= number {
        end - 1
    } else {
        lemma_run_exists(ops, number, end - 1)
    }
}

/// Comments do not change the depth: a prefix of the program is as deep as
/// the prefix of its instructions.
pub proof fn lemma_depth_of_instructions(program: Seq<u8>, end: int)
    requires
        0 <= end <= program.len(),
    ensures
        depth(program, end) == depth(instructions_of(program), instruction_count(program, end)),
    decreases end,
{
    if end > 0 {
        lemma_depth_of_instructions(program, end - 1);
        if is_instruction(program[end - 1]) {
            lemma_instruction_at(program, end - 1);
        }
    }
}

/// Inside a run of an instruction that is no bracket the depth does not
/// change.
pub proof fn lemma_depth_inside_run(ops: Seq<(u8, usize)>, k: int, number: int)
    requires
        0 <= k < ops.len(),
        !is_bracket(ops[k].0),
        offset(ops, k) <= number <= offset(ops, k + 1),
    ensures
        depth(expand(ops), number) == depth(expand(ops), offset(ops, k)),
    decreases number - offset(ops, k),
{
    if number > offset(ops, k) {
        lemma_depth_inside_run(ops, k, number - 1);
        lemma_expand_at(ops, k, number - 1);
    }
}

/// Before run `k` the instructions written out are as deep as the codes of
/// the runs.
pub proof fn lemma_depth_of_expand(ops: Seq<(u8, usize)>, k: int)
    requires
        is_compressed(ops),
        0 <= k <= ops.len(),
    ensures
        depth(expand(ops), offset(ops, k)) == depth(codes(ops), k),
    decreases k,
{
    if k > 0 {
        lemma_depth_of_expand(ops, k - 1);
        let op = ops[k - 1];
        if is_bracket(op.0) {
            lemma_expand_at(ops, k - 1, offset(ops, k - 1));
        } else {
            lemma_depth_inside_run(ops, k - 1, offset(ops, k));
        }
    }
}

/// Anywhere inside run `k`, its end left out, the instructions written out
/// are as deep as the codes before run `k`.
pub proof fn lemma_depth_in_run(ops: Seq<(u8, usize)>, k: int, number: int)
    requires
        is_compressed(ops),
        0 <= k < ops.len(),
        offset(ops, k) <= number < offset(ops, k + 1),
    ensures
        depth(expand(ops), number) == depth(codes(ops), k),
{
    lemma_depth_of_expand(ops, k);
    if number > offset(ops, k) {
        lemma_depth_inside_run(ops, k, number);
    }
}

/// Where a position in the program and a run in its compressed form have
/// the same instructions before them, they are equally deep.
pub proof fn lemma_depth_aligned(program: Seq<u8>, ops: Seq<(u8, usize)>, position: int, k: int)
    requires
        stands_for(ops, program),
        0 <= position <= program.len(),
        0 <= k <= ops.len(),
        instruction_count(program, position) == offset(ops, k),
    ensures
        depth(program, position) == depth(codes(ops), k),
{
    lemma_depth_of_instructions(program, position);
    lemma_depth_of_expand(ops, k);
}

/// The program and its compressed form hold the same number of
/// instructions.
pub proof fn lemma_totals_agree(program: Seq<u8>, ops: Seq<(u8, usize)>)
    requires
        stands_for(ops, program),
    ensures
        instruction_count(program, program.len() as int) == offset(ops, ops.len() as int),
{
    lemma_instructions_of_prefix(program, program.len() as int);
    lemma_expand_len(ops, ops.len() as int);
    assert(program.take(program.len() as int) =~= program);
    assert(ops.take(ops.len() as int) =~= ops);
}

/// An instruction byte whose number is the offset of run `k` is the
/// instruction of run `k`.
pub proof fn lemma_code_aligned(program: Seq<u8>, ops: Seq<(u8, usize)>, position: int, k: int, done: int)
    requires
        stands_for(ops, program),
        0 <= position < program.len(),
        is_instruction(program[position]),
        0 <= k <= ops.len(),
        0 <= done,
        k < ops.len() ==> done < ops[k].1,
        instruction_count(program, position) == offset(ops, k) + done,
    ensures
        k < ops.len(),
        ops[k].0 == program[position],
{
    lemma_instruction_at(program, position);
    lemma_totals_agree(program, ops);
    lemma_instruction_count_grows(program, position + 1, program.len() as int);
    if k == ops.len() {
        assert(false);
    }
    lemma_expand_at(ops, k, offset(ops, k) + done);
}

/// A matching pair of the compressed form is a matching pair of the
/// program, at the positions of the two brackets.
pub proof fn lemma_matched_in_program(
    program: Seq<u8>,
    ops: Seq<(u8, usize)>,
    open: int,
    close: int,
    open_position: int,
    close_position: int,
)
    requires
        stands_for(ops, program),
        matched(codes(ops), open, close),
        0 <= open_position < program.len(),
        0 <= close_position < program.len(),
        is_instruction(program[open_position]),
        is_instruction(program[close_position]),
        instruction_count(program, open_position) == offset(ops, open),
        instruction_count(program, close_position) == offset(ops, close),
    ensures
        matched(program, open_position, close_position),
{
    let low = depth(program, open_position);
    lemma_code_aligned(program, ops, open_position, open, 0);
    lemma_code_aligned(program, ops, close_position, close, 0);
    lemma_offset_grows(ops, open, close);
    if close_position <= open_position {
        lemma_instruction_count_grows(program, close_position, open_position);
    }
    lemma_depth_aligned(program, ops, open_position, open);
    lemma_depth_aligned(program, ops, close_position, close);
    assert forall|t: int| open_position < t <= close_position implies #[trigger] depth(program, t)
        > low by {
        let number = instruction_count(program, t);
        lemma_instruction_count_grows(program, open_position + 1, t);
        lemma_instruction_count_grows(program, t, close_position);
        assert(offset(ops, open + 1) == offset(ops, open) + 1);
        let k = lemma_run_exists(ops, number, close + 1);
        if k <= open {
            lemma_offset_grows(ops, k + 1, open + 1);
        }
        lemma_depth_of_instructions(program, t);
        lemma_depth_in_run(ops, k, number);
    }
}

/// A program is balanced exactly if the codes of its compressed form are,
/// and each shows the same defect where they are not.
pub proof fn lemma_balance_carries_over(program: Seq<u8>, ops: Seq<(u8, usize)>)
    requires
        stands_for(ops, program),
    ensures
        has_unmatched_close(program) <==> has_unmatched_close(codes(ops)),
        has_unmatched_open(program) <==> has_unmatched_open(codes(ops)),
        balanced(program) <==> balanced(codes(ops)),
{
    lemma_totals_agree(program, ops);
    lemma_depth_aligned(program, ops, program.len() as int, ops.len() as int);
    if has_unmatched_close(program) {
        let position = choose|position: int|
            0 <= position <= program.len() && #[trigger] depth(program, position) < 0;
        let number = instruction_count(program, position);
        lemma_instruction_count_grows(program, position, program.len() as int);
        lemma_depth_of_instructions(program, position);
        if number == offset(ops, ops.len() as int) {
            lemma_depth_of_expand(ops, ops.len() as int);
        } else {
            let k = lemma_run_exists(ops, number, ops.len() as int);
            lemma_depth_in_run(ops, k, number);
        }
    }
    if has_unmatched_close(codes(ops)) {
        let k = choose|k: int| 0 <= k <= codes(ops).len() && #[trigger] depth(codes(ops), k) < 0;
        if k == ops.len() {
        } else {
            lemma_offset_grows(ops, k, ops.len() as int);
            let position = lemma_position_exists(program, offset(ops, k), program.len() as int);
            lemma_depth_aligned(program, ops, position, k);
        }
    }
}

} // verus!
