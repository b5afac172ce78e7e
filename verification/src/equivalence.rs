//! The two interpreters cannot be told apart.
//!
//! A run is watched through its status and the bytes it has written. Where
//! a compressed program stands for the instructions of a raw program, every
//! such observation that a run of one of them offers, after some number of
//! steps, a run of the other offers too.

use vstd::prelude::*;
use crate::alignment::{
    instruction_count,
    lemma_balance_carries_over,
    lemma_code_aligned,
    lemma_expand_at,
    lemma_expand_len,
    lemma_matched_in_program,
    lemma_offset_grows,
    lemma_position_exists,
    lemma_run_exists,
    lemma_totals_agree,
    offset,
    stands_for,
};
use crate::brackets::{
    balanced,
    depth,
    has_unmatched_close,
    has_unmatched_open,
    is_bracket,
    lemma_close_exists,
    lemma_close_is_unique,
    lemma_open_exists,
    lemma_open_is_unique,
    matched,
};
use crate::compressor::{
    compressed,
    expand,
    instructions_of,
    is_compressed,
    lemma_compressed_is_faithful,
};
use crate::instruction::{is_instruction, is_mergeable, DECREMENT, INCREMENT, LOOP_CLOSE, LOOP_OPEN};
use crate::machine::{effect, faults, goto, lemma_arithmetic_wraps, Config};
use crate::semantics::{
    advance,
    begin,
    codes,
    lemma_codes_of_lift,
    lemma_finished_run_stays,
    lift,
    partner,
    run_for,
    Run,
    Status,
};

verus! {

/// After some number of steps the run of `ops` on a fresh machine of
/// `tape_len` cells with `input` pending has this status and has written
/// this output.
pub open spec fn observes(
    ops: Seq<(u8, usize)>,
    tape_len: nat,
    input: Seq<u8>,
    status: Status,
    output: Seq<u8>,
) -> bool {
    exists|steps: nat|
        {
            let run = #[trigger] run_for(ops, begin(tape_len, input), steps);
            run.status == status && run.output == output
        }
}

/// Two programs cannot be told apart by watching them run on a fresh
/// machine of `tape_len` cells with `input` pending: whatever status and
/// output one of them shows after some number of steps, the other shows
/// after some number of its own.
pub open spec fn same_observations(
    one: Seq<(u8, usize)>,
    other: Seq<(u8, usize)>,
    tape_len: nat,
    input: Seq<u8>,
) -> bool {
    forall|status: Status, output: Seq<u8>|
        #![trigger observes(one, tape_len, input, status, output)]
        #![trigger observes(other, tape_len, input, status, output)]
        observes(one, tape_len, input, status, output) <==> observes(
            other,
            tape_len,
            input,
            status,
            output,
        )
}

/// Wherever a run of each of two programs, on a fresh machine of `tape_len`
/// cells with `input` pending, is over, the two have ended in the same way
/// and have written the same output.
pub open spec fn same_results(
    one: Seq<(u8, usize)>,
    other: Seq<(u8, usize)>,
    tape_len: nat,
    input: Seq<u8>,
) -> bool {
    forall|steps: nat, other_steps: nat|
        {
            let run = #[trigger] run_for(one, begin(tape_len, input), steps);
            let other_run = #[trigger] run_for(other, begin(tape_len, input), other_steps);
            run.status != Status::Running && other_run.status != Status::Running ==> run.status
                == other_run.status && run.output == other_run.output
        }
}

/// The machine after `done` of the instructions of a run of `code`, the
/// instruction pointer left where it was.
pub open spec fn partly(config: Config, code: u8, done: int) -> Config {
    if done == 0 {
        config
    } else {
        goto(effect(config, code, done, 0).0, config.instruction_pointer)
    }
}

/// A machine on the raw program and a machine on the runs are in step:
/// the first has executed the instructions of the runs that the second has
/// behind it and `done` instructions of the second's next run, and but for
/// that they are in the same state.
pub open spec fn in_step(
    program: Seq<u8>,
    ops: Seq<(u8, usize)>,
    fine: Config,
    coarse: Config,
    done: int,
) -> bool {
    let k = coarse.instruction_pointer;
    &&& 0 <= fine.instruction_pointer <= program.len()
    &&& 0 <= k <= ops.len()
    &&& 0 <= done
    &&& instruction_count(program, fine.instruction_pointer) == offset(ops, k) + done
    &&& done > 0 ==> k < ops.len() && done < ops[k].1 && !faults(coarse, ops[k].0, done)
    &&& fine == goto(
        partly(
            coarse,
            if k < ops.len() {
                ops[k].0
            } else {
                0
            },
            done,
        ),
        fine.instruction_pointer,
    )
}

/// Two runs that offer the same observation, and whose machines are in step
/// as long as they run.
pub open spec fn related(
    program: Seq<u8>,
    ops: Seq<(u8, usize)>,
    fine: Run,
    coarse: Run,
    done: int,
) -> bool {
    &&& fine.output == coarse.output
    &&& fine.status == coarse.status
    &&& coarse.status == Status::Running ==> in_step(
        program,
        ops,
        fine.config,
        coarse.config,
        done,
    )
}

/// The partner of a loop-open is its loop-close, and of a loop-close its
/// loop-open, wherever the stream is balanced.
pub proof fn lemma_partner_matches(codes: Seq<u8>, position: int)
    requires
        balanced(codes),
        0 <= position < codes.len(),
        is_bracket(codes[position]),
    ensures
        codes[position] == LOOP_OPEN ==> matched(codes, position, partner(codes, position)),
        codes[position] == LOOP_CLOSE ==> matched(codes, partner(codes, position), position),
{
    if codes[position] == LOOP_OPEN {
        lemma_close_exists(codes, position);
    } else {
        lemma_open_exists(codes, position);
    }
}

/// Where a bracket of the program and a bracket of the runs have the same
/// instructions before them, so have their partners, and so have the
/// positions after their partners.
pub proof fn lemma_jump_in_step(program: Seq<u8>, ops: Seq<(u8, usize)>, position: int, k: int)
    requires
        stands_for(ops, program),
        balanced(program),
        0 <= position < program.len(),
        0 <= k < ops.len(),
        is_bracket(program[position]),
        ops[k].0 == program[position],
        instruction_count(program, position) == offset(ops, k),
    ensures
        0 <= partner(program, position) < program.len(),
        0 <= partner(codes(ops), k) < ops.len(),
        instruction_count(program, partner(program, position) + 1) == offset(
            ops,
            partner(codes(ops), k) + 1,
        ),
{
    let run_codes = codes(ops);
    lemma_balance_carries_over(program, ops);
    lemma_totals_agree(program, ops);
    lemma_partner_matches(run_codes, k);
    lemma_partner_matches(program, position);
    let other = partner(run_codes, k);
    lemma_offset_grows(ops, other, other + 1);
    lemma_offset_grows(ops, other + 1, ops.len() as int);
    let other_position = lemma_position_exists(program, offset(ops, other), program.len() as int);
    if program[position] == LOOP_OPEN {
        lemma_matched_in_program(program, ops, k, other, position, other_position);
        lemma_close_is_unique(program, position, other_position, partner(program, position));
    } else {
        lemma_matched_in_program(program, ops, other, k, other_position, position);
        lemma_open_is_unique(program, other_position, partner(program, position), position);
    }
}

/// One step of the run on the raw program keeps the two runs related:
/// either the run on the runs stays where it is, and the raw program's
/// instruction pointer has moved on by one, or it makes its step too.
pub proof fn lemma_fine_step(
    program: Seq<u8>,
    ops: Seq<(u8, usize)>,
    fine: Run,
    coarse: Run,
    done: int,
) -> (next: int)
    requires
        stands_for(ops, program),
        balanced(program),
        related(program, ops, fine, coarse, done),
        fine.status == Status::Running,
    ensures
        ({
            let after = advance(lift(program), fine);
            ||| {
                &&& after.status == Status::Running
                &&& after.config.instruction_pointer == fine.config.instruction_pointer + 1
                &&& related(program, ops, after, coarse, next)
            }
            ||| related(program, ops, after, advance(ops, coarse), 0)
        }),
{
    let position = fine.config.instruction_pointer;
    let k = coarse.config.instruction_pointer;
    lemma_codes_of_lift(program);
    lemma_totals_agree(program, ops);
    if k < ops.len() {
        lemma_offset_grows(ops, k, k + 1);
        lemma_offset_grows(ops, k + 1, ops.len() as int);
    }
    if position >= program.len() {
        0
    } else {
        let code = program[position];
        if !is_instruction(code) {
            done
        } else {
            lemma_code_aligned(program, ops, position, k, done);
            if is_mergeable(code) {
                lemma_merged_step(program, ops, fine, coarse, done)
            } else {
                if code == LOOP_OPEN || code == LOOP_CLOSE {
                    lemma_jump_in_step(program, ops, position, k);
                }
                0
            }
        }
    }
}

/// The step of `lemma_fine_step` where the instruction is one that merges.
proof fn lemma_merged_step(
    program: Seq<u8>,
    ops: Seq<(u8, usize)>,
    fine: Run,
    coarse: Run,
    done: int,
) -> (next: int)
    requires
        stands_for(ops, program),
        related(program, ops, fine, coarse, done),
        fine.status == Status::Running,
        0 <= fine.config.instruction_pointer < program.len(),
        0 <= coarse.config.instruction_pointer < ops.len(),
        ops[coarse.config.instruction_pointer].0 == program[fine.config.instruction_pointer],
        is_mergeable(program[fine.config.instruction_pointer]),
        done < ops[coarse.config.instruction_pointer].1,
        offset(ops, coarse.config.instruction_pointer + 1) == offset(
            ops,
            coarse.config.instruction_pointer,
        ) + ops[coarse.config.instruction_pointer].1,
        instruction_count(program, fine.config.instruction_pointer + 1) == offset(
            ops,
            coarse.config.instruction_pointer,
        ) + done + 1,
    ensures
        ({
            let after = advance(lift(program), fine);
            ||| {
                &&& after.status == Status::Running
                &&& after.config.instruction_pointer == fine.config.instruction_pointer + 1
                &&& related(program, ops, after, coarse, next)
            }
            ||| related(program, ops, after, advance(ops, coarse), 0)
        }),
{
    let code = program[fine.config.instruction_pointer];
    let count = ops[coarse.config.instruction_pointer].1 as int;
    let pointer = coarse.config.pointer;
    if faults(fine.config, code, 1) {
        0
    } else {
        if code == INCREMENT || code == DECREMENT {
            lemma_arithmetic_wraps(coarse.config.tape[pointer], done, 1);
            assert(advance(lift(program), fine).config.tape =~= partly(
                coarse.config,
                code,
                done + 1,
            ).tape);
        }
        if done + 1 < count {
            done + 1
        } else {
            0
        }
    }
}

/// Steps add up.
pub proof fn lemma_run_for_adds(ops: Seq<(u8, usize)>, run: Run, first: nat, then_more: nat)
    ensures
        run_for(ops, run_for(ops, run, first), then_more) == run_for(ops, run, first + then_more),
    decreases then_more,
{
    if then_more > 0 {
        lemma_run_for_adds(ops, run, first, (then_more - 1) as nat);
    }
}

/// However far the run on the raw program has come, the run on the runs
/// has been where it is now, or will be.
pub proof fn lemma_fine_is_followed(
    program: Seq<u8>,
    ops: Seq<(u8, usize)>,
    fine: Run,
    coarse: Run,
    steps: nat,
) -> (found: (nat, int))
    requires
        stands_for(ops, program),
        balanced(program),
        related(program, ops, fine, coarse, 0),
    ensures
        related(
            program,
            ops,
            run_for(lift(program), fine, steps),
            run_for(ops, coarse, found.0),
            found.1,
        ),
    decreases steps,
{
    if steps == 0 {
        (0, 0)
    } else {
        let before = lemma_fine_is_followed(program, ops, fine, coarse, (steps - 1) as nat);
        let fine_before = run_for(lift(program), fine, (steps - 1) as nat);
        let coarse_before = run_for(ops, coarse, before.0);
        if fine_before.status != Status::Running {
            before
        } else {
            let next = lemma_fine_step(program, ops, fine_before, coarse_before, before.1);
            let fine_after = advance(lift(program), fine_before);
            if related(program, ops, fine_after, coarse_before, next) {
                (before.0, next)
            } else {
                (before.0 + 1, 0)
            }
        }
    }
}

/// From wherever the two runs are related, the run on the raw program
/// reaches in some number of steps what one step of the run on the runs
/// reaches.
pub proof fn lemma_fine_catches_up(
    program: Seq<u8>,
    ops: Seq<(u8, usize)>,
    fine: Run,
    coarse: Run,
    done: int,
) -> (steps: nat)
    requires
        stands_for(ops, program),
        balanced(program),
        related(program, ops, fine, coarse, done),
    ensures
        related(program, ops, run_for(lift(program), fine, steps), advance(ops, coarse), 0),
    decreases program.len() - fine.config.instruction_pointer,
{
    if fine.status != Status::Running {
        0
    } else {
        let next = lemma_fine_step(program, ops, fine, coarse, done);
        let after = advance(lift(program), fine);
        assert(run_for(lift(program), fine, 1) == after) by {
            assert(run_for(lift(program), fine, 0) == fine);
        }
        if related(program, ops, after, advance(ops, coarse), 0) {
            1
        } else {
            let more = lemma_fine_catches_up(program, ops, after, coarse, next);
            lemma_run_for_adds(lift(program), fine, 1, more);
            1 + more
        }
    }
}

/// However far the run on the runs has come, the run on the raw program
/// gets there too.
pub proof fn lemma_coarse_is_followed(
    program: Seq<u8>,
    ops: Seq<(u8, usize)>,
    fine: Run,
    coarse: Run,
    steps: nat,
) -> (found: nat)
    requires
        stands_for(ops, program),
        balanced(program),
        related(program, ops, fine, coarse, 0),
    ensures
        related(program, ops, run_for(lift(program), fine, found), run_for(ops, coarse, steps), 0),
    decreases steps,
{
    if steps == 0 {
        0
    } else {
        let before = lemma_coarse_is_followed(program, ops, fine, coarse, (steps - 1) as nat);
        let fine_before = run_for(lift(program), fine, before);
        let coarse_before = run_for(ops, coarse, (steps - 1) as nat);
        let more = lemma_fine_catches_up(program, ops, fine_before, coarse_before, 0);
        lemma_run_for_adds(lift(program), fine, before, more);
        before + more
    }
}

/// Where `ops` holds well-formed runs that stand for the instructions of
/// the balanced program `program`, the interpreter of the raw program and
/// the interpreter of the runs offer the same observations.
pub proof fn lemma_same_observations(
    program: Seq<u8>,
    ops: Seq<(u8, usize)>,
    tape_len: nat,
    input: Seq<u8>,
)
    requires
        stands_for(ops, program),
        balanced(program),
    ensures
        same_observations(lift(program), ops, tape_len, input),
{
    let start = begin(tape_len, input);
    assert forall|status: Status, output: Seq<u8>|
        observes(lift(program), tape_len, input, status, output) <==> observes(
            ops,
            tape_len,
            input,
            status,
            output,
        ) by {
        if observes(lift(program), tape_len, input, status, output) {
            let steps = choose|steps: nat|
                {
                    let run = #[trigger] run_for(lift(program), start, steps);
                    run.status == status && run.output == output
                };
            let found = lemma_fine_is_followed(program, ops, start, start, steps);
            let run = run_for(ops, start, found.0);
        }
        if observes(ops, tape_len, input, status, output) {
            let steps = choose|steps: nat|
                {
                    let run = #[trigger] run_for(ops, start, steps);
                    run.status == status && run.output == output
                };
            let found = lemma_coarse_is_followed(program, ops, start, start, steps);
            let run = run_for(lift(program), start, found);
        }
    }
}

/// Where `ops` holds well-formed runs that stand for the instructions of
/// the balanced program `program`, a run of the interpreter of the raw
/// program and a run of the interpreter of the runs that are both over have
/// ended in the same way and have written the same output.
pub proof fn lemma_same_results(
    program: Seq<u8>,
    ops: Seq<(u8, usize)>,
    tape_len: nat,
    input: Seq<u8>,
)
    requires
        stands_for(ops, program),
        balanced(program),
    ensures
        same_results(lift(program), ops, tape_len, input),
{
    let start = begin(tape_len, input);
    assert forall|steps: nat, other_steps: nat|
        {
            let run = #[trigger] run_for(lift(program), start, steps);
            let other_run = #[trigger] run_for(ops, start, other_steps);
            run.status != Status::Running && other_run.status != Status::Running
        } implies {
        let run = run_for(lift(program), start, steps);
        let other_run = run_for(ops, start, other_steps);
        run.status == other_run.status && run.output == other_run.output
    } by {
        let found = lemma_fine_is_followed(program, ops, start, start, steps);
        if found.0 <= other_steps {
            lemma_finished_run_stays(ops, start, found.0, other_steps);
        } else {
            lemma_finished_run_stays(ops, start, other_steps, found.0);
        }
    }
}

/// A sequence of instruction bytes holds no comment to drop.
pub proof fn lemma_instructions_of_instructions(program: Seq<u8>)
    requires
        forall|i: int| 0 <= i < program.len() ==> is_instruction(#[trigger] program[i]),
    ensures
        instructions_of(program) == program,
    decreases program.len(),
{
    if program.len() > 0 {
        lemma_instructions_of_instructions(program.drop_last());
    }
}

/// Well-formed runs stand for instruction bytes only.
pub proof fn lemma_expand_holds_instructions(ops: Seq<(u8, usize)>)
    requires
        is_compressed(ops),
    ensures
        forall|i: int| 0 <= i < expand(ops).len() ==> is_instruction(#[trigger] expand(ops)[i]),
{
    lemma_expand_len(ops, ops.len() as int);
    assert(ops.take(ops.len() as int) =~= ops);
    assert forall|i: int| 0 <= i < expand(ops).len() implies is_instruction(
        #[trigger] expand(ops)[i],
    ) by {
        let k = lemma_run_exists(ops, i, ops.len() as int);
        lemma_expand_at(ops, k, i);
    }
}

/// A program of comments does what the empty program does.
///
/// It compresses to no runs at all, it is balanced, and the plain
/// interpreter offers the same observations on it as on the empty program:
/// no output, and a halt.
pub proof fn lemma_comments_do_nothing(program: Seq<u8>, tape_len: nat, input: Seq<u8>)
    requires
        forall|i: int| 0 <= i < program.len() ==> !is_instruction(#[trigger] program[i]),
    ensures
        compressed(program) == Seq::<(u8, usize)>::empty(),
        balanced(program),
        same_observations(lift(program), lift(Seq::<u8>::empty()), tape_len, input),
        forall|status: Status, output: Seq<u8>|
            #![trigger observes(lift(program), tape_len, input, status, output)]
            observes(lift(program), tape_len, input, status, output) ==> output == Seq::<
                u8,
            >::empty() && (status == Status::Running || status == Status::Halted),
{
    let none = Seq::<(u8, usize)>::empty();
    lemma_no_instructions(program);
    assert(balanced(Seq::<u8>::empty())) by {
        assert forall|k: int| 0 <= k <= 0 implies #[trigger] depth(Seq::<u8>::empty(), k) >= 0 by {}
    }
    lemma_balance_carries_over(program, none);
    lemma_same_observations(program, none, tape_len, input);
    assert(lift(Seq::<u8>::empty()) =~= none);
    assert forall|status: Status, output: Seq<u8>|
        observes(lift(program), tape_len, input, status, output) implies output == Seq::<
        u8,
    >::empty() && (status == Status::Running || status == Status::Halted) by {
        let steps = choose|steps: nat|
            {
                let run = #[trigger] run_for(none, begin(tape_len, input), steps);
                run.status == status && run.output == output
            };
        lemma_nothing_runs(tape_len, input, steps);
    }
}

/// The run of the empty program halts at its first step and writes nothing.
proof fn lemma_nothing_runs(tape_len: nat, input: Seq<u8>, steps: nat)
    ensures
        run_for(Seq::<(u8, usize)>::empty(), begin(tape_len, input), steps).output == Seq::<
            u8,
        >::empty(),
        run_for(Seq::<(u8, usize)>::empty(), begin(tape_len, input), steps).config == begin(
            tape_len,
            input,
        ).config,
        steps == 0 ==> run_for(Seq::<(u8, usize)>::empty(), begin(tape_len, input), steps).status
            == Status::Running,
        steps > 0 ==> run_for(Seq::<(u8, usize)>::empty(), begin(tape_len, input), steps).status
            == Status::Halted,
    decreases steps,
{
    if steps > 0 {
        lemma_nothing_runs(tape_len, input, (steps - 1) as nat);
    }
}

/// A program without instruction bytes has no instructions and no runs.
proof fn lemma_no_instructions(program: Seq<u8>)
    requires
        forall|i: int| 0 <= i < program.len() ==> !is_instruction(#[trigger] program[i]),
    ensures
        instructions_of(program) == Seq::<u8>::empty(),
        compressed(program) == Seq::<(u8, usize)>::empty(),
    decreases program.len(),
{
    if program.len() > 0 {
        lemma_no_instructions(program.drop_last());
    }
}

/// The two interpreters agree on every program.
///
/// The plain interpreter refuses `program` exactly if the optimized one
/// does, and for the same defect of its brackets. Where they accept it,
/// whatever status and output the plain interpreter shows after some number
/// of steps on `program`, the optimized interpreter shows after some number
/// of steps on the compressed program, and the other way round; and where
/// both runs are over, they ended in the same way with the same output.
pub proof fn lemma_interpreters_agree(program: Seq<u8>, tape_len: nat, input: Seq<u8>)
    requires
        program.len() <= usize::MAX,
    ensures
        has_unmatched_close(program) <==> has_unmatched_close(codes(compressed(program))),
        has_unmatched_open(program) <==> has_unmatched_open(codes(compressed(program))),
        balanced(program) <==> balanced(codes(compressed(program))),
        balanced(program) ==> same_observations(
            lift(program),
            compressed(program),
            tape_len,
            input,
        ),
        balanced(program) ==> same_results(lift(program), compressed(program), tape_len, input),
{
    lemma_compressed_is_faithful(program);
    lemma_balance_carries_over(program, compressed(program));
    if balanced(program) {
        lemma_same_observations(program, compressed(program), tape_len, input);
        lemma_same_results(program, compressed(program), tape_len, input);
    }
}

/// Compression keeps what a program does.
///
/// The runs of a well-formed compressed program, written out, are balanced
/// exactly if the codes of the runs are, and show the same defect where
/// they are not. Where they are, running the written-out runs on the plain
/// interpreter offers the same observations as running the runs on the
/// optimized interpreter; and where both runs are over, they ended in the
/// same way with the same output.
pub proof fn lemma_expansion_agrees(ops: Seq<(u8, usize)>, tape_len: nat, input: Seq<u8>)
    requires
        is_compressed(ops),
    ensures
        has_unmatched_close(expand(ops)) <==> has_unmatched_close(codes(ops)),
        has_unmatched_open(expand(ops)) <==> has_unmatched_open(codes(ops)),
        balanced(expand(ops)) <==> balanced(codes(ops)),
        balanced(codes(ops)) ==> same_observations(lift(expand(ops)), ops, tape_len, input),
        balanced(codes(ops)) ==> same_results(lift(expand(ops)), ops, tape_len, input),
{
    lemma_expand_holds_instructions(ops);
    lemma_instructions_of_instructions(expand(ops));
    lemma_balance_carries_over(expand(ops), ops);
    if balanced(codes(ops)) {
        lemma_same_observations(expand(ops), ops, tape_len, input);
        lemma_same_results(expand(ops), ops, tape_len, input);
    }
}

} // verus!
