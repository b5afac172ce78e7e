//! The optimized interpreter: one run of the compressed program per step.

use std::collections::HashMap;
use vstd::prelude::*;
use vstd::std_specs::hash::group_hash_axioms;
use crate::brackets::{
    balanced,
    has_unmatched_close,
    has_unmatched_open,
    is_bracket_map,
    lemma_scan_close,
    lemma_scan_end,
    lemma_scan_open,
    lemma_scan_other,
    lemma_scan_start,
    lemma_scan_underflow,
    scan_inv,
    BracketError,
};
use crate::alignment::lemma_balance_carries_over;
use crate::compressor::{compress_program, compressed};
use crate::instruction::{LOOP_CLOSE, LOOP_OPEN};
use crate::machine::{Event, Machine, MEMORY_SIZE};
use crate::semantics::{
    begin,
    codes,
    lemma_finished_run_stays,
    lemma_partner_is_mapped,
    run_for,
    step as step_of,
    stuck,
    Outcome,
    Run,
    Status,
};

verus! {

/// Pairs every loop-open of the compressed program `ops` with its
/// loop-close, in both directions and by position in `ops`, or says why
/// that cannot be done.
///
/// The map exists exactly where the codes of `ops` are balanced. Otherwise
/// the first defect met from the left is reported: a loop-close with no loop
/// open, or else the end of the program with a loop still open.
pub fn generate_bracket_map(ops: &[(u8, usize)]) -> (result: Result<
    HashMap<usize, usize>,
    BracketError,
>)
    ensures
        result is Ok <==> balanced(codes(ops@)),
        match result {
            Ok(map) => is_bracket_map(codes(ops@), map@),
            Err(BracketError::UnmatchedClose) => has_unmatched_close(codes(ops@)),
            Err(BracketError::UnmatchedOpen) => !has_unmatched_close(codes(ops@))
                && has_unmatched_open(codes(ops@)),
        },
{
    broadcast use group_hash_axioms;

    let mut stack: Vec<usize> = Vec::new();
    let mut bracket_map: HashMap<usize, usize> = HashMap::new();
    let mut i: usize = 0;
    let ghost codes = codes(ops@);
    proof {
        lemma_scan_start(codes);
    }
    while i < ops.len()
        invariant
            i <= ops.len(),
            codes == crate::semantics::codes(ops@),
            scan_inv(codes, i as int, stack@, bracket_map@),
        decreases ops.len() - i,
    {
        let code = ops[i].0;
        if code == LOOP_OPEN {
            proof {
                lemma_scan_open(codes, i as int, stack@, bracket_map@);
            }
            stack.push(i);
        } else if code == LOOP_CLOSE {
            let ghost open_before = stack@;
            match stack.pop() {
                Some(open) => {
                    proof {
                        lemma_scan_close(codes, i as int, open_before, bracket_map@);
                    }
                    bracket_map.insert(open, i);
                    bracket_map.insert(i, open);
                },
                None => {
                    proof {
                        lemma_scan_underflow(codes, i as int, stack@, bracket_map@);
                    }
                    return Err(BracketError::UnmatchedClose);
                },
            }
        } else {
            proof {
                lemma_scan_other(codes, i as int, stack@, bracket_map@);
            }
        }
        i += 1;
    }
    proof {
        lemma_scan_end(codes, stack@, bracket_map@);
    }
    if stack.is_empty() {
        Ok(bracket_map)
    } else {
        Err(BracketError::UnmatchedOpen)
    }
}

/// Whether the next step of `machine` on the compressed program `ops` would
/// be a fault.
pub fn would_fault(ops: &[(u8, usize)], machine: &Machine) -> (fault: bool)
    ensures
        fault == stuck(ops@, machine@),
{
    if machine.instruction_pointer < ops.len() {
        let op = ops[machine.instruction_pointer];
        machine.would_fault(op.0, op.1)
    } else {
        false
    }
}

/// Makes one step of `machine` on the compressed program `ops`: a whole run
/// at once.
pub fn step(ops: &[(u8, usize)], bracket_map: &HashMap<usize, usize>, machine: &mut Machine) -> (event:
    Event)
    requires
        is_bracket_map(codes(ops@), bracket_map@),
        !stuck(ops@, old(machine)@),
    ensures
        (final(machine)@, event) == step_of(ops@, old(machine)@),
{
    broadcast use group_hash_axioms;

    let position = machine.instruction_pointer;
    if position >= ops.len() {
        return Event::Halt;
    }
    let op = ops[position];
    let mut target: usize = 0;
    if op.0 == LOOP_OPEN || op.0 == LOOP_CLOSE {
        if let Some(found) = bracket_map.get(&position) {
            target = *found;
        }
        proof {
            lemma_partner_is_mapped(codes(ops@), bracket_map@, position);
        }
    }
    machine.execute(op.0, op.1, target)
}

/// Compresses `program` and runs the result on a fresh machine of
/// `tape_len` cells with `input` pending, for at most `max_steps` steps,
/// each of them a whole run.
///
/// A program whose brackets are unbalanced is refused before anything runs.
/// Otherwise the run ends when the program is over, at a fault, at an input
/// instruction with no input left, or when the step budget is used up,
/// whichever is first.
pub fn run_with(program: &[u8], input: &[u8], tape_len: usize, max_steps: u64) -> (result: Result<
    Outcome,
    BracketError,
>)
    ensures
        result is Ok <==> balanced(program@),
        match result {
            Ok(outcome) => outcome@ == run_for(
                compressed(program@),
                begin(tape_len as nat, input@),
                max_steps as nat,
            ),
            Err(BracketError::UnmatchedClose) => has_unmatched_close(program@),
            Err(BracketError::UnmatchedOpen) => !has_unmatched_close(program@)
                && has_unmatched_open(program@),
        },
{
    let ops = compress_program(program);
    proof {
        lemma_balance_carries_over(program@, ops@);
    }
    let bracket_map = match generate_bracket_map(ops.as_slice()) {
        Ok(map) => map,
        Err(error) => {
            return Err(error);
        },
    };
    let mut machine = Machine::new(tape_len);
    machine.feed(input);
    let mut output: Vec<u8> = Vec::new();
    let mut status = Status::Running;
    let mut steps: u64 = 0;
    let ghost start = begin(tape_len as nat, input@);
    while steps < max_steps && status == Status::Running
        invariant
            steps <= max_steps,
            ops@ == compressed(program@),
            is_bracket_map(codes(ops@), bracket_map@),
            (Run { config: machine@, output: output@, status: status }) == run_for(
                ops@,
                start,
                steps as nat,
            ),
        decreases max_steps - steps,
    {
        if would_fault(ops.as_slice(), &machine) {
            status = Status::Faulted;
        } else {
            match step(ops.as_slice(), &bracket_map, &mut machine) {
                Event::Halt => {
                    status = Status::Halted;
                },
                Event::NeedInput => {
                    status = Status::Starved;
                },
                Event::Output(byte) => {
                    output.push(byte);
                },
                Event::Continue => {},
            }
        }
        steps += 1;
    }
    proof {
        if steps < max_steps {
            lemma_finished_run_stays(ops@, start, steps as nat, max_steps as nat);
        }
    }
    Ok(Outcome { machine: machine, output: output, status: status })
}

/// Compresses `program` and runs the result on a fresh machine of
/// `MEMORY_SIZE` cells with `input` pending, for at most `max_steps` steps,
/// each of them a whole run: `run_with` on the standard tape.
pub fn run(program: &[u8], input: &[u8], max_steps: u64) -> (result: Result<Outcome, BracketError>)
    ensures
        result is Ok <==> balanced(program@),
        match result {
            Ok(outcome) => outcome@ == run_for(
                compressed(program@),
                begin(MEMORY_SIZE as nat, input@),
                max_steps as nat,
            ),
            Err(BracketError::UnmatchedClose) => has_unmatched_close(program@),
            Err(BracketError::UnmatchedOpen) => !has_unmatched_close(program@)
                && has_unmatched_open(program@),
        },
{
    run_with(program, input, MEMORY_SIZE, max_steps)
}

} // verus!
