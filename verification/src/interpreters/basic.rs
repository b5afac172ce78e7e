//! The plain interpreter: one byte of the raw program per step.

use std::collections::HashMap;
use vstd::prelude::*;
use vstd::std_specs::hash::group_hash_axioms;
use crate::brackets::{
    balanced,
    has_unmatched_close,
    has_unmatched_open,
    is_bracket_map,
    lemma_scan_close,
    lemma_scan_end,
    lemma_scan_open,
    lemma_scan_other,
    lemma_scan_start,
    lemma_scan_underflow,
    scan_inv,
    BracketError,
};
use crate::instruction::{LOOP_CLOSE, LOOP_OPEN};
use crate::machine::{Event, Machine, MEMORY_SIZE};
use crate::semantics::{
    begin,
    lemma_codes_of_lift,
    lemma_finished_run_stays,
    lemma_partner_is_mapped,
    lift,
    run_for,
    step as step_of,
    stuck,
    Outcome,
    Status,
};

verus! {

/// Pairs every loop-open of `program` with its loop-close, in both
/// directions, or says why that cannot be done.
///
/// The map exists exactly for balanced programs. Of an unbalanced one the
/// first defect met from the left is reported: a loop-close with no loop
/// open, or else the end of the program with a loop still open.
pub fn generate_bracket_map(program: &[u8]) -> (result: Result<HashMap<usize, usize>, BracketError>)
    ensures
        result is Ok <==> balanced(program@),
        match result {
            Ok(map) => is_bracket_map(program@, map@),
            Err(BracketError::UnmatchedClose) => has_unmatched_close(program@),
            Err(BracketError::UnmatchedOpen) => !has_unmatched_close(program@)
                && has_unmatched_open(program@),
        },
{
    broadcast use group_hash_axioms;

    let mut stack: Vec<usize> = Vec::new();
    let mut bracket_map: HashMap<usize, usize> = HashMap::new();
    let mut i: usize = 0;
    proof {
        lemma_scan_start(program@);
    }
    while i < program.len()
        invariant
            i <= program.len(),
            scan_inv(program@, i as int, stack@, bracket_map@),
        decreases program.len() - i,
    {
        let code = program[i];
        if code == LOOP_OPEN {
            proof {
                lemma_scan_open(program@, i as int, stack@, bracket_map@);
            }
            stack.push(i);
        } else if code == LOOP_CLOSE {
            let ghost open_before = stack@;
            match stack.pop() {
                Some(open) => {
                    proof {
                        lemma_scan_close(program@, i as int, open_before, bracket_map@);
                    }
                    bracket_map.insert(open, i);
                    bracket_map.insert(i, open);
                },
                None => {
                    proof {
                        lemma_scan_underflow(program@, i as int, stack@, bracket_map@);
                    }
                    return Err(BracketError::UnmatchedClose);
                },
            }
        } else {
            proof {
                lemma_scan_other(program@, i as int, stack@, bracket_map@);
            }
        }
        i += 1;
    }
    proof {
        lemma_scan_end(program@, stack@, bracket_map@);
    }
    if stack.is_empty() {
        Ok(bracket_map)
    } else {
        Err(BracketError::UnmatchedOpen)
    }
}

/// Whether the next step of `machine` on `program` would be a fault.
pub fn would_fault(program: &[u8], machine: &Machine) -> (fault: bool)
    ensures
        fault == stuck(lift(program@), machine@),
{
    if machine.instruction_pointer < program.len() {
        machine.would_fault(program[machine.instruction_pointer], 1)
    } else {
        false
    }
}

/// Makes one step of `machine` on `program`.
pub fn step(program: &[u8], bracket_map: &HashMap<usize, usize>, machine: &mut Machine) -> (event:
    Event)
    requires
        is_bracket_map(program@, bracket_map@),
        !stuck(lift(program@), old(machine)@),
    ensures
        (final(machine)@, event) == step_of(lift(program@), old(machine)@),
{
    broadcast use group_hash_axioms;

    let position = machine.instruction_pointer;
    if position >= program.len() {
        return Event::Halt;
    }
    let code = program[position];
    let mut target: usize = 0;
    if code == LOOP_OPEN || code == LOOP_CLOSE {
        if let Some(found) = bracket_map.get(&position) {
            target = *found;
        }
        proof {
            lemma_codes_of_lift(program@);
            lemma_partner_is_mapped(program@, bracket_map@, position);
        }
    }
    machine.execute(code, 1, target)
}

/// Runs `program` on a fresh machine of `tape_len` cells with `input`
/// pending, for at most `max_steps` steps.
///
/// An unbalanced program is refused before anything runs. Otherwise the run
/// ends when the program is over, at a fault, at an input instruction with
/// no input left, or when the step budget is used up, whichever is first.
pub fn run_with(program: &[u8], input: &[u8], tape_len: usize, max_steps: u64) -> (result: Result<
    Outcome,
    BracketError,
>)
    ensures
        result is Ok <==> balanced(program@),
        match result {
            Ok(outcome) => outcome@ == run_for(
                lift(program@),
                begin(tape_len as nat, input@),
                max_steps as nat,
            ),
            Err(BracketError::UnmatchedClose) => has_unmatched_close(program@),
            Err(BracketError::UnmatchedOpen) => !has_unmatched_close(program@)
                && has_unmatched_open(program@),
        },
{
    let bracket_map = match generate_bracket_map(program) {
        Ok(map) => map,
        Err(error) => {
            return Err(error);
        },
    };
    let mut machine = Machine::new(tape_len);
    machine.feed(input);
    let mut output: Vec<u8> = Vec::new();
    let mut status = Status::Running;
    let mut steps: u64 = 0;
    let ghost ops = lift(program@);
    let ghost start = begin(tape_len as nat, input@);
    while steps < max_steps && status == Status::Running
        invariant
            steps <= max_steps,
            ops == lift(program@),
            is_bracket_map(program@, bracket_map@),
            (crate::semantics::Run { config: machine@, output: output@, status: status })
                == run_for(ops, start, steps as nat),
        decreases max_steps - steps,
    {
        if would_fault(program, &machine) {
            status = Status::Faulted;
        } else {
            match step(program, &bracket_map, &mut machine) {
                Event::Halt => {
                    status = Status::Halted;
                },
                Event::NeedInput => {
                    status = Status::Starved;
                },
                Event::Output(byte) => {
                    output.push(byte);
                },
                Event::Continue => {},
            }
        }
        steps += 1;
    }
    proof {
        if steps < max_steps {
            lemma_finished_run_stays(ops, start, steps as nat, max_steps as nat);
        }
    }
    Ok(Outcome { machine: machine, output: output, status: status })
}

/// Runs `program` on a fresh machine of `MEMORY_SIZE` cells with `input`
/// pending, for at most `max_steps` steps: `run_with` on the standard tape.
pub fn run(program: &[u8], input: &[u8], max_steps: u64) -> (result: Result<Outcome, BracketError>)
    ensures
        result is Ok <==> balanced(program@),
        match result {
            Ok(outcome) => outcome@ == run_for(
                lift(program@),
                begin(MEMORY_SIZE as nat, input@),
                max_steps as nat,
            ),
            Err(BracketError::UnmatchedClose) => has_unmatched_close(program@),
            Err(BracketError::UnmatchedOpen) => !has_unmatched_close(program@)
                && has_unmatched_open(program@),
        },
{
    run_with(program, input, MEMORY_SIZE, max_steps)
}

} // verus!
