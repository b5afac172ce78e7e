//! What it means to run a program: one step of a machine on a stream of
//! instructions with repeat counts, and a run of many steps that gathers the
//! output.
//!
//! A raw program is read as the stream in which every byte has count 1.

use vstd::prelude::*;
use crate::brackets::{is_bracket_map, lemma_close_is_unique, lemma_open_is_unique, matched};
use crate::instruction::LOOP_OPEN;
use crate::machine::{effect, faults, initial, Config, Event, Machine};

verus! {

/// How a run stands.
#[derive(Debug, Clone, Copy, PartialEq, Eq, Structural)]
pub enum Status {
    /// The machine can go on.
    Running,
    /// A step found the instruction pointer past the end of the program.
    Halted,
    /// A step found an instruction that is a fault in the machine's state.
    Faulted,
    /// A step found an input instruction and no input left.
    Starved,
}

/// The codes of a stream of instructions with repeat counts.
pub open spec fn codes(ops: Seq<(u8, usize)>) -> Seq<u8> {
    ops.map_values(|op: (u8, usize)| op.0)
}

/// A raw program as a stream of instructions with repeat counts: every byte
/// once.
pub open spec fn lift(program: Seq<u8>) -> Seq<(u8, usize)> {
    program.map_values(|code: u8| (code, 1usize))
}

/// The position of the bracket that matches the one at `position`.
pub open spec fn partner(codes: Seq<u8>, position: int) -> int {
    if codes[position] == LOOP_OPEN {
        choose|close: int| matched(codes, position, close)
    } else {
        choose|open: int| matched(codes, open, position)
    }
}

/// The instruction pointer is past the end of the program.
pub open spec fn halted(ops: Seq<(u8, usize)>, config: Config) -> bool {
    !(0 <= config.instruction_pointer < ops.len())
}

/// The next instruction is a fault.
pub open spec fn stuck(ops: Seq<(u8, usize)>, config: Config) -> bool {
    !halted(ops, config) && faults(
        config,
        ops[config.instruction_pointer].0,
        ops[config.instruction_pointer].1 as int,
    )
}

/// One step: nothing but `Event::Halt` where the program is over, else the
/// effect of the instruction under the instruction pointer.
pub open spec fn step(ops: Seq<(u8, usize)>, config: Config) -> (Config, Event) {
    if halted(ops, config) {
        (config, Event::Halt)
    } else {
        let op = ops[config.instruction_pointer];
        effect(config, op.0, op.1 as int, partner(codes(ops), config.instruction_pointer))
    }
}

/// A run: the machine's state, what has been written so far, and how the
/// run stands.
pub struct Run {
    /// The state of the machine.
    pub config: Config,
    /// The bytes written so far.
    pub output: Seq<u8>,
    /// How the run stands.
    pub status: Status,
}

/// The run before its first step: the initial machine with all of `input`
/// pending, nothing written.
pub open spec fn begin(tape_len: nat, input: Seq<u8>) -> Run {
    Run {
        config: Config { input: input, ..initial(tape_len) },
        output: Seq::empty(),
        status: Status::Running,
    }
}

/// The run one step later. A run that is not `Running` stays as it is. A
/// step that cannot be made leaves the machine alone and gives the run its
/// final status.
pub open spec fn advance(ops: Seq<(u8, usize)>, run: Run) -> Run {
    if run.status != Status::Running {
        run
    } else if halted(ops, run.config) {
        Run { status: Status::Halted, ..run }
    } else if stuck(ops, run.config) {
        Run { status: Status::Faulted, ..run }
    } else {
        let (config, event) = step(ops, run.config);
        match event {
            Event::Output(byte) => Run { config: config, output: run.output.push(byte), ..run },
            Event::NeedInput => Run { status: Status::Starved, ..run },
            _ => Run { config: config, ..run },
        }
    }
}

/// The run `steps` steps later.
pub open spec fn run_for(ops: Seq<(u8, usize)>, run: Run, steps: nat) -> Run
    decreases steps,
{
    if steps == 0 {
        run
    } else {
        advance(ops, run_for(ops, run, (steps - 1) as nat))
    }
}

/// What a bounded run hands back.
#[derive(Debug)]
pub struct Outcome {
    /// The machine as the run left it.
    pub machine: Machine,
    /// The bytes written, in order.
    pub output: Vec<u8>,
    /// How the run ended; `Running` where the step budget ran out first.
    pub status: Status,
}

impl View for Outcome {
    type V = Run;

    open spec fn view(&self) -> Run {
        Run { config: self.machine@, output: self.output@, status: self.status }
    }
}

/// The codes of a lifted program are the program.
pub proof fn lemma_codes_of_lift(program: Seq<u8>)
    ensures
        codes(lift(program)) == program,
{
}

/// The partner of a bracket is what a bracket map holds for it.
pub proof fn lemma_partner_is_mapped(codes: Seq<u8>, map: Map<usize, usize>, position: usize)
    requires
        is_bracket_map(codes, map),
        map.dom().contains(position),
    ensures
        partner(codes, position as int) == map[position],
        map[position] < codes.len(),
{
    let found = map[position] as int;
    let chosen = partner(codes, position as int);
    if codes[position as int] == LOOP_OPEN {
        lemma_close_is_unique(codes, position as int, found, chosen);
    } else {
        lemma_open_is_unique(codes, found, chosen, position as int);
    }
}

/// A run that is over stays as it is however many steps follow.
pub proof fn lemma_finished_run_stays(ops: Seq<(u8, usize)>, run: Run, steps: nat, later: nat)
    requires
        steps <= later,
        run_for(ops, run, steps).status != Status::Running,
    ensures
        run_for(ops, run, later) == run_for(ops, run, steps),
    decreases later,
{
    if later > steps {
        lemma_finished_run_stays(ops, run, steps, (later - 1) as nat);
    }
}

} // verus!
