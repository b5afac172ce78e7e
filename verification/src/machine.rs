//! The tape machine: a tape of byte cells, a pointer into it, an instruction
//! pointer and a queue of pending input, and what one instruction does to
//! them.
//!
//! The machine does not check the pointer against the tape. An instruction
//! that would touch a cell outside the tape, or move the pointer out of the
//! range of `usize`, is a fault: `faults` says when, and `Machine::execute`
//! demands that it is not so.

use vstd::prelude::*;
use crate::brackets::is_bracket;
use crate::instruction::{
    DECREMENT,
    INCREMENT,
    INPUT,
    LEFT,
    LOOP_CLOSE,
    LOOP_OPEN,
    OUTPUT,
    RIGHT,
};

verus! {

/// The number of cells on the tape of a standard machine.
pub const MEMORY_SIZE: usize = 32768;

/// What the caller of a step has to do, or knows, after it.
#[derive(Debug, Clone, Copy, PartialEq, Eq, Structural)]
pub enum Event {
    /// The instruction was executed and asks nothing of the caller.
    Continue,
    /// The instruction was executed and this byte is to be written out.
    Output(u8),
    /// The instruction wants a byte of input and the queue is empty. Nothing
    /// has changed: feed the machine and step again.
    NeedInput,
    /// The instruction pointer is past the end of the program. Nothing has
    /// changed.
    Halt,
}

/// The state of a machine as plain mathematical values.
pub struct Config {
    /// The cells of the tape.
    pub tape: Seq<u8>,
    /// The index of the current cell. It may lie outside the tape.
    pub pointer: int,
    /// The index of the next instruction in the program.
    pub instruction_pointer: int,
    /// The input bytes that have been fed and not yet consumed.
    pub input: Seq<u8>,
}

/// A tape machine.
#[derive(Debug)]
pub struct Machine {
    /// The cells of the tape.
    pub tape: Vec<u8>,
    /// The index of the current cell. It may lie outside the tape.
    pub pointer: usize,
    /// The index of the next instruction in the program.
    pub instruction_pointer: usize,
    /// The input bytes that have been fed and not yet consumed, oldest first.
    pub input: Vec<u8>,
}

impl View for Machine {
    type V = Config;

    open spec fn view(&self) -> Config {
        Config {
            tape: self.tape@,
            pointer: self.pointer as int,
            instruction_pointer: self.instruction_pointer as int,
            input: self.input@,
        }
    }
}

/// The state in which every run begins: a zeroed tape of `tape_len` cells,
/// pointer and instruction pointer at 0, no pending input.
pub open spec fn initial(tape_len: nat) -> Config {
    Config {
        tape: Seq::new(tape_len, |i: int| 0u8),
        pointer: 0,
        instruction_pointer: 0,
        input: Seq::empty(),
    }
}

/// The value of a cell after `count` increments: addition modulo 256.
pub open spec fn incremented(cell: u8, count: int) -> u8 {
    ((cell + count) % 256) as u8
}

/// The value of a cell after `count` decrements: subtraction modulo 256.
pub open spec fn decremented(cell: u8, count: int) -> u8 {
    ((cell - count) % 256) as u8
}

/// Whether `cell` is written out by the output instruction: only values
/// below 128 are.
pub open spec fn is_emitted(cell: u8) -> bool {
    cell < 128
}

/// Whether the output instruction writes `cell` out.
pub fn emits(cell: u8) -> (emitted: bool)
    ensures
        emitted == is_emitted(cell),
{
    cell < 128
}

/// Whether executing `code` with repeat count `count` in state `config` is a
/// fault.
///
/// Moving the pointer is a fault only where the result is no `usize`.
/// Incrementing, decrementing and both loop instructions read the current
/// cell, and the input instruction writes it once a byte is there to
/// write, so they are faults where the pointer is outside the tape. The
/// output instruction is never one: outside the tape it writes nothing.
pub open spec fn faults(config: Config, code: u8, count: int) -> bool {
    if code == RIGHT {
        config.pointer + count > usize::MAX
    } else if code == LEFT {
        config.pointer - count < 0
    } else if code == INCREMENT || code == DECREMENT || code == LOOP_OPEN || code == LOOP_CLOSE {
        !(0 <= config.pointer < config.tape.len())
    } else if code == INPUT {
        config.input.len() > 0 && !(0 <= config.pointer < config.tape.len())
    } else {
        false
    }
}

/// `config` with the instruction pointer moved to `next`.
pub open spec fn goto(config: Config, next: int) -> Config {
    Config { instruction_pointer: next, ..config }
}

/// `config` with the current cell set to `value`.
pub open spec fn store(config: Config, value: u8) -> Config {
    Config { tape: config.tape.update(config.pointer, value), ..config }
}

/// The state after executing `code` with repeat count `count` in state
/// `config`, and the event that comes with it. `target` is the position of
/// the matching bracket and is read by the two loop instructions only.
///
/// Every instruction but a taken jump leaves the instruction pointer one
/// further; a taken jump leaves it one past the matching bracket. A byte
/// that is no instruction only advances the instruction pointer. The output
/// and input instructions act once, whatever the count.
pub open spec fn effect(config: Config, code: u8, count: int, target: int) -> (Config, Event) {
    let next = config.instruction_pointer + 1;
    if code == RIGHT {
        (Config { pointer: config.pointer + count, instruction_pointer: next, ..config }, Event::Continue)
    } else if code == LEFT {
        (Config { pointer: config.pointer - count, instruction_pointer: next, ..config }, Event::Continue)
    } else if code == INCREMENT {
        (goto(store(config, incremented(config.tape[config.pointer], count)), next), Event::Continue)
    } else if code == DECREMENT {
        (goto(store(config, decremented(config.tape[config.pointer], count)), next), Event::Continue)
    } else if code == OUTPUT {
        if 0 <= config.pointer < config.tape.len() && is_emitted(config.tape[config.pointer]) {
            (goto(config, next), Event::Output(config.tape[config.pointer]))
        } else {
            (goto(config, next), Event::Continue)
        }
    } else if code == INPUT {
        if config.input.len() == 0 {
            (config, Event::NeedInput)
        } else {
            (
                goto(Config { input: config.input.skip(1), ..store(config, config.input[0]) }, next),
                Event::Continue,
            )
        }
    } else if code == LOOP_OPEN {
        if config.tape[config.pointer] == 0 {
            (goto(config, target + 1), Event::Continue)
        } else {
            (goto(config, next), Event::Continue)
        }
    } else if code == LOOP_CLOSE {
        if config.tape[config.pointer] != 0 {
            (goto(config, target + 1), Event::Continue)
        } else {
            (goto(config, next), Event::Continue)
        }
    } else {
        (goto(config, next), Event::Continue)
    }
}

impl Machine {
    /// A machine in its initial state, with a tape of `tape_len` cells.
    pub fn new(tape_len: usize) -> (machine: Machine)
        ensures
            machine@ == initial(tape_len as nat),
    {
        let machine = Machine {
            tape: vec![0u8; tape_len],
            pointer: 0,
            instruction_pointer: 0,
            input: Vec::new(),
        };
        assert(machine@.tape =~= initial(tape_len as nat).tape);
        machine
    }

    /// Appends `bytes` to the pending input.
    pub fn feed(&mut self, bytes: &[u8])
        ensures
            final(self)@ == (Config { input: old(self)@.input + bytes@, ..old(self)@ }),
    {
        self.input.extend_from_slice(bytes);
        assert(self.input@ =~= old(self).input@ + bytes@);
    }

    /// Whether executing `code` with repeat count `count` now would be a
    /// fault.
    pub fn would_fault(&self, code: u8, count: usize) -> (fault: bool)
        ensures
            fault == faults(self@, code, count as int),
    {
        if code == RIGHT {
            count > usize::MAX - self.pointer
        } else if code == LEFT {
            count > self.pointer
        } else if code == INCREMENT || code == DECREMENT || code == LOOP_OPEN || code
            == LOOP_CLOSE {
            self.pointer >= self.tape.len()
        } else if code == INPUT {
            self.input.len() > 0 && self.pointer >= self.tape.len()
        } else {
            false
        }
    }

    /// Executes `code` with repeat count `count`. `target` is the position
    /// of the matching bracket where `code` is a loop instruction, and
    /// anything otherwise.
    pub fn execute(&mut self, code: u8, count: usize, target: usize) -> (event: Event)
        requires
            !faults(old(self)@, code, count as int),
            old(self).instruction_pointer < usize::MAX,
            is_bracket(code) ==> target < usize::MAX,
        ensures
            (final(self)@, event) == effect(old(self)@, code, count as int, target as int),
    {
        let next = self.instruction_pointer + 1;
        if code == RIGHT {
            self.pointer = self.pointer + count;
            self.instruction_pointer = next;
            Event::Continue
        } else if code == LEFT {
            self.pointer = self.pointer - count;
            self.instruction_pointer = next;
            Event::Continue
        } else if code == INCREMENT {
            let cell = self.tape[self.pointer];
            proof {
                lemma_wrapping_add_is_modular(cell, count);
            }
            self.tape.set(self.pointer, cell.wrapping_add((count % 256) as u8));
            self.instruction_pointer = next;
            Event::Continue
        } else if code == DECREMENT {
            let cell = self.tape[self.pointer];
            proof {
                lemma_wrapping_sub_is_modular(cell, count);
            }
            self.tape.set(self.pointer, cell.wrapping_sub((count % 256) as u8));
            self.instruction_pointer = next;
            Event::Continue
        } else if code == OUTPUT {
            self.instruction_pointer = next;
            if self.pointer < self.tape.len() && emits(self.tape[self.pointer]) {
                Event::Output(self.tape[self.pointer])
            } else {
                Event::Continue
            }
        } else if code == INPUT {
            if self.input.len() == 0 {
                Event::NeedInput
            } else {
                let byte = self.input.remove(0);
                self.tape.set(self.pointer, byte);
                self.instruction_pointer = next;
                Event::Continue
            }
        } else if code == LOOP_OPEN {
            if self.tape[self.pointer] == 0 {
                self.instruction_pointer = target + 1;
            } else {
                self.instruction_pointer = next;
            }
            Event::Continue
        } else if code == LOOP_CLOSE {
            if self.tape[self.pointer] != 0 {
                self.instruction_pointer = target + 1;
            } else {
                self.instruction_pointer = next;
            }
            Event::Continue
        } else {
            self.instruction_pointer = next;
            Event::Continue
        }
    }
}

/// Cell arithmetic wraps modulo 256. No change is no change; 256 increments
/// or decrements give the cell back; a count acts as its remainder modulo
/// 256 does; counts add up; and decrementing undoes incrementing.
pub proof fn lemma_arithmetic_wraps(cell: u8, count: int, more: int)
    requires
        0 <= count,
        0 <= more,
    ensures
        incremented(cell, 0) == cell,
        decremented(cell, 0) == cell,
        incremented(cell, 256) == cell,
        decremented(cell, 256) == cell,
        incremented(cell, count) == incremented(cell, count % 256),
        decremented(cell, count) == decremented(cell, count % 256),
        incremented(incremented(cell, count), more) == incremented(cell, count + more),
        decremented(decremented(cell, count), more) == decremented(cell, count + more),
        decremented(incremented(cell, count), count) == cell,
{
    let up = (cell + count) % 256;
    let down = (cell - count) % 256;
    vstd::arithmetic::div_mod::lemma_fundamental_div_mod_converse(
        cell + count % 256,
        256,
        (cell + count) / 256 - count / 256,
        up,
    );
    vstd::arithmetic::div_mod::lemma_fundamental_div_mod_converse(
        cell - count % 256,
        256,
        (cell - count) / 256 + count / 256,
        down,
    );
    vstd::arithmetic::div_mod::lemma_fundamental_div_mod_converse(
        cell + count + more,
        256,
        (cell + count) / 256 + (up + more) / 256,
        (up + more) % 256,
    );
    vstd::arithmetic::div_mod::lemma_fundamental_div_mod_converse(
        cell - count - more,
        256,
        (cell - count) / 256 + (down - more) / 256,
        (down - more) % 256,
    );
    vstd::arithmetic::div_mod::lemma_fundamental_div_mod_converse(
        cell as int,
        256,
        (cell + count) / 256 + (up - count) / 256,
        (up - count) % 256,
    );
}

/// Adding the count reduced modulo 256 with wraparound is addition modulo
/// 256.
pub proof fn lemma_wrapping_add_is_modular(cell: u8, count: usize)
    ensures
        vstd::wrapping::u8_specs::wrapping_add(cell, (count % 256) as u8) == incremented(
            cell,
            count as int,
        ),
{
    let q = count as int / 256;
    let r = count as int % 256;
    if cell + r > 255 {
        assert((cell + count) % 256 == cell + r - 256) by {
            vstd::arithmetic::div_mod::lemma_fundamental_div_mod_converse(
                cell + count,
                256,
                q + 1,
                cell + r - 256,
            );
        }
    } else {
        assert((cell + count) % 256 == cell + r) by {
            vstd::arithmetic::div_mod::lemma_fundamental_div_mod_converse(
                cell + count,
                256,
                q,
                cell + r,
            );
        }
    }
}

/// Subtracting the count reduced modulo 256 with wraparound is subtraction
/// modulo 256.
pub proof fn lemma_wrapping_sub_is_modular(cell: u8, count: usize)
    ensures
        vstd::wrapping::u8_specs::wrapping_sub(cell, (count % 256) as u8) == decremented(
            cell,
            count as int,
        ),
{
    let q = count as int / 256;
    let r = count as int % 256;
    if cell - r < 0 {
        assert((cell - count) % 256 == cell - r + 256) by {
            vstd::arithmetic::div_mod::lemma_fundamental_div_mod_converse(
                cell - count,
                256,
                -q - 1,
                cell - r + 256,
            );
        }
    } else {
        assert((cell - count) % 256 == cell - r) by {
            vstd::arithmetic::div_mod::lemma_fundamental_div_mod_converse(
                cell - count,
                256,
                -q,
                cell - r,
            );
        }
    }
}

} // verus!
