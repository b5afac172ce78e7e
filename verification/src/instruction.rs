//! The eight instruction bytes and how a byte is classified.

use vstd::prelude::*;

verus! {

/// `>`: move the pointer right.
pub const RIGHT: u8 = 62;

/// `<`: move the pointer left.
pub const LEFT: u8 = 60;

/// `+`: increment the current cell.
pub const INCREMENT: u8 = 43;

/// `-`: decrement the current cell.
pub const DECREMENT: u8 = 45;

/// `.`: write the current cell.
pub const OUTPUT: u8 = 46;

/// `,`: read one byte into the current cell.
pub const INPUT: u8 = 44;

/// `[`: open a loop.
pub const LOOP_OPEN: u8 = 91;

/// `]`: close a loop.
pub const LOOP_CLOSE: u8 = 93;

/// The four instructions whose adjacent repetitions are coalesced into a run.
pub open spec fn is_mergeable(code: u8) -> bool {
    code == RIGHT || code == LEFT || code == INCREMENT || code == DECREMENT
}

/// A byte is an instruction when it is one of the eight symbols; every other
/// byte is a comment.
pub open spec fn is_instruction(code: u8) -> bool {
    is_mergeable(code) || code == OUTPUT || code == INPUT || code == LOOP_OPEN || code
        == LOOP_CLOSE
}

/// Whether `code` is one of the eight instruction bytes.
pub fn is_instruction_byte(code: u8) -> (r: bool)
    ensures
        r == is_instruction(code),
{
    is_mergeable_byte(code) || code == OUTPUT || code == INPUT || code == LOOP_OPEN || code
        == LOOP_CLOSE
}

/// Whether `code` is one of the four instructions that merge into runs.
pub fn is_mergeable_byte(code: u8) -> (r: bool)
    ensures
        r == is_mergeable(code),
{
    code == RIGHT || code == LEFT || code == INCREMENT || code == DECREMENT
}

} // verus!
