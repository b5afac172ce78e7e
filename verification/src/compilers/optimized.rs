//! The transpiler: a compressed program becomes the source text of a native
//! program that is the same tape machine, with every run length written
//! into it as a literal and every loop as a native `while`.

use vstd::prelude::*;
use vstd::string::StringSliceAdditionalSpecFns;
use crate::alignment::lemma_balance_carries_over;
use crate::brackets::{balanced, has_unmatched_close, has_unmatched_open, BracketError};
use crate::compressor::{compress_program, compressed};
use crate::instruction::{
    DECREMENT,
    INCREMENT,
    INPUT,
    LEFT,
    LOOP_CLOSE,
    LOOP_OPEN,
    OUTPUT,
    RIGHT,
};
use crate::interpreters::optimized::generate_bracket_map;
use crate::machine::MEMORY_SIZE;

verus! {

/// The decimal digits of `n`, most significant first, as ASCII bytes.
pub open spec fn decimal(n: nat) -> Seq<u8>
    decreases n,
{
    if n < 10 {
        seq![(48 + n) as u8]
    } else {
        decimal(n / 10).push((48 + n % 10) as u8)
    }
}

/// What stands before the statements: the imports, the tape size, and the
/// opening of `main` with the zeroed tape, the pointer and the empty input
/// queue.
pub open spec fn prologue(memory_size: nat) -> Seq<u8> {
    "use std::io::{stdin, stdout, BufRead, BufWriter, StdoutLock, Write};const MEMORY_SIZE: usize = ".spec_bytes()
        + decimal(memory_size)
        + "usize;fn main () {let mut buffered_stdout_lock: BufWriter<StdoutLock> = BufWriter::new(stdout().lock());let mut memory: [u8; MEMORY_SIZE] = [0u8; MEMORY_SIZE];let mut memory_pointer: usize = 0usize;let mut input_buffer: Vec<u8> = Vec::new();".spec_bytes()
}

/// The statement for one run. A run of a movement or arithmetic instruction
/// is one statement with the count in it; output and input are the
/// interpreter's own logic written out; a loop-open opens a `while` and a
/// loop-close closes it. A code that is no instruction gives nothing.
pub open spec fn statement(op: (u8, usize)) -> Seq<u8> {
    if op.0 == RIGHT {
        "memory_pointer += ".spec_bytes() + decimal(op.1 as nat) + "usize;".spec_bytes()
    } else if op.0 == LEFT {
        "memory_pointer -= ".spec_bytes() + decimal(op.1 as nat) + "usize;".spec_bytes()
    } else if op.0 == INCREMENT {
        "memory[memory_pointer] = memory[memory_pointer].wrapping_add((".spec_bytes() + decimal(
            op.1 as nat,
        ) + "usize % 256usize) as u8);".spec_bytes()
    } else if op.0 == DECREMENT {
        "memory[memory_pointer] = memory[memory_pointer].wrapping_sub((".spec_bytes() + decimal(
            op.1 as nat,
        ) + "usize % 256usize) as u8);".spec_bytes()
    } else if op.0 == OUTPUT {
        "if let Some(byte) = memory.get(memory_pointer).cloned().filter(|&byte| byte.is_ascii()){buffered_stdout_lock.write_all(&[byte]).unwrap();buffered_stdout_lock.flush().unwrap();}".spec_bytes()
    } else if op.0 == INPUT {
        "if input_buffer.is_empty() {stdin().lock().read_until(b'\\n', &mut input_buffer).unwrap();};memory[memory_pointer] = input_buffer.remove(0usize);".spec_bytes()
    } else if op.0 == LOOP_OPEN {
        "while *memory.get(memory_pointer).unwrap() != 0u8 {".spec_bytes()
    } else if op.0 == LOOP_CLOSE {
        "};".spec_bytes()
    } else {
        Seq::empty()
    }
}

/// The statements for `ops`, one after the other.
pub open spec fn statements(ops: Seq<(u8, usize)>) -> Seq<u8>
    decreases ops.len(),
{
    if ops.len() == 0 {
        Seq::empty()
    } else {
        statements(ops.drop_last()) + statement(ops.last())
    }
}

/// The whole source text for `ops` on a tape of `memory_size` cells:
/// prologue, statements, and the brace that closes `main`.
pub open spec fn transpiled_with(ops: Seq<(u8, usize)>, memory_size: nat) -> Seq<u8> {
    prologue(memory_size) + statements(ops) + seq![125u8]
}

/// The whole source text for `ops` on the standard tape.
pub open spec fn transpiled(ops: Seq<(u8, usize)>) -> Seq<u8> {
    transpiled_with(ops, MEMORY_SIZE as nat)
}

/// Appends the decimal digits of `n` to `text`.
pub fn push_decimal(text: &mut Vec<u8>, n: usize)
    ensures
        final(text)@ == old(text)@ + decimal(n as nat),
    decreases n,
{
    if n >= 10 {
        push_decimal(text, n / 10);
    }
    text.push(48 + (n % 10) as u8);
}

/// Appends the bytes of `piece` to `text`.
fn push_text(text: &mut Vec<u8>, piece: &str)
    ensures
        final(text)@ == old(text)@ + piece.spec_bytes(),
{
    text.extend_from_slice(piece.as_bytes());
}

/// Appends `head`, the decimal digits of `n`, and `tail` to `text`.
fn push_counted(text: &mut Vec<u8>, head: &str, n: usize, tail: &str)
    ensures
        final(text)@ == old(text)@ + (head.spec_bytes() + decimal(n as nat) + tail.spec_bytes()),
{
    push_text(text, head);
    push_decimal(text, n);
    push_text(text, tail);
}

/// Appends the statement for `op` to `text`.
fn push_statement(text: &mut Vec<u8>, op: (u8, usize))
    ensures
        final(text)@ == old(text)@ + statement(op),
{
    if op.0 == RIGHT {
        push_counted(text, "memory_pointer += ", op.1, "usize;");
    } else if op.0 == LEFT {
        push_counted(text, "memory_pointer -= ", op.1, "usize;");
    } else if op.0 == INCREMENT {
        push_counted(
            text,
            "memory[memory_pointer] = memory[memory_pointer].wrapping_add((",
            op.1,
            "usize % 256usize) as u8);",
        );
    } else if op.0 == DECREMENT {
        push_counted(
            text,
            "memory[memory_pointer] = memory[memory_pointer].wrapping_sub((",
            op.1,
            "usize % 256usize) as u8);",
        );
    } else if op.0 == OUTPUT {
        push_text(
            text,
            "if let Some(byte) = memory.get(memory_pointer).cloned().filter(|&byte| byte.is_ascii()){buffered_stdout_lock.write_all(&[byte]).unwrap();buffered_stdout_lock.flush().unwrap();}",
        );
    } else if op.0 == INPUT {
        push_text(
            text,
            "if input_buffer.is_empty() {stdin().lock().read_until(b'\\n', &mut input_buffer).unwrap();};memory[memory_pointer] = input_buffer.remove(0usize);",
        );
    } else if op.0 == LOOP_OPEN {
        push_text(text, "while *memory.get(memory_pointer).unwrap() != 0u8 {");
    } else if op.0 == LOOP_CLOSE {
        push_text(text, "};");
    }
}

/// Writes the native source text for `compressed_program` on the standard
/// tape of `MEMORY_SIZE` cells.
pub fn transpile(compressed_program: &Vec<(u8, usize)>) -> (source: Vec<u8>)
    ensures
        source@ == transpiled(compressed_program@),
{
    transpile_with(compressed_program, MEMORY_SIZE)
}

/// Writes the native source text for `compressed_program` on a tape of
/// `memory_size` cells.
pub fn transpile_with(compressed_program: &Vec<(u8, usize)>, memory_size: usize) -> (source: Vec<u8>)
    ensures
        source@ == transpiled_with(compressed_program@, memory_size as nat),
{
    let mut source: Vec<u8> = Vec::new();
    push_counted(
        &mut source,
        "use std::io::{stdin, stdout, BufRead, BufWriter, StdoutLock, Write};const MEMORY_SIZE: usize = ",
        memory_size,
        "usize;fn main () {let mut buffered_stdout_lock: BufWriter<StdoutLock> = BufWriter::new(stdout().lock());let mut memory: [u8; MEMORY_SIZE] = [0u8; MEMORY_SIZE];let mut memory_pointer: usize = 0usize;let mut input_buffer: Vec<u8> = Vec::new();",
    );
    let mut i: usize = 0;
    while i < compressed_program.len()
        invariant
            i <= compressed_program.len(),
            source@ == prologue(memory_size as nat) + statements(compressed_program@.take(i as int)),
        decreases compressed_program.len() - i,
    {
        proof {
            assert(compressed_program@.take(i + 1).drop_last() =~= compressed_program@.take(
                i as int,
            ));
        }
        push_statement(&mut source, compressed_program[i]);
        i += 1;
    }
    assert(compressed_program@.take(i as int) =~= compressed_program@);
    source.push(125u8);
    source
}

/// Compiles `program` as far as the native source text: compresses it,
/// checks its brackets, and transpiles it.
///
/// An unbalanced program is refused and no text is written for it.
pub fn compile(program: &[u8]) -> (result: Result<Vec<u8>, BracketError>)
    ensures
        result is Ok <==> balanced(program@),
        match result {
            Ok(source) => source@ == transpiled(compressed(program@)),
            Err(BracketError::UnmatchedClose) => has_unmatched_close(program@),
            Err(BracketError::UnmatchedOpen) => !has_unmatched_close(program@)
                && has_unmatched_open(program@),
        },
{
    let ops = compress_program(program);
    proof {
        lemma_balance_carries_over(program@, ops@);
    }
    match generate_bracket_map(ops.as_slice()) {
        Ok(_) => Ok(transpile(&ops)),
        Err(error) => Err(error),
    }
}

} // verus!
