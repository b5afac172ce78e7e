use brainfuck::brackets::BracketError;
use brainfuck::compilers::optimized::{compile, push_decimal, transpile, transpile_with};

const PROLOGUE: &str = "use std::io::{stdin, stdout, BufRead, BufWriter, StdoutLock, Write};const MEMORY_SIZE: usize = 32768usize;fn main () {let mut buffered_stdout_lock: BufWriter<StdoutLock> = BufWriter::new(stdout().lock());let mut memory: [u8; MEMORY_SIZE] = [0u8; MEMORY_SIZE];let mut memory_pointer: usize = 0usize;let mut input_buffer: Vec<u8> = Vec::new();";

fn text(source: Vec<u8>) -> String {
    String::from_utf8(source).unwrap()
}

fn body(source: Vec<u8>) -> String {
    let whole = text(source);
    assert!(whole.starts_with(PROLOGUE));
    assert!(whole.ends_with('}'));
    whole[PROLOGUE.len()..whole.len() - 1].to_string()
}

#[test]
fn numbers_are_written_in_decimal() {
    for (number, digits) in [
        (0usize, "0"),
        (7, "7"),
        (10, "10"),
        (99, "99"),
        (100, "100"),
        (32768, "32768"),
        (1234567890, "1234567890"),
    ] {
        let mut out = b"n=".to_vec();
        push_decimal(&mut out, number);
        assert_eq!(text(out), format!("n={}", digits));
    }
    let mut out = Vec::new();
    push_decimal(&mut out, usize::MAX);
    assert_eq!(text(out), format!("{}", usize::MAX));
}

#[test]
fn an_empty_program_is_an_empty_main() {
    assert_eq!(text(transpile(&vec![])), format!("{}}}", PROLOGUE));
    assert_eq!(compile(b"").map(text), Ok(format!("{}}}", PROLOGUE)));
    assert_eq!(
        compile(b"comments only").map(text),
        Ok(format!("{}}}", PROLOGUE))
    );
}

#[test]
fn movement_runs_become_one_statement() {
    assert_eq!(
        body(transpile(&vec![(b'>', 3)])),
        "memory_pointer += 3usize;"
    );
    assert_eq!(
        body(transpile(&vec![(b'<', 12)])),
        "memory_pointer -= 12usize;"
    );
}

#[test]
fn arithmetic_runs_become_one_wrapping_statement() {
    assert_eq!(
        body(transpile(&vec![(b'+', 300)])),
        "memory[memory_pointer] = memory[memory_pointer].wrapping_add((300usize % 256usize) as u8);"
    );
    assert_eq!(
        body(transpile(&vec![(b'-', 1)])),
        "memory[memory_pointer] = memory[memory_pointer].wrapping_sub((1usize % 256usize) as u8);"
    );
}

#[test]
fn output_and_input_are_written_out() {
    assert_eq!(
        body(transpile(&vec![(b'.', 1)])),
        "if let Some(byte) = memory.get(memory_pointer).cloned().filter(|&byte| byte.is_ascii()){buffered_stdout_lock.write_all(&[byte]).unwrap();buffered_stdout_lock.flush().unwrap();}"
    );
    assert_eq!(
        body(transpile(&vec![(b',', 1)])),
        "if input_buffer.is_empty() {stdin().lock().read_until(b'\\n', &mut input_buffer).unwrap();};memory[memory_pointer] = input_buffer.remove(0usize);"
    );
}

#[test]
fn loops_become_a_native_while() {
    assert_eq!(
        body(transpile(&vec![(b'[', 1), (b'-', 1), (b']', 1)])),
        "while *memory.get(memory_pointer).unwrap() != 0u8 {memory[memory_pointer] = memory[memory_pointer].wrapping_sub((1usize % 256usize) as u8);};"
    );
}

#[test]
fn a_code_that_is_no_instruction_gives_nothing() {
    assert_eq!(body(transpile(&vec![(b'x', 4), (b'>', 1)])), "memory_pointer += 1usize;");
}

#[test]
fn statements_follow_the_order_of_the_runs() {
    assert_eq!(
        compile(b"++ >> [ - ]").map(body),
        Ok(String::from(
            "memory[memory_pointer] = memory[memory_pointer].wrapping_add((2usize % 256usize) as u8);memory_pointer += 2usize;while *memory.get(memory_pointer).unwrap() != 0u8 {memory[memory_pointer] = memory[memory_pointer].wrapping_sub((1usize % 256usize) as u8);};"
        ))
    );
}

#[test]
fn unbalanced_programs_are_not_compiled() {
    assert_eq!(compile(b"+["), Err(BracketError::UnmatchedOpen));
    assert_eq!(compile(b"+]"), Err(BracketError::UnmatchedClose));
    assert_eq!(compile(b"]["), Err(BracketError::UnmatchedClose));
}

#[test]
fn the_tape_size_is_written_into_the_text() {
    let small = text(transpile_with(&vec![(b'+', 1)], 16));
    assert!(small.starts_with(
        "use std::io::{stdin, stdout, BufRead, BufWriter, StdoutLock, Write};const MEMORY_SIZE: usize = 16usize;fn main () {"
    ));
    assert!(small.ends_with(
        "memory[memory_pointer] = memory[memory_pointer].wrapping_add((1usize % 256usize) as u8);}"
    ));
    assert_eq!(
        text(transpile_with(&vec![(b'<', 2)], 32768)),
        text(transpile(&vec![(b'<', 2)]))
    );
}
