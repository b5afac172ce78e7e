use brainfuck::brackets::BracketError;
use brainfuck::compressor::compress_program;
use brainfuck::interpreters::basic;
use brainfuck::interpreters::optimized;
use std::collections::HashMap;

fn pairs(entries: &[(usize, usize)]) -> HashMap<usize, usize> {
    let mut map = HashMap::new();
    for (from, to) in entries {
        map.insert(*from, *to);
    }
    map
}

#[test]
fn no_brackets_give_an_empty_map() {
    assert_eq!(basic::generate_bracket_map(b""), Ok(HashMap::new()));
    assert_eq!(basic::generate_bracket_map(b"++>>.,"), Ok(HashMap::new()));
}

#[test]
fn one_pair_is_mapped_both_ways() {
    assert_eq!(
        basic::generate_bracket_map(b"[]"),
        Ok(pairs(&[(0, 1), (1, 0)]))
    );
}

#[test]
fn nested_pairs_are_matched_inside_out() {
    assert_eq!(
        basic::generate_bracket_map(b"[[]]"),
        Ok(pairs(&[(0, 3), (3, 0), (1, 2), (2, 1)]))
    );
}

#[test]
fn pairs_side_by_side_are_matched_in_turn() {
    assert_eq!(
        basic::generate_bracket_map(b"[][]"),
        Ok(pairs(&[(0, 1), (1, 0), (2, 3), (3, 2)]))
    );
}

#[test]
fn positions_count_every_byte_of_a_raw_program() {
    assert_eq!(
        basic::generate_bracket_map(b"+[ - ]x"),
        Ok(pairs(&[(1, 5), (5, 1)]))
    );
}

#[test]
fn a_lone_open_is_an_unmatched_open() {
    assert_eq!(
        basic::generate_bracket_map(b"["),
        Err(BracketError::UnmatchedOpen)
    );
    assert_eq!(
        basic::generate_bracket_map(b"[[]"),
        Err(BracketError::UnmatchedOpen)
    );
}

#[test]
fn a_lone_close_is_an_unmatched_close() {
    assert_eq!(
        basic::generate_bracket_map(b"]"),
        Err(BracketError::UnmatchedClose)
    );
    assert_eq!(
        basic::generate_bracket_map(b"[]]"),
        Err(BracketError::UnmatchedClose)
    );
}

#[test]
fn the_first_defect_from_the_left_is_reported() {
    assert_eq!(
        basic::generate_bracket_map(b"]["),
        Err(BracketError::UnmatchedClose)
    );
    assert_eq!(
        basic::generate_bracket_map(b"[[]]]["),
        Err(BracketError::UnmatchedClose)
    );
}

#[test]
fn the_map_is_a_perfect_matching() {
    let program = b"+[>[-]<[[.],]]-[]";
    let map = basic::generate_bracket_map(program).unwrap();
    let brackets = program
        .iter()
        .filter(|code| **code == b'[' || **code == b']')
        .count();
    assert_eq!(map.len(), brackets);
    for (position, code) in program.iter().enumerate() {
        if *code == b'[' {
            let close = map[&position];
            assert!(position < close);
            assert_eq!(program[close], b']');
            assert_eq!(map[&close], position);
        } else if *code == b']' {
            let open = map[&position];
            assert!(open < position);
            assert_eq!(program[open], b'[');
            assert_eq!(map[&open], position);
        } else {
            assert!(!map.contains_key(&position));
        }
    }
}

#[test]
fn positions_count_runs_of_a_compressed_program() {
    let ops = compress_program(b"+++[>>>-<<<]");
    assert_eq!(
        optimized::generate_bracket_map(&ops),
        Ok(pairs(&[(1, 5), (5, 1)]))
    );
}

#[test]
fn compressed_programs_are_checked_alike() {
    assert_eq!(
        optimized::generate_bracket_map(&[(b'[', 1)]),
        Err(BracketError::UnmatchedOpen)
    );
    assert_eq!(
        optimized::generate_bracket_map(&[(b']', 1)]),
        Err(BracketError::UnmatchedClose)
    );
    assert_eq!(
        optimized::generate_bracket_map(&[(b']', 1), (b'[', 1)]),
        Err(BracketError::UnmatchedClose)
    );
    assert_eq!(optimized::generate_bracket_map(&[]), Ok(HashMap::new()));
}

#[test]
fn both_defects_read_the_same() {
    assert_eq!(
        BracketError::UnmatchedOpen.message(),
        "Unbalanced brackets in program."
    );
    assert_eq!(
        BracketError::UnmatchedClose.message(),
        "Unbalanced brackets in program."
    );
    assert_ne!(BracketError::UnmatchedOpen, BracketError::UnmatchedClose);
}
