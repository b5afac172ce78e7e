use brainfuck::compressor::compress_program;

#[test]
fn empty_program_compresses_to_nothing() {
    assert_eq!(compress_program(b""), vec![]);
}

#[test]
fn comments_compress_to_nothing() {
    assert_eq!(compress_program(b"hello, world? no: the comma is one"), vec![(b',', 1)]);
    assert_eq!(compress_program(b"just words and\nlines\t!"), vec![]);
}

#[test]
fn single_instruction_is_a_run_of_one() {
    assert_eq!(compress_program(b"+"), vec![(b'+', 1)]);
    assert_eq!(compress_program(b"["), vec![(b'[', 1)]);
}

#[test]
fn adjacent_movement_and_arithmetic_merge() {
    assert_eq!(compress_program(b"+++"), vec![(b'+', 3)]);
    assert_eq!(compress_program(b"---->>><<"), vec![(b'-', 4), (b'>', 3), (b'<', 2)]);
}

#[test]
fn different_instructions_do_not_merge() {
    assert_eq!(
        compress_program(b"+-+-"),
        vec![(b'+', 1), (b'-', 1), (b'+', 1), (b'-', 1)]
    );
    assert_eq!(compress_program(b"><"), vec![(b'>', 1), (b'<', 1)]);
}

#[test]
fn runs_merge_across_comments() {
    assert_eq!(compress_program(b"+ + x +\n+"), vec![(b'+', 4)]);
    assert_eq!(compress_program(b"  >a>b>  "), vec![(b'>', 3)]);
}

#[test]
fn output_input_and_loops_never_merge() {
    assert_eq!(compress_program(b".."), vec![(b'.', 1), (b'.', 1)]);
    assert_eq!(compress_program(b",,,"), vec![(b',', 1), (b',', 1), (b',', 1)]);
    assert_eq!(compress_program(b"[["), vec![(b'[', 1), (b'[', 1)]);
    assert_eq!(compress_program(b"]]"), vec![(b']', 1), (b']', 1)]);
}

#[test]
fn other_instructions_end_a_run() {
    assert_eq!(
        compress_program(b"++.++"),
        vec![(b'+', 2), (b'.', 1), (b'+', 2)]
    );
    assert_eq!(
        compress_program(b"++[--]++"),
        vec![(b'+', 2), (b'[', 1), (b'-', 2), (b']', 1), (b'+', 2)]
    );
}

#[test]
fn leading_and_trailing_comments_are_dropped() {
    assert_eq!(compress_program(b"abc+++def"), vec![(b'+', 3)]);
}

#[test]
fn eight_times_eight_compresses_to_nine_runs() {
    assert_eq!(
        compress_program(b"++++++++[>++++++++<-]>."),
        vec![
            (b'+', 8),
            (b'[', 1),
            (b'>', 1),
            (b'+', 8),
            (b'<', 1),
            (b'-', 1),
            (b']', 1),
            (b'>', 1),
            (b'.', 1),
        ]
    );
}

#[test]
fn a_long_run_keeps_its_full_count() {
    let program = vec![b'+'; 300];
    assert_eq!(compress_program(&program), vec![(b'+', 300)]);
}

#[test]
fn expanding_the_runs_gives_the_instructions_back() {
    let program = b"a++ +[>, .<-x-]y>>.";
    let mut expanded: Vec<u8> = Vec::new();
    for (code, count) in compress_program(program) {
        for _ in 0..count {
            expanded.push(code);
        }
    }
    assert_eq!(expanded, b"+++[>,.<--]>>.".to_vec());
}
