//! The compressor: a raw program becomes a stream of runs, each an
//! instruction with a repeat count.
//!
//! Comment bytes are dropped. Adjacent occurrences of one movement or
//! arithmetic instruction become one run, also across comments; every other
//! instruction is a run of its own with count 1.

use vstd::prelude::*;
use crate::instruction::{is_instruction, is_instruction_byte, is_mergeable, is_mergeable_byte};

verus! {

/// The instruction bytes of `program`, in order, without the comments.
pub open spec fn instructions_of(program: Seq<u8>) -> Seq<u8>
    decreases program.len(),
{
    if program.len() == 0 {
        Seq::empty()
    } else if is_instruction(program.last()) {
        instructions_of(program.drop_last()).push(program.last())
    } else {
        instructions_of(program.drop_last())
    }
}

/// `code` written `count` times.
pub open spec fn repeated(code: u8, count: nat) -> Seq<u8> {
    Seq::new(count, |i: int| code)
}

/// The raw program that `ops` stands for: every run written out.
pub open spec fn expand(ops: Seq<(u8, usize)>) -> Seq<u8>
    decreases ops.len(),
{
    if ops.len() == 0 {
        Seq::empty()
    } else {
        expand(ops.drop_last()) + repeated(ops.last().0, ops.last().1 as nat)
    }
}

/// Every run of `ops` holds an instruction at least once, and more than
/// once only where the instruction is one that merges.
pub open spec fn is_compressed(ops: Seq<(u8, usize)>) -> bool {
    forall|k: int|
        0 <= k < ops.len() ==> {
            &&& is_instruction((#[trigger] ops[k]).0)
            &&& ops[k].1 >= 1
            &&& !is_mergeable(ops[k].0) ==> ops[k].1 == 1
        }
}

/// No run of `ops` could have been merged with the one before it.
pub open spec fn runs_are_maximal(ops: Seq<(u8, usize)>) -> bool {
    forall|k: int|
        0 < k < ops.len() && is_mergeable((#[trigger] ops[k]).0) ==> ops[k - 1].0 != ops[k].0
}

/// `ops` with one more occurrence of the instruction `code` at its end:
/// merged into the last run where that run is of the same mergeable
/// instruction, a new run of count 1 otherwise.
pub open spec fn appended(ops: Seq<(u8, usize)>, code: u8) -> Seq<(u8, usize)> {
    if is_mergeable(code) && ops.len() > 0 && ops.last().0 == code {
        ops.drop_last().push((code, (ops.last().1 + 1) as usize))
    } else {
        ops.push((code, 1usize))
    }
}

/// The compressed form of `program`.
pub open spec fn compressed(program: Seq<u8>) -> Seq<(u8, usize)>
    decreases program.len(),
{
    if program.len() == 0 {
        Seq::empty()
    } else if is_instruction(program.last()) {
        appended(compressed(program.drop_last()), program.last())
    } else {
        compressed(program.drop_last())
    }
}

/// The sum of the repeat counts of `ops`.
pub open spec fn total_count(ops: Seq<(u8, usize)>) -> nat
    decreases ops.len(),
{
    if ops.len() == 0 {
        0
    } else {
        total_count(ops.drop_last()) + ops.last().1 as nat
    }
}

/// The compressed form counts no more instructions than the program has
/// bytes, so no repeat count of a program that fits in memory overflows.
pub proof fn lemma_compressed_counts(program: Seq<u8>)
    ensures
        total_count(compressed(program)) <= program.len(),
        compressed(program).len() > 0 ==> compressed(program).last().1 <= total_count(
            compressed(program),
        ),
    decreases program.len(),
{
    if program.len() > 0 {
        let before = compressed(program.drop_last());
        let code = program.last();
        lemma_compressed_counts(program.drop_last());
        if is_instruction(code) {
            if is_mergeable(code) && before.len() > 0 && before.last().0 == code {
                let merged = before.drop_last().push((code, (before.last().1 + 1) as usize));
                assert(merged.drop_last() =~= before.drop_last());
            } else {
                assert(before.push((code, 1usize)).drop_last() =~= before);
            }
        }
    }
}

/// The compressed form of a program keeps its instructions in order, holds
/// well-formed runs only, and holds no two runs that could be one.
pub proof fn lemma_compressed_is_faithful(program: Seq<u8>)
    requires
        program.len() <= usize::MAX,
    ensures
        expand(compressed(program)) == instructions_of(program),
        is_compressed(compressed(program)),
        runs_are_maximal(compressed(program)),
    decreases program.len(),
{
    if program.len() > 0 {
        let before = compressed(program.drop_last());
        let code = program.last();
        lemma_compressed_is_faithful(program.drop_last());
        lemma_compressed_counts(program.drop_last());
        if is_instruction(code) {
            if is_mergeable(code) && before.len() > 0 && before.last().0 == code {
                let count = before.last().1;
                let merged = before.drop_last().push((code, (count + 1) as usize));
                assert(merged.drop_last() =~= before.drop_last());
                assert(is_compressed(merged));
                assert(runs_are_maximal(merged));
            } else {
                let grown = before.push((code, 1usize));
                assert(grown.drop_last() =~= before);
                assert(is_compressed(grown));
                assert(runs_are_maximal(grown));
            }
        }
    }
}

/// What runs that are not empty stand for ends with the last run.
proof fn lemma_expand_ends_with_last_run(ops: Seq<(u8, usize)>)
    requires
        is_compressed(ops),
        ops.len() > 0,
    ensures
        1 <= ops.last().1 <= expand(ops).len(),
        expand(ops).take(expand(ops).len() - ops.last().1) == expand(ops.drop_last()),
        forall|i: int|
            expand(ops).len() - ops.last().1 <= i < expand(ops).len() ==> expand(ops)[i]
                == ops.last().0,
{
}

/// A prefix of well-formed runs, none of which could have been merged, is of
/// that kind too.
proof fn lemma_prefix_is_compressed(ops: Seq<(u8, usize)>)
    requires
        is_compressed(ops),
        runs_are_maximal(ops),
        ops.len() > 0,
    ensures
        is_compressed(ops.drop_last()),
        runs_are_maximal(ops.drop_last()),
{
}

/// The last run of `shorter` is no shorter than the last run of `longer`,
/// where both are well-formed runs that stand for the same instructions and
/// no run of `shorter` could have been merged.
proof fn lemma_last_runs_compare(shorter: Seq<(u8, usize)>, longer: Seq<(u8, usize)>)
    requires
        is_compressed(shorter),
        is_compressed(longer),
        runs_are_maximal(shorter),
        expand(shorter) == expand(longer),
        shorter.len() > 0,
        longer.len() > 0,
    ensures
        shorter.last().0 == longer.last().0,
        shorter.last().1 >= longer.last().1,
{
    let all = expand(shorter);
    lemma_expand_ends_with_last_run(shorter);
    lemma_expand_ends_with_last_run(longer);
    let code = shorter.last().0;
    let count = shorter.last().1 as int;
    assert(all[all.len() - 1] == code);
    if count < longer.last().1 {
        assert(all[all.len() - count - 1] == code);
        lemma_prefix_is_compressed(shorter);
        lemma_expand_ends_with_last_run(shorter.drop_last());
    }
}

/// There is one way only to compress: well-formed runs of which none could
/// have been merged with the one before it are settled by the instructions
/// they stand for.
pub proof fn lemma_compression_is_unique(ops: Seq<(u8, usize)>, others: Seq<(u8, usize)>)
    requires
        is_compressed(ops),
        is_compressed(others),
        runs_are_maximal(ops),
        runs_are_maximal(others),
        expand(ops) == expand(others),
    ensures
        ops == others,
    decreases ops.len(),
{
    if ops.len() == 0 {
        if others.len() > 0 {
            lemma_expand_ends_with_last_run(others);
        }
    } else {
        lemma_expand_ends_with_last_run(ops);
        if others.len() == 0 {
            assert(false);
        }
        lemma_expand_ends_with_last_run(others);
        lemma_last_runs_compare(ops, others);
        lemma_last_runs_compare(others, ops);
        lemma_prefix_is_compressed(ops);
        lemma_prefix_is_compressed(others);
        lemma_compression_is_unique(ops.drop_last(), others.drop_last());
        assert(ops =~= ops.drop_last().push(ops.last()));
    }
}

/// Compresses `program`.
///
/// The runs keep the instructions of the program in order and drop its
/// comments, each run is well-formed, and no run could have been merged
/// with the one before it; `lemma_compression_is_unique` shows that this
/// settles the result.
pub fn compress_program(program: &[u8]) -> (ops: Vec<(u8, usize)>)
    ensures
        ops@ == compressed(program@),
        expand(ops@) == instructions_of(program@),
        is_compressed(ops@),
        runs_are_maximal(ops@),
{
    let mut ops: Vec<(u8, usize)> = Vec::with_capacity(program.len());
    let mut start: usize = 0;
    while start < program.len() && !is_instruction_byte(program[start])
        invariant
            start <= program.len(),
            compressed(program@.take(start as int)) == Seq::<(u8, usize)>::empty(),
        decreases program.len() - start,
    {
        proof {
            assert(program@.take(start + 1).drop_last() =~= program@.take(start as int));
        }
        start += 1;
    }
    proof {
        assert(program@.take(program.len() as int) =~= program@);
        lemma_compressed_is_faithful(program@);
    }
    if start >= program.len() {
        return ops;
    }
    let mut current: u8 = program[start];
    let mut count: usize = 1;
    let mut i: usize = start + 1;
    proof {
        assert(program@.take(i as int).drop_last() =~= program@.take(start as int));
    }
    while i < program.len()
        invariant
            start < i <= program.len(),
            compressed(program@.take(i as int)) == ops@.push((current, count)),
        decreases program.len() - i,
    {
        let code = program[i];
        proof {
            assert(program@.take(i + 1).drop_last() =~= program@.take(i as int));
            lemma_compressed_counts(program@.take(i as int));
        }
        if is_instruction_byte(code) {
            if is_mergeable_byte(current) && current == code {
                count += 1;
            } else {
                ops.push((current, count));
                current = code;
                count = 1;
            }
        }
        i += 1;
    }
    ops.push((current, count));
    ops
}

} // verus!
