//! Loop brackets: nesting depth, matching pairs, and what a bracket map is.
//!
//! Everything here speaks of a sequence of instruction codes. A raw program
//! is such a sequence as it stands; a compressed program gives one through
//! the codes of its runs.

use vstd::prelude::*;
use crate::instruction::{LOOP_CLOSE, LOOP_OPEN};

verus! {

/// Why a stream of instructions has no bracket map.
#[derive(Debug, Clone, Copy, PartialEq, Eq, Structural)]
pub enum BracketError {
    /// A loop-close stands where no loop is open.
    UnmatchedClose,
    /// The stream ends while a loop is still open.
    UnmatchedOpen,
}

impl BracketError {
    /// The error as a sentence, the same for both defects.
    pub fn message(&self) -> (text: &'static str)
        ensures
            text@ == "Unbalanced brackets in program."@,
    {
        "Unbalanced brackets in program."
    }
}

/// Whether `code` opens or closes a loop.
pub open spec fn is_bracket(code: u8) -> bool {
    code == LOOP_OPEN || code == LOOP_CLOSE
}

/// What one code adds to the nesting depth.
pub open spec fn delta(code: u8) -> int {
    if code == LOOP_OPEN {
        1
    } else if code == LOOP_CLOSE {
        -1
    } else {
        0
    }
}

/// Loop-opens minus loop-closes among the first `k` codes.
pub open spec fn depth(codes: Seq<u8>, k: int) -> int
    decreases k,
{
    if k <= 0 {
        0
    } else {
        depth(codes, k - 1) + delta(codes[k - 1])
    }
}

/// Some prefix closes more loops than it opened.
pub open spec fn has_unmatched_close(codes: Seq<u8>) -> bool {
    exists|k: int| 0 <= k <= codes.len() && #[trigger] depth(codes, k) < 0
}

/// More loops are opened than closed over the whole stream.
pub open spec fn has_unmatched_open(codes: Seq<u8>) -> bool {
    depth(codes, codes.len() as int) > 0
}

/// No prefix closes a loop that is not open, and none stays open at the end.
pub open spec fn balanced(codes: Seq<u8>) -> bool {
    !has_unmatched_close(codes) && !has_unmatched_open(codes)
}

/// The loop-open at `open` and the loop-close at `close` belong together:
/// the close is the first position after the open at which the depth is back
/// to what it was before the open.
pub open spec fn matched(codes: Seq<u8>, open: int, close: int) -> bool {
    &&& 0 <= open < close < codes.len()
    &&& codes[open] == LOOP_OPEN
    &&& codes[close] == LOOP_CLOSE
    &&& depth(codes, close + 1) == depth(codes, open)
    &&& forall|t: int| open < t <= close ==> #[trigger] depth(codes, t) > depth(codes, open)
}

/// `map` pairs every bracket of `codes` with its partner, in both
/// directions, and holds nothing else.
pub open spec fn is_bracket_map(codes: Seq<u8>, map: Map<usize, usize>) -> bool {
    &&& forall|i: usize| #[trigger]
        map.dom().contains(i) <==> (i < codes.len() && is_bracket(codes[i as int]))
    &&& forall|i: usize|
        i < codes.len() && codes[i as int] == LOOP_OPEN ==> matched(
            codes,
            i as int,
            #[trigger] map[i] as int,
        )
    &&& forall|i: usize|
        i < codes.len() && codes[i as int] == LOOP_CLOSE ==> matched(
            codes,
            #[trigger] map[i] as int,
            i as int,
        )
}

/// A loop-open has at most one matching loop-close.
pub proof fn lemma_close_is_unique(codes: Seq<u8>, open: int, close1: int, close2: int)
    requires
        matched(codes, open, close1),
        matched(codes, open, close2),
    ensures
        close1 == close2,
{
}

/// A loop-close has at most one matching loop-open.
pub proof fn lemma_open_is_unique(codes: Seq<u8>, open1: int, open2: int, close: int)
    requires
        matched(codes, open1, close),
        matched(codes, open2, close),
    ensures
        open1 == open2,
{
}

/// In a balanced stream every loop-open has its loop-close.
pub proof fn lemma_close_exists(codes: Seq<u8>, open: int) -> (close: int)
    requires
        balanced(codes),
        0 <= open < codes.len(),
        codes[open] == LOOP_OPEN,
    ensures
        matched(codes, open, close),
{
    lemma_seek_close(codes, open, open + 1)
}

/// The search for the loop-close of `open`: up to `reached` the depth has
/// stayed above the depth before `open`.
proof fn lemma_seek_close(codes: Seq<u8>, open: int, reached: int) -> (close: int)
    requires
        balanced(codes),
        0 <= open < reached <= codes.len(),
        codes[open] == LOOP_OPEN,
        forall|t: int| open < t <= reached ==> #[trigger] depth(codes, t) > depth(codes, open),
    ensures
        matched(codes, open, close),
    decreases codes.len() - reached,
{
    assert(depth(codes, reached) > depth(codes, open));
    if reached == codes.len() {
        assert(false);
        0
    } else if depth(codes, reached + 1) == depth(codes, open) {
        reached
    } else {
        lemma_seek_close(codes, open, reached + 1)
    }
}

/// In a balanced stream every loop-close has its loop-open.
pub proof fn lemma_open_exists(codes: Seq<u8>, close: int) -> (open: int)
    requires
        balanced(codes),
        0 <= close < codes.len(),
        codes[close] == LOOP_CLOSE,
    ensures
        matched(codes, open, close),
{
    lemma_seek_open(codes, close, close)
}

/// The search for the loop-open of `close`: from `reached` on the depth has
/// stayed above the depth after `close`.
proof fn lemma_seek_open(codes: Seq<u8>, close: int, reached: int) -> (open: int)
    requires
        balanced(codes),
        0 <= reached <= close < codes.len(),
        codes[close] == LOOP_CLOSE,
        forall|t: int| reached <= t <= close ==> #[trigger] depth(codes, t) > depth(codes, close + 1),
    ensures
        matched(codes, open, close),
    decreases reached,
{
    assert(depth(codes, reached) > depth(codes, close + 1));
    if reached == 0 {
        assert(false);
        0
    } else if depth(codes, reached - 1) == depth(codes, close + 1) {
        reached - 1
    } else {
        lemma_seek_open(codes, close, reached - 1)
    }
}

/// A bracket map is a perfect matching over the brackets of its stream:
/// its keys are exactly the bracket positions, the partner of a loop-open is
/// a loop-close and the other way round, no position is its own partner,
/// the partner of the partner is the position itself, and so no position is
/// the partner of two.
pub proof fn lemma_bracket_map_is_perfect_matching(codes: Seq<u8>, map: Map<usize, usize>)
    requires
        is_bracket_map(codes, map),
    ensures
        forall|i: usize| #[trigger]
            map.dom().contains(i) <==> (i < codes.len() && is_bracket(codes[i as int])),
        forall|i: usize| #[trigger]
            map.dom().contains(i) ==> {
                &&& map.dom().contains(map[i])
                &&& map[i] != i
                &&& (codes[i as int] == LOOP_OPEN <==> codes[map[i] as int] == LOOP_CLOSE)
                &&& map[map[i]] == i
            },
        forall|i: usize, j: usize|
            map.dom().contains(i) && map.dom().contains(j) && #[trigger] map[i] == #[trigger] map[j]
                ==> i == j,
{
    assert forall|i: usize| #[trigger] map.dom().contains(i) implies {
        &&& map.dom().contains(map[i])
        &&& map[i] != i
        &&& (codes[i as int] == LOOP_OPEN <==> codes[map[i] as int] == LOOP_CLOSE)
        &&& map[map[i]] == i
    } by {
        let p = map[i];
        if codes[i as int] == LOOP_OPEN {
            lemma_open_is_unique(codes, i as int, map[p] as int, p as int);
        } else {
            lemma_close_is_unique(codes, p as int, i as int, map[p] as int);
        }
    }
}

/// What a left-to-right scan with a stack of open positions knows after `i`
/// codes: the stack holds the loops still open, innermost last, and `map`
/// holds every pair already closed.
pub(crate) closed spec fn scan_inv(codes: Seq<u8>, i: int, stack: Seq<usize>, map: Map<usize, usize>) -> bool {
    &&& 0 <= i <= codes.len()
    &&& stack.len() == depth(codes, i)
    &&& forall|k: int| 0 <= k <= i ==> #[trigger] depth(codes, k) >= 0
    &&& forall|t: int|
        0 <= t < stack.len() ==> {
            &&& (#[trigger] stack[t]) < i
            &&& codes[stack[t] as int] == LOOP_OPEN
            &&& depth(codes, stack[t] as int) == t
        }
    &&& forall|t: int, u: int|
        0 <= t < stack.len() && stack[t] < u <= i ==> #[trigger] depth(codes, u) > #[trigger] depth(
            codes,
            stack[t] as int,
        )
    &&& forall|a: int, b: int| 0 <= a < b < stack.len() ==> stack[a] < stack[b]
    &&& forall|k: usize| #[trigger]
        map.dom().contains(k) <==> (k < i && is_bracket(codes[k as int]) && !stack.contains(k))
    &&& forall|k: usize|
        k < i && codes[k as int] == LOOP_OPEN && !stack.contains(k) ==> matched(
            codes,
            k as int,
            #[trigger] map[k] as int,
        )
    &&& forall|k: usize|
        k < i && codes[k as int] == LOOP_CLOSE ==> matched(codes, #[trigger] map[k] as int, k as int)
}

/// Before the first code the stack and the map are empty.
pub(crate) proof fn lemma_scan_start(codes: Seq<u8>)
    ensures
        scan_inv(codes, 0, Seq::<usize>::empty(), Map::<usize, usize>::empty()),
{
}

/// A code that is no bracket leaves stack and map as they are.
pub(crate) proof fn lemma_scan_other(codes: Seq<u8>, i: int, stack: Seq<usize>, map: Map<usize, usize>)
    requires
        scan_inv(codes, i, stack, map),
        i < codes.len(),
        !is_bracket(codes[i]),
    ensures
        scan_inv(codes, i + 1, stack, map),
{
}

/// A loop-open pushes its position.
pub(crate) proof fn lemma_scan_open(codes: Seq<u8>, i: int, stack: Seq<usize>, map: Map<usize, usize>)
    requires
        scan_inv(codes, i, stack, map),
        i < codes.len(),
        i <= usize::MAX,
        codes[i] == LOOP_OPEN,
    ensures
        scan_inv(codes, i + 1, stack.push(i as usize), map),
{
    let pushed = stack.push(i as usize);
    assert(pushed[stack.len() as int] == i);
    assert forall|k: usize| stack.contains(k) implies pushed.contains(k) by {
        let t = choose|t: int| 0 <= t < stack.len() && stack[t] == k;
        assert(pushed[t] == k);
    }
}

/// A loop-close met with an empty stack closes a loop that is not open.
pub(crate) proof fn lemma_scan_underflow(codes: Seq<u8>, i: int, stack: Seq<usize>, map: Map<usize, usize>)
    requires
        scan_inv(codes, i, stack, map),
        i < codes.len(),
        codes[i] == LOOP_CLOSE,
        stack.len() == 0,
    ensures
        has_unmatched_close(codes),
{
    assert(depth(codes, i + 1) == depth(codes, i) - 1);
}

/// A loop-close pops the innermost open position and records the pair in
/// both directions.
pub(crate) proof fn lemma_scan_close(codes: Seq<u8>, i: int, stack: Seq<usize>, map: Map<usize, usize>)
    requires
        scan_inv(codes, i, stack, map),
        i < codes.len(),
        i <= usize::MAX,
        codes[i] == LOOP_CLOSE,
        stack.len() > 0,
    ensures
        stack.last() < i,
        scan_inv(
            codes,
            i + 1,
            stack.drop_last(),
            map.insert(stack.last(), i as usize).insert(i as usize, stack.last()),
        ),
{
    let top = stack.last();
    let rest = stack.drop_last();
    assert(matched(codes, top as int, i));
    assert forall|k: usize| stack.contains(k) && k != top implies rest.contains(k) by {
        let t = choose|t: int| 0 <= t < stack.len() && stack[t] == k;
        assert(rest[t] == k);
    }
}

/// At the end of the stream an empty stack means that the map is complete,
/// and a stack that is not empty means that a loop was never closed.
pub(crate) proof fn lemma_scan_end(codes: Seq<u8>, stack: Seq<usize>, map: Map<usize, usize>)
    requires
        scan_inv(codes, codes.len() as int, stack, map),
    ensures
        !has_unmatched_close(codes),
        stack.len() == 0 ==> balanced(codes) && is_bracket_map(codes, map),
        stack.len() > 0 ==> has_unmatched_open(codes),
{
}

} // verus!
