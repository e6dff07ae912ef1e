use vstd::prelude::*;

use crate::compile::{
    balanced, compile_spec, depth, lemma_depth_step, lemma_find_close, lemma_resolve_pair,
    matched, resolve, CompileError,
};
use crate::executor::{halted, next, Machine, MEM_SIZE};
use crate::instruction::{
    all_symbols, is_close, is_open, is_run_symbol, lemma_run_length, run_instruction, tokens,
    tokens_from, Instruction,
};

verus! {

/// A `[` at `i` that no later `]` closes: the depth stays above its level to
/// the end of the program.
pub open spec fn unclosed_open(t: Seq<Instruction>, i: int) -> bool {
    &&& 0 <= i < t.len()
    &&& is_open(t[i])
    &&& forall|m: int| i < m <= t.len() ==> #[trigger] depth(t, m) > depth(t, i)
}

/// A `]` at `j` reached when every earlier `[` has already been closed.
pub open spec fn unopened_close(t: Seq<Instruction>, j: int) -> bool {
    &&& 0 <= j < t.len()
    &&& is_close(t[j])
    &&& depth(t, j) <= 0
}

/// A source made of one run symbol repeated compiles to a single
/// instruction whose count is the length of the run, truncated to the cap.
pub proof fn lemma_single_run_compiles(s: Seq<u8>, b: u8)
    requires
        is_run_symbol(b),
        s.len() > 0,
        forall|i: int| 0 <= i < s.len() ==> s[i] == b,
    ensures
        compile_spec(s) == Ok::<Seq<Instruction>, CompileError>(
            seq![run_instruction(b, s.len())],
        ),
{
    assert(all_symbols(s));
    lemma_run_length(s, 1, s.len() as int, b);
    assert(tokens_from(s, s.len() as int) == Seq::<Instruction>::empty());
    let t = tokens(s);
    assert(t =~= seq![run_instruction(b, s.len())]);
    lemma_depth_step(t, 0);
    assert(balanced(t));
    assert(resolve(t) =~= t);
}

/// In a compiled program the target of every `[` is a `]` whose own target
/// is that `[`.
pub proof fn lemma_loop_targets_pair(src: Seq<u8>, p: Seq<Instruction>, i: int)
    requires
        compile_spec(src) == Ok::<Seq<Instruction>, CompileError>(p),
        p.len() <= usize::MAX,
        0 <= i < p.len(),
        p[i] is LeftBracket,
    ensures
        (p[i]->LeftBracket_0 as int) < p.len(),
        p[p[i]->LeftBracket_0 as int] == Instruction::RightBracket(i as usize),
{
    let t = tokens(src);
    assert(balanced(t));
    assert(p == resolve(t));
    assert(is_open(t[i]));
    lemma_depth_step(t, i);
    lemma_find_close(t, i, i + 1);
    let j = choose|j: int| matched(t, i, j);
    lemma_resolve_pair(t, i, j);
}

/// A well-formed source with a `[` that is never closed, or with a `]` that
/// has no open `[` before it, fails with the unbalanced-bracket error.
pub proof fn lemma_unmatched_bracket_rejected(src: Seq<u8>)
    requires
        all_symbols(src),
        (exists|i: int| unclosed_open(tokens(src), i)) || (exists|j: int|
            unopened_close(tokens(src), j)),
    ensures
        compile_spec(src) == Err::<Seq<Instruction>, CompileError>(
            CompileError::UnbalancedBrackets,
        ),
{
    let t = tokens(src);
    if balanced(t) {
        if exists|i: int| unclosed_open(t, i) {
            let i = choose|i: int| unclosed_open(t, i);
            assert(depth(t, i) >= 0);
            assert(depth(t, t.len() as int) > depth(t, i));
        } else {
            let j = choose|j: int| unopened_close(t, j);
            lemma_depth_step(t, j);
            assert(depth(t, j + 1) >= 0);
        }
    }
}

/// Cell arithmetic is modulo 256: adding or subtracting an amount wraps
/// around, so that adding 256 in total leaves a cell as it was.
pub proof fn lemma_cell_arithmetic_wraps(p: Seq<Instruction>, m: Machine)
    requires
        !halted(p, m),
        0 <= m.dp < m.tape.len(),
    ensures
        p[m.ip] is Add ==> next(p, m, 0).tape[m.dp] as int == (m.tape[m.dp] as int
            + p[m.ip]->Add_0 as int) % 256,
        p[m.ip] is Sub ==> next(p, m, 0).tape[m.dp] as int == (m.tape[m.dp] as int
            - p[m.ip]->Sub_0 as int) % 256,
        p[m.ip] is Add && m.tape[m.dp] as int + p[m.ip]->Add_0 as int == 256 ==> next(
            p,
            m,
            0,
        ).tape[m.dp] == 0,
{
}

/// Pointer movement is circular over the tape's cells: moving left from
/// cell 0 lands on the last cell, and moving right from the last cell lands
/// on cell 0.
pub proof fn lemma_pointer_wraps(p: Seq<Instruction>, m: Machine)
    requires
        !halted(p, m),
        0 <= m.dp < MEM_SIZE,
    ensures
        p[m.ip] is Left ==> next(p, m, 0).dp == (m.dp - p[m.ip]->Left_0 as int) % (
        MEM_SIZE as int),
        p[m.ip] is Right ==> next(p, m, 0).dp == (m.dp + p[m.ip]->Right_0 as int) % (
        MEM_SIZE as int),
        p[m.ip] == Instruction::Left(1) && m.dp == 0 ==> next(p, m, 0).dp == MEM_SIZE - 1,
        p[m.ip] == Instruction::Right(1) && m.dp == MEM_SIZE - 1 ==> next(p, m, 0).dp == 0,
{
}

} // verus!
