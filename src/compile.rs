use vstd::prelude::*;

use crate::instruction::{all_symbols, is_close, is_open, tokens, Instruction};

verus! {

/// Why a source fails to compile.
#[derive(Debug, Clone, Copy, PartialEq, Eq, Structural)]
pub enum CompileError {
    /// A byte outside the eight symbols of the language.
    UnexpectedSymbol,
    /// A `[` that is never closed, or a `]` with no open `[` before it.
    UnbalancedBrackets,
}

/// Loops opened minus loops closed among the first `k` instructions.
pub open spec fn depth(t: Seq<Instruction>, k: int) -> int
    decreases k,
{
    if k <= 0 || k > t.len() {
        0
    } else {
        depth(t, k - 1) + if is_open(t[k - 1]) {
            1int
        } else if is_close(t[k - 1]) {
            -1int
        } else {
            0int
        }
    }
}

/// Every close has an open before it and every open is closed.
pub open spec fn balanced(t: Seq<Instruction>) -> bool {
    &&& forall|k: int| 0 <= k <= t.len() ==> #[trigger] depth(t, k) >= 0
    &&& depth(t, t.len() as int) == 0
}

/// The open at `i` and the close at `j` are a matching pair: the depth
/// returns to its level before `i` right after `j`, and not earlier.
pub open spec fn matched(t: Seq<Instruction>, i: int, j: int) -> bool {
    &&& 0 <= i < j < t.len()
    &&& is_open(t[i])
    &&& is_close(t[j])
    &&& depth(t, j + 1) == depth(t, i)
    &&& forall|m: int| i < m <= j ==> #[trigger] depth(t, m) > depth(t, i)
}

/// The program with each bracket's payload set to the index of its partner.
pub open spec fn resolve(t: Seq<Instruction>) -> Seq<Instruction> {
    Seq::new(
        t.len(),
        |i: int|
            if is_open(t[i]) {
                Instruction::LeftBracket((choose|j: int| matched(t, i, j)) as usize)
            } else if is_close(t[i]) {
                Instruction::RightBracket((choose|j: int| matched(t, j, i)) as usize)
            } else {
                t[i]
            },
    )
}

/// What compiling the source bytes `s` gives.
pub open spec fn compile_spec(s: Seq<u8>) -> Result<Seq<Instruction>, CompileError> {
    if !all_symbols(s) {
        Err(CompileError::UnexpectedSymbol)
    } else if !balanced(tokens(s)) {
        Err(CompileError::UnbalancedBrackets)
    } else {
        Ok(resolve(tokens(s)))
    }
}

pub proof fn lemma_depth_step(t: Seq<Instruction>, k: int)
    requires
        0 <= k < t.len(),
    ensures
        depth(t, k + 1) == depth(t, k) + if is_open(t[k]) {
            1int
        } else if is_close(t[k]) {
            -1int
        } else {
            0int
        },
{
}

/// In a balanced program an open whose depth has stayed above its own
/// level through position `m` has a matching close.
pub proof fn lemma_find_close(t: Seq<Instruction>, i: int, m: int)
    requires
        balanced(t),
        0 <= i < t.len(),
        is_open(t[i]),
        i < m <= t.len(),
        forall|k: int| i < k <= m ==> #[trigger] depth(t, k) > depth(t, i),
    ensures
        exists|j: int| matched(t, i, j),
    decreases t.len() - m,
{
    assert(depth(t, i) >= 0);
    if m == t.len() {
        assert(depth(t, t.len() as int) == 0);
    } else {
        lemma_depth_step(t, m);
        if depth(t, m + 1) > depth(t, i) {
            lemma_find_close(t, i, m + 1);
        } else {
            assert(matched(t, i, m));
        }
    }
}

/// An open has at most one matching close.
pub proof fn lemma_matched_close_unique(t: Seq<Instruction>, i: int, j1: int, j2: int)
    requires
        matched(t, i, j1),
        matched(t, i, j2),
    ensures
        j1 == j2,
{
    if j1 < j2 {
        assert(depth(t, j1 + 1) > depth(t, i));
    } else if j2 < j1 {
        assert(depth(t, j2 + 1) > depth(t, i));
    }
}

/// A close has at most one matching open.
pub proof fn lemma_matched_open_unique(t: Seq<Instruction>, i1: int, i2: int, j: int)
    requires
        matched(t, i1, j),
        matched(t, i2, j),
    ensures
        i1 == i2,
{
    if i1 < i2 {
        assert(depth(t, i2) > depth(t, i1));
    } else if i2 < i1 {
        assert(depth(t, i1) > depth(t, i2));
    }
}

/// Where the open at `i` and the close at `j` match, the resolved program
/// holds each one's index at the other.
pub proof fn lemma_resolve_pair(t: Seq<Instruction>, i: int, j: int)
    requires
        matched(t, i, j),
    ensures
        resolve(t)[i] == Instruction::LeftBracket(j as usize),
        resolve(t)[j] == Instruction::RightBracket(i as usize),
{
    let j2 = choose|j2: int| matched(t, i, j2);
    lemma_matched_close_unique(t, i, j, j2);
    let i2 = choose|i2: int| matched(t, i2, j);
    lemma_matched_open_unique(t, i, i2, j);
}

} // verus!
