use vstd::prelude::*;

verus! {

/// The symbol bytes of the language.
pub const PLUS: u8 = 43;
pub const MINUS: u8 = 45;
pub const LESS: u8 = 60;
pub const GREATER: u8 = 62;
pub const OPEN: u8 = 91;
pub const CLOSE: u8 = 93;
pub const DOT: u8 = 46;
pub const COMMA: u8 = 44;

/// The longest run that one run-length-encoded instruction records; longer
/// runs are truncated to it.
pub const MAX_RUN: usize = 255;

/// One compiled instruction.
///
/// Bracket payloads are instruction indices: before `decorate_functions`
/// resolves them they hold a placeholder.
#[derive(Debug, Clone, Copy, PartialEq, Eq, Structural)]
pub enum Instruction {
    /// Move the data pointer left by the count, wrapping around the tape.
    Left(usize),
    /// Move the data pointer right by the count, wrapping around the tape.
    Right(usize),
    /// Add the amount to the current cell, modulo 256.
    Add(u8),
    /// Subtract the amount from the current cell, modulo 256.
    Sub(u8),
    /// Append the current cell to the output.
    Output,
    /// Read one input byte into the current cell.
    Input,
    /// Jump past the matching close (at the given index) when the cell is zero.
    LeftBracket(usize),
    /// Jump back to the matching open (at the given index) when the cell is nonzero.
    RightBracket(usize),
}

pub open spec fn is_run_symbol(b: u8) -> bool {
    b == PLUS || b == MINUS || b == LESS || b == GREATER
}

pub open spec fn is_symbol(b: u8) -> bool {
    is_run_symbol(b) || b == OPEN || b == CLOSE || b == DOT || b == COMMA
}

pub open spec fn all_symbols(s: Seq<u8>) -> bool {
    forall|i: int| 0 <= i < s.len() ==> is_symbol(#[trigger] s[i])
}

/// The number of consecutive bytes equal to `b` starting at position `i`.
pub open spec fn run_length(s: Seq<u8>, i: int, b: u8) -> nat
    decreases s.len() - i,
{
    if 0 <= i < s.len() && s[i] == b {
        1 + run_length(s, i + 1, b)
    } else {
        0
    }
}

pub open spec fn capped(n: nat) -> nat {
    if n > MAX_RUN {
        MAX_RUN as nat
    } else {
        n
    }
}

/// The instruction that a run of `n` copies of the run symbol `b` compiles to.
pub open spec fn run_instruction(b: u8, n: nat) -> Instruction {
    if b == PLUS {
        Instruction::Add(capped(n) as u8)
    } else if b == MINUS {
        Instruction::Sub(capped(n) as u8)
    } else if b == LESS {
        Instruction::Left(capped(n) as usize)
    } else {
        Instruction::Right(capped(n) as usize)
    }
}

/// The instruction that the single symbol `b` compiles to, before loop
/// targets are resolved.
pub open spec fn single_instruction(b: u8) -> Instruction {
    if b == OPEN {
        Instruction::LeftBracket(0)
    } else if b == CLOSE {
        Instruction::RightBracket(0)
    } else if b == DOT {
        Instruction::Output
    } else {
        Instruction::Input
    }
}

/// Where the token that starts at `i` ends (exclusive).
pub open spec fn token_end(s: Seq<u8>, i: int) -> int {
    if is_run_symbol(s[i]) {
        i + 1 + run_length(s, i + 1, s[i])
    } else {
        i + 1
    }
}

/// The instruction for the token that starts at `i`.
pub open spec fn token_instruction(s: Seq<u8>, i: int) -> Instruction {
    if is_run_symbol(s[i]) {
        run_instruction(s[i], (1 + run_length(s, i + 1, s[i])) as nat)
    } else {
        single_instruction(s[i])
    }
}

/// The instructions of the tokens from position `i` to the end, with loop
/// targets still unresolved.
pub open spec fn tokens_from(s: Seq<u8>, i: int) -> Seq<Instruction>
    decreases (if i < s.len() {
        s.len() - i
    } else {
        0
    }),
{
    if 0 <= i < s.len() {
        let len: int = if is_run_symbol(s[i]) {
            1 + run_length(s, i + 1, s[i]) as int
        } else {
            1
        };
        seq![token_instruction(s, i)] + tokens_from(s, i + len)
    } else {
        Seq::empty()
    }
}

pub open spec fn tokens(s: Seq<u8>) -> Seq<Instruction> {
    tokens_from(s, 0)
}

pub open spec fn is_open(ins: Instruction) -> bool {
    ins is LeftBracket
}

pub open spec fn is_close(ins: Instruction) -> bool {
    ins is RightBracket
}

/// A run of `b` that covers `[i, j)` and stops at `j` has length `j - i`.
pub proof fn lemma_run_length(s: Seq<u8>, i: int, j: int, b: u8)
    requires
        0 <= i <= j <= s.len(),
        forall|k: int| i <= k < j ==> s[k] == b,
        j == s.len() || s[j] != b,
    ensures
        run_length(s, i, b) == j - i,
    decreases j - i,
{
    if i < j {
        lemma_run_length(s, i + 1, j, b);
    }
}

impl Instruction {
    /// Reads the token that starts at `start`: a run of one of `+ - < >`
    /// (its count truncated to `MAX_RUN`) or one of `[ ] . ,`. Returns the
    /// instruction and the position after the token, or `None` where the
    /// byte at `start` is not a symbol or `start` is past the end.
    pub fn parse(input: &[u8], start: usize) -> (r: Option<(Instruction, usize)>)
        ensures
            match r {
                Some((ins, end)) => start < end <= input@.len() && is_symbol(input@[start as int])
                    && (forall|k: int| start <= k < end ==> #[trigger] input@[k] == input@[start as int])
                    && ins == token_instruction(input@, start as int) && end == token_end(
                    input@,
                    start as int,
                ),
                None => start >= input@.len() || !is_symbol(input@[start as int]),
            },
    {
        if start >= input.len() {
            return None;
        }
        let b = input[start];
        if b == PLUS || b == MINUS || b == LESS || b == GREATER {
            let mut j: usize = start + 1;
            while j < input.len() && input[j] == b
                invariant
                    start < j <= input@.len(),
                    forall|k: int| start < k < j ==> input@[k] == b,
                decreases input@.len() - j,
            {
                j = j + 1;
            }
            proof {
                lemma_run_length(input@, start + 1, j as int, b);
            }
            let n: usize = j - start;
            let c: usize = if n > MAX_RUN {
                MAX_RUN
            } else {
                n
            };
            let ins = if b == PLUS {
                Instruction::Add(c as u8)
            } else if b == MINUS {
                Instruction::Sub(c as u8)
            } else if b == LESS {
                Instruction::Left(c)
            } else {
                Instruction::Right(c)
            };
            Some((ins, j))
        } else if b == OPEN {
            Some((Instruction::LeftBracket(0), start + 1))
        } else if b == CLOSE {
            Some((Instruction::RightBracket(0), start + 1))
        } else if b == DOT {
            Some((Instruction::Output, start + 1))
        } else if b == COMMA {
            Some((Instruction::Input, start + 1))
        } else {
            None
        }
    }
}

} // verus!
