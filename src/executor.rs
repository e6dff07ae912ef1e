use vstd::prelude::*;

use vstd::arithmetic::div_mod::{
    lemma_add_mod_noop_right, lemma_mod_multiples_vanish, lemma_sub_mod_noop_right,
};

use crate::compile::{
    balanced, compile_spec, depth, lemma_depth_step, lemma_resolve_pair, matched, resolve, CompileError,
};
use crate::instruction::{
    all_symbols, is_close, is_open, is_symbol, token_end, token_instruction, tokens, tokens_from,
    Instruction,
};

verus! {

/// The number of cells on the tape.
pub const MEM_SIZE: usize = 32768;

/// Why a run stopped before the program halted.
#[derive(Debug, Clone, Copy, PartialEq, Eq, Structural)]
pub enum ExecutorError {
    /// An input instruction found the input source exhausted.
    InputExhausted,
    /// The run used up its step budget before the program halted.
    StepLimitReached,
}

/// The state of a run: instruction pointer, data pointer and tape.
pub struct Machine {
    pub ip: int,
    pub dp: int,
    pub tape: Seq<u8>,
}

/// The state in which every run starts.
pub open spec fn initial_machine() -> Machine {
    Machine { ip: 0, dp: 0, tape: Seq::new(MEM_SIZE as nat, |_i: int| 0u8) }
}

/// Every bracket of `p` names an instruction index of `p`.
pub open spec fn targets_in_range(p: Seq<Instruction>) -> bool {
    forall|i: int|
        0 <= i < p.len() ==> match #[trigger] p[i] {
            Instruction::LeftBracket(t) => t < p.len(),
            Instruction::RightBracket(t) => t < p.len(),
            _ => true,
        }
}

/// The run is over: the instruction pointer has left the program.
pub open spec fn halted(p: Seq<Instruction>, m: Machine) -> bool {
    !(0 <= m.ip < p.len())
}

/// The next instruction reads a byte of input.
pub open spec fn wants_input(p: Seq<Instruction>, m: Machine) -> bool {
    !halted(p, m) && p[m.ip] is Input
}

/// The bytes that the next instruction appends to the output.
pub open spec fn emitted(p: Seq<Instruction>, m: Machine) -> Seq<u8> {
    if p[m.ip] is Output {
        seq![m.tape[m.dp]]
    } else {
        Seq::empty()
    }
}

/// The state after executing the instruction at the instruction pointer;
/// `input` is the byte that an input instruction reads.
pub open spec fn next(p: Seq<Instruction>, m: Machine, input: u8) -> Machine {
    let cell = m.tape[m.dp];
    match p[m.ip] {
        Instruction::Left(n) => Machine { ip: m.ip + 1, dp: (m.dp - n) % (MEM_SIZE as int), tape: m.tape },
        Instruction::Right(n) => Machine { ip: m.ip + 1, dp: (m.dp + n) % (MEM_SIZE as int), tape: m.tape },
        Instruction::Add(a) => Machine {
            ip: m.ip + 1,
            dp: m.dp,
            tape: m.tape.update(m.dp, ((cell + a) % 256) as u8),
        },
        Instruction::Sub(a) => Machine {
            ip: m.ip + 1,
            dp: m.dp,
            tape: m.tape.update(m.dp, ((cell - a) % 256) as u8),
        },
        Instruction::Output => Machine { ip: m.ip + 1, dp: m.dp, tape: m.tape },
        Instruction::Input => Machine { ip: m.ip + 1, dp: m.dp, tape: m.tape.update(m.dp, input) },
        Instruction::LeftBracket(t) => Machine {
            ip: if cell == 0 {
                t + 1
            } else {
                m.ip + 1
            },
            dp: m.dp,
            tape: m.tape,
        },
        Instruction::RightBracket(t) => Machine {
            ip: if cell != 0 {
                t as int
            } else {
                m.ip + 1
            },
            dp: m.dp,
            tape: m.tape,
        },
    }
}

pub open spec fn input_byte(input: Option<u8>) -> u8 {
    match input {
        Some(b) => b,
        None => 0,
    }
}

/// Where a run of at most `fuel` steps from `m` ends, reading bytes from
/// `input` and having written `out` so far: the final state, and either the
/// whole output or the reason the run stopped early.
pub open spec fn outcome(
    p: Seq<Instruction>,
    m: Machine,
    input: Seq<u8>,
    out: Seq<u8>,
    fuel: nat,
) -> (Machine, Result<Seq<u8>, ExecutorError>)
    decreases fuel,
{
    if halted(p, m) {
        (m, Ok(out))
    } else if wants_input(p, m) && input.len() == 0 {
        (m, Err(ExecutorError::InputExhausted))
    } else if fuel == 0 {
        (m, Err(ExecutorError::StepLimitReached))
    } else if wants_input(p, m) {
        outcome(p, next(p, m, input[0]), input.drop_first(), out, (fuel - 1) as nat)
    } else {
        outcome(p, next(p, m, 0), input, out + emitted(p, m), (fuel - 1) as nat)
    }
}

/// A compiled program together with the state of one run over it.
#[derive(Debug)]
pub struct Executor {
    instruction_pointer: usize,
    memory_pointer: usize,
    memory: Vec<u8>,
    instructions: Vec<Instruction>,
}

/// The open at `i` has not been closed among the first `k` instructions.
spec fn pending(t: Seq<Instruction>, i: int, k: int) -> bool {
    forall|m: int| i < m <= k ==> #[trigger] depth(t, m) > depth(t, i)
}

/// What the resolution pass knows of the open at `i` after `k` instructions:
/// it is still on the stack at its depth, or it holds its matching close.
spec fn open_done(t: Seq<Instruction>, out: Seq<Instruction>, stack: Seq<usize>, i: int, k: int) -> bool {
    if pending(t, i, k) {
        0 <= depth(t, i) < stack.len() && stack[depth(t, i)] == i
    } else {
        exists|j: int| j < k && matched(t, i, j) && out[i] == Instruction::LeftBracket(j as usize)
    }
}

/// The close at `j` holds its matching open.
spec fn close_done(t: Seq<Instruction>, out: Seq<Instruction>, j: int) -> bool {
    exists|i: int| matched(t, i, j) && out[j] == Instruction::RightBracket(i as usize)
}

impl View for Executor {
    type V = Machine;

    closed spec fn view(&self) -> Machine {
        Machine {
            ip: self.instruction_pointer as int,
            dp: self.memory_pointer as int,
            tape: self.memory@,
        }
    }
}

impl Executor {
    /// The compiled program.
    pub closed spec fn program(&self) -> Seq<Instruction> {
        self.instructions@
    }

    pub open spec fn wf(&self) -> bool {
        &&& self@.tape.len() == MEM_SIZE
        &&& 0 <= self@.dp < MEM_SIZE
        &&& 0 <= self@.ip <= self.program().len()
        &&& targets_in_range(self.program())
    }

    /// Pairs every `[` with its matching `]`, writing into each the index
    /// of the other. Fails, leaving the instructions as they were, where
    /// the brackets do not balance.
    pub fn decorate_functions(instructions: &mut Vec<Instruction>) -> (r: Result<(), CompileError>)
        ensures
            r is Ok <==> balanced(old(instructions)@),
            r is Ok ==> final(instructions)@ == resolve(old(instructions)@),
            r is Ok ==> targets_in_range(final(instructions)@),
            r is Err ==> r == Err::<(), CompileError>(CompileError::UnbalancedBrackets)
                && final(instructions)@ == old(instructions)@,
    {
        let ghost t = instructions@;
        let n = instructions.len();
        let mut d: usize = 0;
        let mut k: usize = 0;
        while k < n
            invariant
                n == t.len(),
                instructions@ == t,
                0 <= k <= n,
                d == depth(t, k as int),
                d <= k,
                forall|m: int| 0 <= m <= k ==> #[trigger] depth(t, m) >= 0,
            decreases n - k,
        {
            proof {
                lemma_depth_step(t, k as int);
            }
            match instructions[k] {
                Instruction::LeftBracket(_) => {
                    d = d + 1;
                },
                Instruction::RightBracket(_) => {
                    if d == 0 {
                        assert(depth(t, k + 1) < 0);
                        return Err(CompileError::UnbalancedBrackets);
                    }
                    d = d - 1;
                },
                _ => {},
            }
            k = k + 1;
        }
        if d != 0 {
            return Err(CompileError::UnbalancedBrackets);
        }
        assert(balanced(t));
        let mut stack: Vec<usize> = Vec::new();
        k = 0;
        while k < n
            invariant
                n == t.len(),
                balanced(t),
                instructions@.len() == n,
                0 <= k <= n,
                stack@.len() == depth(t, k as int),
                forall|a: int|
                    0 <= a < stack@.len() ==> {
                        &&& #[trigger] stack@[a] < k
                        &&& is_open(t[stack@[a] as int])
                        &&& depth(t, stack@[a] as int) == a
                        &&& forall|m: int| stack@[a] < m <= k ==> #[trigger] depth(t, m) > a
                    },
                forall|i: int|
                    0 <= i < k && is_open(#[trigger] t[i]) ==> open_done(
                        t,
                        instructions@,
                        stack@,
                        i,
                        k as int,
                    ),
                forall|j: int| 0 <= j < k && is_close(#[trigger] t[j]) ==> close_done(t, instructions@, j),
                forall|i: int|
                    0 <= i < n && (k <= i || !(is_open(t[i]) || is_close(t[i])))
                        ==> #[trigger] instructions@[i] == t[i],
            decreases n - k,
        {
            proof {
                lemma_depth_step(t, k as int);
            }
            let ghost prev = instructions@;
            let ghost prev_stack = stack@;
            match instructions[k] {
                Instruction::LeftBracket(_) => {
                    stack.push(k);
                    proof {
                        assert forall|i: int|
                            0 <= i < k + 1 && is_open(#[trigger] t[i]) implies open_done(
                            t,
                            instructions@,
                            stack@,
                            i,
                            k + 1,
                        ) by {
                            if i < k {
                                if pending(t, i, k as int) {
                                    assert(depth(t, k as int) > depth(t, i));
                                    assert(pending(t, i, k + 1));
                                } else {
                                    assert(!pending(t, i, k + 1));
                                }
                            } else {
                                assert(pending(t, i, k + 1));
                            }
                        }
                    }
                },
                Instruction::RightBracket(_) => {
                    assert(depth(t, k + 1) >= 0);
                    let top = match stack.pop() {
                        Some(x) => x,
                        None => {
                            proof {
                                assert(false);
                            }
                            0
                        },
                    };
                    proof {
                        let a = prev_stack.len() - 1;
                        assert(prev_stack[a] == top);
                        assert(matched(t, top as int, k as int));
                    }
                    instructions[top] = Instruction::LeftBracket(k);
                    instructions[k] = Instruction::RightBracket(top);
                    proof {
                        assert(matched(t, top as int, k as int));
                        assert(close_done(t, instructions@, k as int));
                        assert forall|j: int|
                            0 <= j < k + 1 && is_close(#[trigger] t[j]) implies close_done(
                            t,
                            instructions@,
                            j,
                        ) by {
                            if j < k {
                                assert(close_done(t, prev, j));
                                let i = choose|i: int|
                                    matched(t, i, j) && prev[j] == Instruction::RightBracket(
                                        i as usize,
                                    );
                                assert(instructions@[j] == prev[j]);
                                assert(matched(t, i, j) && instructions@[j]
                                    == Instruction::RightBracket(i as usize));
                            }
                        }
                        assert forall|i: int|
                            0 <= i < k + 1 && is_open(#[trigger] t[i]) implies open_done(
                            t,
                            instructions@,
                            stack@,
                            i,
                            k + 1,
                        ) by {
                            assert(open_done(t, prev, prev_stack, i, k as int));
                            if pending(t, i, k as int) {
                                if i == top {
                                    assert(!pending(t, i, k + 1));
                                    assert(matched(t, i, k as int));
                                } else {
                                    assert(depth(t, i) < prev_stack.len() - 1);
                                    assert(pending(t, i, k + 1));
                                    assert(stack@[depth(t, i)] == prev_stack[depth(t, i)]);
                                }
                            } else {
                                assert(!pending(t, i, k + 1));
                                let j = choose|j: int|
                                    j < k && matched(t, i, j) && prev[i]
                                        == Instruction::LeftBracket(j as usize);
                                assert(i != top);
                                assert(instructions@[i] == prev[i]);
                                assert(j < k + 1 && matched(t, i, j) && instructions@[i]
                                    == Instruction::LeftBracket(j as usize));
                            }
                        }
                    }
                },
                _ => {},
            }
            k = k + 1;
        }
        proof {
            assert forall|i: int| 0 <= i < n implies #[trigger] instructions@[i] == resolve(t)[i] by {
                if is_open(t[i]) {
                    assert(open_done(t, instructions@, stack@, i, n as int));
                    assert(depth(t, i) >= 0);
                    let j = choose|j: int|
                        j < n && matched(t, i, j) && instructions@[i] == Instruction::LeftBracket(
                            j as usize,
                        );
                    lemma_resolve_pair(t, i, j);
                    assert(j < n);
                } else if is_close(t[i]) {
                    assert(close_done(t, instructions@, i));
                    let o = choose|o: int|
                        matched(t, o, i) && instructions@[i] == Instruction::RightBracket(
                            o as usize,
                        );
                    lemma_resolve_pair(t, o, i);
                    assert(o < n);
                }
            }
            assert(targets_in_range(instructions@));
            assert(instructions@ =~= resolve(t));
        }
        Ok(())
    }

    /// Compiles `source` and sets up a fresh run over it: instruction and
    /// data pointers at zero, every cell zero.
    pub fn from_bytes(source: &[u8]) -> (r: Result<Executor, CompileError>)
        ensures
            match r {
                Ok(e) => compile_spec(source@) == Ok::<Seq<Instruction>, CompileError>(e.program())
                    && e@ == initial_machine() && e.wf(),
                Err(err) => compile_spec(source@) == Err::<Seq<Instruction>, CompileError>(err),
            },
    {
        let ghost s = source@;
        let mut instructions: Vec<Instruction> = Vec::new();
        let mut i: usize = 0;
        while i < source.len()
            invariant
                i <= s.len(),
                s == source@,
                forall|k: int| 0 <= k < i ==> is_symbol(#[trigger] s[k]),
                instructions@ + tokens_from(s, i as int) == tokens(s),
            decreases s.len() - i,
        {
            match Instruction::parse(source, i) {
                None => {
                    assert(!all_symbols(s));
                    return Err(CompileError::UnexpectedSymbol);
                },
                Some((ins, end)) => {
                    let ghost before = instructions@;
                    assert(tokens_from(s, i as int) == seq![ins] + tokens_from(s, end as int));
                    instructions.push(ins);
                    assert(instructions@ + tokens_from(s, end as int) =~= before + (seq![ins]
                        + tokens_from(s, end as int)));
                    i = end;
                },
            }
        }
        assert(instructions@ =~= tokens(s));
        assert(all_symbols(s));
        match Self::decorate_functions(&mut instructions) {
            Err(e) => {
                return Err(e);
            },
            Ok(()) => {},
        }
        let mut memory: Vec<u8> = Vec::new();
        let mut k: usize = 0;
        while k < MEM_SIZE
            invariant
                k <= MEM_SIZE,
                memory@.len() == k,
                forall|j: int| 0 <= j < k ==> memory@[j] == 0,
            decreases MEM_SIZE - k,
        {
            memory.push(0);
            k = k + 1;
        }
        let e = Executor { instruction_pointer: 0, memory_pointer: 0, memory, instructions };
        assert(e@.tape =~= initial_machine().tape);
        Ok(e)
    }

    /// Executes one instruction. `input` is the byte that an input
    /// instruction reads; other instructions ignore it. Returns the byte
    /// that an output instruction writes. Once the program has halted this
    /// does nothing.
    pub fn step(&mut self, input: Option<u8>) -> (r: Result<Option<u8>, ExecutorError>)
        requires
            old(self).wf(),
        ensures
            final(self).wf(),
            final(self).program() == old(self).program(),
            halted(old(self).program(), old(self)@) ==> r == Ok::<Option<u8>, ExecutorError>(None)
                && final(self)@ == old(self)@,
            wants_input(old(self).program(), old(self)@) && input is None ==> r == Err::<
                Option<u8>,
                ExecutorError,
            >(ExecutorError::InputExhausted) && final(self)@ == old(self)@,
            !halted(old(self).program(), old(self)@) && !(wants_input(
                old(self).program(),
                old(self)@,
            ) && input is None) ==> {
                &&& final(self)@ == next(old(self).program(), old(self)@, input_byte(input))
                &&& r is Ok
                &&& match r {
                    Ok(Some(b)) => emitted(old(self).program(), old(self)@) == seq![b],
                    _ => emitted(old(self).program(), old(self)@) == Seq::<u8>::empty(),
                }
            },
    {
        let ip = self.instruction_pointer;
        if ip >= self.instructions.len() {
            return Ok(None);
        }
        let dp = self.memory_pointer;
        let cell = self.memory[dp];
        match self.instructions[ip] {
            Instruction::Left(n) => {
                let r = n % MEM_SIZE;
                proof {
                    lemma_sub_mod_noop_right(dp as int, n as int, MEM_SIZE as int);
                    lemma_mod_multiples_vanish(1, dp - r, MEM_SIZE as int);
                }
                self.memory_pointer = (dp + MEM_SIZE - r) % MEM_SIZE;
            },
            Instruction::Right(n) => {
                proof {
                    lemma_add_mod_noop_right(dp as int, n as int, MEM_SIZE as int);
                }
                self.memory_pointer = (dp + n % MEM_SIZE) % MEM_SIZE;
            },
            Instruction::Add(a) => {
                self.memory[dp] = cell.wrapping_add(a);
            },
            Instruction::Sub(a) => {
                self.memory[dp] = cell.wrapping_sub(a);
            },
            Instruction::Output => {
                self.instruction_pointer = ip + 1;
                return Ok(Some(cell));
            },
            Instruction::Input => {
                match input {
                    Some(b) => {
                        self.memory[dp] = b;
                    },
                    None => {
                        return Err(ExecutorError::InputExhausted);
                    },
                }
            },
            Instruction::LeftBracket(target) => {
                if cell == 0 {
                    self.instruction_pointer = target + 1;
                    return Ok(None);
                }
            },
            Instruction::RightBracket(target) => {
                if cell != 0 {
                    self.instruction_pointer = target;
                    return Ok(None);
                }
            },
        }
        self.instruction_pointer = ip + 1;
        Ok(None)
    }

    /// Runs for at most `step_limit` steps, reading input bytes from `input`
    /// in order, and returns the whole output once the program halts. Output
    /// is handed back only on a halt: a run that stops early returns the
    /// reason and no output.
    pub fn run(&mut self, input: &[u8], step_limit: usize) -> (r: Result<Vec<u8>, ExecutorError>)
        requires
            old(self).wf(),
        ensures
            final(self).wf(),
            final(self).program() == old(self).program(),
            ({
                let (m, res) = outcome(
                    old(self).program(),
                    old(self)@,
                    input@,
                    Seq::empty(),
                    step_limit as nat,
                );
                &&& final(self)@ == m
                &&& match r {
                    Ok(v) => res == Ok::<Seq<u8>, ExecutorError>(v@),
                    Err(e) => res == Err::<Seq<u8>, ExecutorError>(e),
                }
            }),
    {
        let ghost p = self.program();
        let ghost goal = outcome(p, self@, input@, Seq::empty(), step_limit as nat);
        let mut output: Vec<u8> = Vec::new();
        let mut pos: usize = 0;
        let mut steps: usize = 0;
        assert(input@.subrange(0, input@.len() as int) =~= input@);
        loop
            invariant
                self.wf(),
                self.program() == p,
                p == old(self).program(),
                goal == outcome(p, old(self)@, input@, Seq::empty(), step_limit as nat),
                pos <= input@.len(),
                steps <= step_limit,
                outcome(
                    p,
                    self@,
                    input@.subrange(pos as int, input@.len() as int),
                    output@,
                    (step_limit - steps) as nat,
                ) == goal,
            decreases step_limit - steps,
        {
            let ghost rest = input@.subrange(pos as int, input@.len() as int);
            if self.instruction_pointer >= self.instructions.len() {
                return Ok(output);
            }
            let reads = matches!(self.instructions[self.instruction_pointer], Instruction::Input);
            if reads && pos >= input.len() {
                return Err(ExecutorError::InputExhausted);
            }
            if steps >= step_limit {
                return Err(ExecutorError::StepLimitReached);
            }
            let byte: Option<u8> = if reads {
                Some(input[pos])
            } else {
                None
            };
            let ghost before = output@;
            let ghost prev = self@;
            match self.step(byte) {
                Ok(Some(b)) => {
                    output.push(b);
                },
                Ok(None) => {},
                Err(e) => {
                    return Err(e);
                },
            }
            if reads {
                assert(rest.drop_first() =~= input@.subrange(pos + 1, input@.len() as int));
                pos = pos + 1;
            } else {
                assert(output@ =~= before + emitted(p, prev));
            }
            steps = steps + 1;
        }
    }

    /// Whether the instruction pointer has left the program.
    pub fn is_halted(&self) -> (r: bool)
        ensures
            r == halted(self.program(), self@),
    {
        self.instruction_pointer >= self.instructions.len()
    }

    /// Whether the next instruction reads a byte of input.
    pub fn needs_input(&self) -> (r: bool)
        ensures
            r == wants_input(self.program(), self@),
    {
        self.instruction_pointer < self.instructions.len() && matches!(
            self.instructions[self.instruction_pointer],
            Instruction::Input
        )
    }

    /// The compiled program.
    pub fn instructions(&self) -> (r: &[Instruction])
        ensures
            r@ == self.program(),
    {
        self.instructions.as_slice()
    }

    pub fn instruction_pointer(&self) -> (r: usize)
        ensures
            r == self@.ip,
    {
        self.instruction_pointer
    }

    pub fn data_pointer(&self) -> (r: usize)
        ensures
            r == self@.dp,
    {
        self.memory_pointer
    }

    /// The byte held by cell `index` of the tape.
    pub fn cell(&self, index: usize) -> (r: u8)
        requires
            self.wf(),
            index < MEM_SIZE,
        ensures
            r == self@.tape[index as int],
    {
        self.memory[index]
    }
}

} // verus!
