//! The machine: a fixed-size circular byte tape, a cursor, and the
//! fetch-decode-execute loop over a resolved program.

use vstd::prelude::*;

use crate::program::balanced;
use crate::program::instr_chars;
use crate::program::is_match;
use crate::program::parse;
use crate::program::prog_wf;
use crate::program::spec_parse;
use crate::program::Instruction;

verus! {

/// Number of cells on the tape.
pub const TAPE_LEN: usize = 30000;

/// The cursor one cell to the right, wrapping at the top boundary.
pub open spec fn right_of(cursor: nat) -> nat {
    if cursor + 1 == TAPE_LEN {
        0
    } else {
        cursor + 1
    }
}

/// The cursor one cell to the left, wrapping at the bottom boundary.
pub open spec fn left_of(cursor: nat) -> nat {
    if cursor == 0 {
        (TAPE_LEN - 1) as nat
    } else {
        (cursor - 1) as nat
    }
}

/// A cell incremented by one, wrapping at the top of the byte range.
pub open spec fn inc_cell(b: u8) -> u8 {
    if b == 255 {
        0
    } else {
        (b + 1) as u8
    }
}

/// A cell decremented by one, wrapping at the bottom of the byte range.
pub open spec fn dec_cell(b: u8) -> u8 {
    if b == 0 {
        255
    } else {
        (b - 1) as u8
    }
}

/// The byte that an input character stores into a cell: its code point,
/// truncated to eight bits.
pub open spec fn input_byte(c: char) -> u8 {
    c as u8
}

/// The character that a cell value sends to the output: the code point equal
/// to the value, which is defined for every byte.
pub open spec fn output_char(b: u8) -> char {
    b as char
}

/// The whole state of one execution: program counter, cursor, tape, how much
/// of the input is consumed, and the output gathered so far.
pub struct MachineState {
    pub pc: nat,
    pub cursor: nat,
    pub tape: Seq<u8>,
    pub in_pos: nat,
    pub output: Seq<char>,
}

/// The state every execution starts from: everything at zero, the tape blank.
pub open spec fn init_state() -> MachineState {
    MachineState {
        pc: 0,
        cursor: 0,
        tape: Seq::new(TAPE_LEN as nat, |i: int| 0u8),
        in_pos: 0,
        output: Seq::empty(),
    }
}

/// Execution is over: the program counter ran past the end of the program.
pub open spec fn halted(prog: Seq<Instruction>, s: MachineState) -> bool {
    s.pc >= prog.len()
}

/// One tick of the fetch-decode-execute loop. A taken jump lands one past the
/// target bracket; every other instruction advances the program counter by
/// one. An `Input` reached after the input is exhausted stores the zero
/// sentinel and leaves the input position alone.
pub open spec fn step(prog: Seq<Instruction>, input: Seq<char>, s: MachineState) -> MachineState
    recommends
        s.pc < prog.len(),
{
    let cell = s.tape[s.cursor as int];
    match prog[s.pc as int] {
        Instruction::MoveRight => MachineState { pc: s.pc + 1, cursor: right_of(s.cursor), ..s },
        Instruction::MoveLeft => MachineState { pc: s.pc + 1, cursor: left_of(s.cursor), ..s },
        Instruction::Increment => MachineState {
            pc: s.pc + 1,
            tape: s.tape.update(s.cursor as int, inc_cell(cell)),
            ..s
        },
        Instruction::Decrement => MachineState {
            pc: s.pc + 1,
            tape: s.tape.update(s.cursor as int, dec_cell(cell)),
            ..s
        },
        Instruction::Output => MachineState {
            pc: s.pc + 1,
            output: s.output.push(output_char(cell)),
            ..s
        },
        Instruction::Input => if s.in_pos < input.len() {
            MachineState {
                pc: s.pc + 1,
                tape: s.tape.update(s.cursor as int, input_byte(input[s.in_pos as int])),
                in_pos: s.in_pos + 1,
                ..s
            }
        } else {
            MachineState { pc: s.pc + 1, tape: s.tape.update(s.cursor as int, 0u8), ..s }
        },
        Instruction::Open(t) => MachineState {
            pc: if cell == 0 {
                (t + 1) as nat
            } else {
                s.pc + 1
            },
            ..s
        },
        Instruction::Close(t) => MachineState {
            pc: if cell != 0 {
                (t + 1) as nat
            } else {
                s.pc + 1
            },
            ..s
        },
    }
}

/// The state after `n` ticks from `s`; a halted state absorbs further ticks.
pub open spec fn run_steps(
    prog: Seq<Instruction>,
    input: Seq<char>,
    s: MachineState,
    n: nat,
) -> MachineState
    decreases n,
{
    if n == 0 {
        s
    } else {
        let prev = run_steps(prog, input, s, (n - 1) as nat);
        if prev.pc < prog.len() {
            step(prog, input, prev)
        } else {
            prev
        }
    }
}

/// The resolved program of a source text.
pub open spec fn program_of(source: Seq<char>) -> Seq<Instruction> {
    spec_parse(instr_chars(source))
}

/// The state `n` ticks into the execution of a source text on an input.
pub open spec fn state_after(source: Seq<char>, input: Seq<char>, n: nat) -> MachineState {
    run_steps(program_of(source), input, init_state(), n)
}

/// After `n` ticks the program has halted with exactly this output.
pub open spec fn halts_with(
    prog: Seq<Instruction>,
    input: Seq<char>,
    n: nat,
    output: Seq<char>,
) -> bool {
    &&& halted(prog, run_steps(prog, input, init_state(), n))
    &&& output == run_steps(prog, input, init_state(), n).output
}

/// Running the source text on the input halts and produces exactly this
/// output.
pub open spec fn interprets(source: Seq<char>, input: Seq<char>, output: Seq<char>) -> bool {
    exists|n: nat| halts_with(program_of(source), input, n, output)
}

/// Running the source text on the input eventually halts.
pub open spec fn halts(source: Seq<char>, input: Seq<char>) -> bool {
    exists|n: nat| halted(program_of(source), #[trigger] state_after(source, input, n))
}

/// Ticks compose: running `m + n` ticks is running `n` ticks from the state
/// `m` ticks in.
pub proof fn lemma_run_steps_add(
    prog: Seq<Instruction>,
    input: Seq<char>,
    s: MachineState,
    m: nat,
    n: nat,
)
    ensures
        run_steps(prog, input, s, m + n) == run_steps(prog, input, run_steps(prog, input, s, m), n),
    decreases n,
{
    if n > 0 {
        lemma_run_steps_add(prog, input, s, m, (n - 1) as nat);
    }
}

/// A halted state never changes again, however many more ticks pass.
pub proof fn lemma_halted_stable(
    prog: Seq<Instruction>,
    input: Seq<char>,
    s: MachineState,
    m: nat,
    n: nat,
)
    requires
        m <= n,
        halted(prog, run_steps(prog, input, s, m)),
    ensures
        run_steps(prog, input, s, n) == run_steps(prog, input, s, m),
    decreases n,
{
    if n > m {
        lemma_halted_stable(prog, input, s, m, (n - 1) as nat);
    }
}

/// Law: the machine is deterministic — for one pair of source and input,
/// every halting run yields the same output.
pub proof fn lemma_interpreter_deterministic(
    source: Seq<char>,
    input: Seq<char>,
    out1: Seq<char>,
    out2: Seq<char>,
)
    requires
        interprets(source, input, out1),
        interprets(source, input, out2),
    ensures
        out1 == out2,
{
    let prog = program_of(source);
    let n1 = choose|n: nat| halts_with(prog, input, n, out1);
    let n2 = choose|n: nat| halts_with(prog, input, n, out2);
    if n1 <= n2 {
        lemma_halted_stable(prog, input, init_state(), n1, n2);
    } else {
        lemma_halted_stable(prog, input, init_state(), n2, n1);
    }
}

/// Law: characters that are not instructions have no effect — two source
/// texts with the same instruction characters produce the same outputs.
pub proof fn lemma_comments_ignored(
    source1: Seq<char>,
    source2: Seq<char>,
    input: Seq<char>,
    output: Seq<char>,
)
    requires
        instr_chars(source1) == instr_chars(source2),
    ensures
        interprets(source1, input, output) <==> interprets(source2, input, output),
{
    assert(program_of(source1) == program_of(source2));
    if interprets(source1, input, output) {
        let n = choose|n: nat| halts_with(program_of(source1), input, n, output);
        assert(halts_with(program_of(source2), input, n, output));
    }
    if interprets(source2, input, output) {
        let n = choose|n: nat| halts_with(program_of(source2), input, n, output);
        assert(halts_with(program_of(source1), input, n, output));
    }
}

/// A cell after `n` increments.
pub open spec fn iter_inc(b: u8, n: nat) -> u8
    decreases n,
{
    if n == 0 {
        b
    } else {
        inc_cell(iter_inc(b, (n - 1) as nat))
    }
}

proof fn lemma_iter_inc_mod(b: u8, n: nat)
    ensures
        iter_inc(b, n) == ((b + n) % 256) as u8,
    decreases n,
{
    if n == 0 {
        vstd::arithmetic::div_mod::lemma_small_mod(b as nat, 256);
    } else {
        lemma_iter_inc_mod(b, (n - 1) as nat);
        vstd::arithmetic::div_mod::lemma_add_mod_noop(b + n - 1, 1, 256);
        vstd::arithmetic::div_mod::lemma_small_mod(1nat, 256);
        vstd::arithmetic::div_mod::lemma_mod_bound(b + n - 1, 256);
    }
}

/// Law: cell arithmetic wraps instead of failing — decrementing a zero cell
/// yields 255, increment and decrement undo one another, and 256 increments
/// return a cell to its starting value.
pub proof fn lemma_cell_wraparound()
    ensures
        dec_cell(0) == 255u8,
        forall|b: u8| #[trigger] dec_cell(inc_cell(b)) == b,
        forall|b: u8| #[trigger] inc_cell(dec_cell(b)) == b,
        forall|b: u8| #[trigger] iter_inc(b, 256) == b,
{
    assert forall|b: u8| #[trigger] iter_inc(b, 256) == b by {
        lemma_iter_inc_mod(b, 256);
        vstd::arithmetic::div_mod::lemma_mod_add_multiples_vanish(b as int, 256);
        vstd::arithmetic::div_mod::lemma_small_mod(b as nat, 256);
    }
}

/// The three-instruction program that clears the tested cell: `[-]`.
pub open spec fn clear_program() -> Seq<Instruction> {
    seq![Instruction::Open(2), Instruction::Decrement, Instruction::Close(0)]
}

/// How many ticks the clear loop takes on a cell holding `v`: one tick for
/// the opening test, and two more for every pass through the loop body.
pub open spec fn clear_steps(v: u8) -> nat {
    (2 * v + 1) as nat
}

proof fn lemma_clear_loop_body(input: Seq<char>, t: MachineState, v: u8)
    requires
        t.pc == 1,
        t.cursor < t.tape.len(),
        t.tape[t.cursor as int] == v,
        v >= 1,
    ensures
        ({
            let fin = run_steps(clear_program(), input, t, (2 * v) as nat);
            &&& fin.pc == 3
            &&& fin.tape == t.tape.update(t.cursor as int, 0u8)
            &&& fin.cursor == t.cursor
            &&& fin.in_pos == t.in_pos
            &&& fin.output == t.output
        }),
        forall|m: nat|
            m < 2 * v ==> (#[trigger] run_steps(clear_program(), input, t, m)).pc < 3,
    decreases v,
{
    let prog = clear_program();
    let t1 = step(prog, input, t);
    let t2 = step(prog, input, t1);
    assert(run_steps(prog, input, t, 0) == t);
    assert(run_steps(prog, input, t, 1) == t1);
    assert(run_steps(prog, input, t, 2) == t2);
    if v == 1 {
        assert(t2.tape =~= t.tape.update(t.cursor as int, 0u8));
    } else {
        lemma_clear_loop_body(input, t2, (v - 1) as u8);
        lemma_run_steps_add(prog, input, t, 2, (2 * (v - 1)) as nat);
        assert(t.tape.update(t.cursor as int, dec_cell(v)).update(t.cursor as int, 0u8)
            =~= t.tape.update(t.cursor as int, 0u8));
        assert forall|m: nat|
            m < 2 * v implies (#[trigger] run_steps(prog, input, t, m)).pc < 3 by {
            if m >= 2 {
                lemma_run_steps_add(prog, input, t, 2, (m - 2) as nat);
            }
        }
    }
}

/// Law: the clear loop `[-]` halts with the tested cell at zero, leaves the
/// cursor, the input position, the output and every other cell alone, and
/// takes exactly one pass through its body per unit of the cell's starting
/// value — it is halted after `clear_steps` ticks and at no tick before.
pub proof fn lemma_clear_loop(input: Seq<char>, s: MachineState, v: u8)
    requires
        s.pc == 0,
        s.cursor < s.tape.len(),
        s.tape[s.cursor as int] == v,
    ensures
        ({
            let fin = run_steps(clear_program(), input, s, clear_steps(v));
            &&& halted(clear_program(), fin)
            &&& fin.tape == s.tape.update(s.cursor as int, 0u8)
            &&& fin.cursor == s.cursor
            &&& fin.in_pos == s.in_pos
            &&& fin.output == s.output
        }),
        forall|m: nat|
            m < clear_steps(v) ==> !halted(
                clear_program(),
                #[trigger] run_steps(clear_program(), input, s, m),
            ),
{
    let prog = clear_program();
    let s1 = step(prog, input, s);
    assert(run_steps(prog, input, s, 0) == s);
    assert(run_steps(prog, input, s, 1) == s1);
    if v == 0 {
        assert(s.tape.update(s.cursor as int, 0u8) =~= s.tape);
    } else {
        lemma_clear_loop_body(input, s1, v);
        lemma_run_steps_add(prog, input, s, 1, (2 * v) as nat);
        assert forall|m: nat|
            m < clear_steps(v) implies !halted(
            prog,
            #[trigger] run_steps(prog, input, s, m),
        ) by {
            if m >= 1 {
                lemma_run_steps_add(prog, input, s, 1, (m - 1) as nat);
            }
        }
    }
}

/// Law: the tape is circular — a move in one direction undoes a move in the
/// other, and the moves wrap at both boundaries.
pub proof fn lemma_tape_wraparound()
    ensures
        forall|c: nat| c < TAPE_LEN ==> left_of(#[trigger] right_of(c)) == c,
        forall|c: nat| c < TAPE_LEN ==> right_of(#[trigger] left_of(c)) == c,
        left_of(0) == (TAPE_LEN - 1) as nat,
        right_of((TAPE_LEN - 1) as nat) == 0,
{
}

/// Every jump target lands inside the program (or on its very end).
pub open spec fn targets_in_range(prog: Seq<Instruction>) -> bool {
    forall|i: int|
        0 <= i < prog.len() ==> match #[trigger] prog[i] {
            Instruction::Open(t) => t < prog.len(),
            Instruction::Close(t) => t < prog.len(),
            _ => true,
        }
}

/// A well-formed program keeps its jump targets inside itself.
proof fn lemma_wf_targets_in_range(ops: Seq<char>, prog: Seq<Instruction>)
    requires
        prog_wf(ops, prog),
    ensures
        targets_in_range(prog),
{
    assert forall|i: int| 0 <= i < prog.len() implies match #[trigger] prog[i] {
        Instruction::Open(t) => t < prog.len(),
        Instruction::Close(t) => t < prog.len(),
        _ => true,
    } by {
        match prog[i] {
            Instruction::Open(t) => assert(is_match(ops, i, t as int)),
            Instruction::Close(t) => assert(is_match(ops, t as int, i)),
            _ => (),
        }
    }
}

/// Relies on `String::push`: appends one character to the end of the string.
#[verifier::external_body]
fn push_char(s: &mut String, c: char)
    ensures
        final(s)@ == old(s)@.push(c),
{
    s.push(c);
}

/// The executable state of one running execution: the exact counterpart of
/// the abstract `MachineState`.
pub struct Machine {
    pub pc: usize,
    pub cursor: usize,
    pub tape: Vec<u8>,
    pub in_pos: usize,
    pub output: String,
}

impl View for Machine {
    type V = MachineState;

    open spec fn view(&self) -> MachineState {
        MachineState {
            pc: self.pc as nat,
            cursor: self.cursor as nat,
            tape: self.tape@,
            in_pos: self.in_pos as nat,
            output: self.output@,
        }
    }
}

impl Machine {
    /// The tape has its fixed length and the cursor stays on it.
    pub open spec fn wf(&self) -> bool {
        &&& self.tape@.len() == TAPE_LEN
        &&& self.cursor < TAPE_LEN
    }

    /// A fresh machine: everything at zero, the tape blank.
    pub fn new() -> (m: Machine)
        ensures
            m@ == init_state(),
            m.wf(),
    {
        let mut tape: Vec<u8> = Vec::new();
        let mut t: usize = 0;
        while t < TAPE_LEN
            invariant
                t <= TAPE_LEN,
                tape@.len() == t,
                forall|k: int| 0 <= k < t ==> tape@[k] == 0u8,
            decreases TAPE_LEN - t,
        {
            tape.push(0);
            t += 1;
        }
        proof {
            assert(tape@ =~= init_state().tape);
        }
        Machine { pc: 0, cursor: 0, tape, in_pos: 0, output: String::new() }
    }

    /// One tick of the fetch-decode-execute loop, exactly as `step` says.
    fn step_once(&mut self, instructions: &Vec<Instruction>, input: &str, input_len: usize)
        requires
            old(self).wf(),
            old(self).pc < instructions.len(),
            targets_in_range(instructions@),
            input_len == input@.len(),
            old(self).in_pos <= input_len,
        ensures
            final(self)@ == step(instructions@, input@, old(self)@),
            final(self).wf(),
            final(self).in_pos <= input_len,
    {
        let instr = instructions[self.pc];
        match instr {
            Instruction::MoveRight => {
                if self.cursor + 1 == TAPE_LEN {
                    self.cursor = 0;
                } else {
                    self.cursor = self.cursor + 1;
                }
                self.pc = self.pc + 1;
            },
            Instruction::MoveLeft => {
                if self.cursor == 0 {
                    self.cursor = TAPE_LEN - 1;
                } else {
                    self.cursor = self.cursor - 1;
                }
                self.pc = self.pc + 1;
            },
            Instruction::Increment => {
                let b = self.tape[self.cursor];
                let nb: u8 = if b == 255 {
                    0
                } else {
                    b + 1
                };
                self.tape.set(self.cursor, nb);
                self.pc = self.pc + 1;
            },
            Instruction::Decrement => {
                let b = self.tape[self.cursor];
                let nb: u8 = if b == 0 {
                    255
                } else {
                    b - 1
                };
                self.tape.set(self.cursor, nb);
                self.pc = self.pc + 1;
            },
            Instruction::Output => {
                let b = self.tape[self.cursor];
                push_char(&mut self.output, b as char);
                self.pc = self.pc + 1;
            },
            Instruction::Input => {
                let b: u8;
                if self.in_pos < input_len {
                    let c = input.get_char(self.in_pos);
                    b = #[verifier::truncate] (c as u8);
                    self.in_pos = self.in_pos + 1;
                } else {
                    b = 0;
                }
                self.tape.set(self.cursor, b);
                self.pc = self.pc + 1;
            },
            Instruction::Open(target) => {
                if self.tape[self.cursor] == 0 {
                    self.pc = target + 1;
                } else {
                    self.pc = self.pc + 1;
                }
            },
            Instruction::Close(target) => {
                if self.tape[self.cursor] != 0 {
                    self.pc = target + 1;
                } else {
                    self.pc = self.pc + 1;
                }
            },
        }
    }
}

/// Run a source text against an input and return everything it outputs. The
/// source must have properly nesting brackets (`parse` tells a caller whether
/// it does). The contract also asks that the run halt, since no termination
/// measure exists for a loop that may run forever; the compiled loop itself
/// is the plain fetch-decode-execute loop, which on a never-halting program
/// simply keeps running, as the language allows. `run_limited` puts a ceiling
/// on the number of ticks instead.
pub fn run(source: &str, input: &str) -> (output: String)
    requires
        balanced(instr_chars(source@)),
        halts(source@, input@),
    ensures
        interprets(source@, input@, output@),
{
    let instructions = match parse(source) {
        Ok(p) => p,
        Err(_) => {
            proof {
                assert(false);
            }
            Vec::new()
        },
    };
    proof {
        lemma_wf_targets_in_range(instr_chars(source@), instructions@);
    }
    let input_len = input.unicode_len();
    let mut m = Machine::new();
    let ghost prog = instructions@;
    let ghost cap = choose|k: nat| halted(program_of(source@), state_after(source@, input@, k));
    let ghost mut n: nat = 0;
    while m.pc < instructions.len()
        invariant
            prog == program_of(source@),
            instructions@ == prog,
            targets_in_range(prog),
            input_len == input@.len(),
            m.wf(),
            m.in_pos <= input_len,
            m@ == run_steps(prog, input@, init_state(), n),
            halted(prog, run_steps(prog, input@, init_state(), cap)),
        decreases cap - n,
    {
        proof {
            if n >= cap {
                lemma_halted_stable(prog, input@, init_state(), cap, n);
            }
        }
        m.step_once(&instructions, input, input_len);
        proof {
            n = n + 1;
        }
    }
    proof {
        assert(halts_with(program_of(source@), input@, n, m.output@));
    }
    m.output
}

/// Run a source text against an input for at most `max_steps` ticks: the
/// output if the program halts within the ceiling, and `None` if it is still
/// running when the ceiling is reached.
pub fn run_limited(source: &str, input: &str, max_steps: usize) -> (result: Option<String>)
    requires
        balanced(instr_chars(source@)),
    ensures
        match result {
            Some(output) => {
                &&& halted(program_of(source@), state_after(source@, input@, max_steps as nat))
                &&& output@ == state_after(source@, input@, max_steps as nat).output
            },
            None => !halted(program_of(source@), state_after(source@, input@, max_steps as nat)),
        },
{
    let instructions = match parse(source) {
        Ok(p) => p,
        Err(_) => {
            proof {
                assert(false);
            }
            Vec::new()
        },
    };
    proof {
        lemma_wf_targets_in_range(instr_chars(source@), instructions@);
    }
    let input_len = input.unicode_len();
    let mut m = Machine::new();
    let ghost prog = instructions@;
    let mut steps: usize = 0;
    while steps < max_steps && m.pc < instructions.len()
        invariant
            prog == program_of(source@),
            instructions@ == prog,
            targets_in_range(prog),
            input_len == input@.len(),
            m.wf(),
            m.in_pos <= input_len,
            steps <= max_steps,
            m@ == run_steps(prog, input@, init_state(), steps as nat),
        decreases max_steps - steps,
    {
        m.step_once(&instructions, input, input_len);
        steps += 1;
    }
    if m.pc < instructions.len() {
        None
    } else {
        proof {
            lemma_halted_stable(prog, input@, init_state(), steps as nat, max_steps as nat);
        }
        Some(m.output)
    }
}

} // verus!
