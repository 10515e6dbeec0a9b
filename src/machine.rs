//! The execution engine: tape, data pointer and program counter, advanced one
//! opcode at a time.
use vstd::prelude::*;
use vstd::arithmetic::div_mod::{
    lemma_add_mod_noop_right,
    lemma_sub_mod_noop_right,
    lemma_mod_add_multiples_vanish,
    lemma_small_mod,
};
use crate::opcode::{Instr, Error, is_unit_step, is_open, is_close};
use crate::lexer::{lex, lex_spec};
use crate::condenser::{condense, condense_spec, with_count};
use crate::resolver::{check_brackets, paired, resolve_result, result_view};

verus! {

/// The tape length to use when none is given.
pub const DEFAULT_TAPE_LENGTH: usize = 30000;

/// What a pointer move does at the ends of the tape.
#[derive(Clone, Copy, Debug, PartialEq, Eq, Structural)]
pub enum PointerPolicy {
    /// The pointer wraps around, modulo the tape length.
    Wrap,
    /// Leaving the tape is a fatal `TapeBoundsExceeded` error.
    Checked,
}

/// What one step of the machine did, or is waiting for.
#[derive(Clone, Copy, Debug, PartialEq, Eq, Structural)]
pub enum Step {
    /// An opcode ran that neither reads nor writes.
    Continued,
    /// An output opcode ran and wrote this byte.
    Wrote(u8),
    /// The next opcode reads a byte: hand it over with `feed_input`.
    NeedsInput,
    /// The program counter is past the last opcode.
    Halted,
}

/// How a bounded run ended.
#[derive(Clone, Copy, Debug, PartialEq, Eq, Structural)]
pub enum RunStatus {
    /// The program counter went past the last opcode.
    Halted,
    /// The allowed number of steps ran out first.
    OutOfSteps,
    /// The run stopped on this error.
    Failed(Error),
}

/// The result of a run against an in-memory input: how it ended, the bytes it
/// wrote, and how many input bytes it read.
#[derive(Debug)]
pub struct Run {
    pub status: RunStatus,
    pub output: Vec<u8>,
    pub consumed: usize,
}

/// The machine's state as mathematics.
pub struct MachineView {
    pub program: Seq<Instr>,
    pub tape: Seq<u8>,
    pub pointer: int,
    pub pc: int,
    pub policy: PointerPolicy,
}

/// A cell plus `n`, modulo 256.
pub open spec fn cell_add(c: u8, n: int) -> u8 {
    ((c as int + n) % 256) as u8
}

/// Every jump target of `program` is an index into it.
pub open spec fn targets_in_range(program: Seq<Instr>) -> bool {
    forall|k: int|
        0 <= k < program.len() ==> match #[trigger] program[k] {
            Instr::JumpForward(t) => t < program.len(),
            Instr::JumpBackward(t) => t < program.len(),
            _ => true,
        }
}

impl MachineView {
    /// What every machine keeps: a tape of at least one cell with the pointer
    /// on it, a program counter at most one past the program, and jumps that
    /// stay inside the program.
    pub open spec fn wf(self) -> bool {
        &&& self.tape.len() > 0
        &&& 0 <= self.pointer < self.tape.len()
        &&& 0 <= self.pc <= self.program.len()
        &&& targets_in_range(self.program)
    }

    /// The cell under the data pointer.
    pub open spec fn cell(self) -> u8 {
        self.tape[self.pointer]
    }

    /// The cell under the data pointer set to `v`.
    pub open spec fn set_cell(self, v: u8) -> MachineView {
        MachineView { tape: self.tape.update(self.pointer, v), ..self }
    }

    /// The program counter set to `pc`.
    pub open spec fn goto(self, pc: int) -> MachineView {
        MachineView { pc, ..self }
    }

    /// The program counter moved to the next opcode.
    pub open spec fn advance(self) -> MachineView {
        self.goto(self.pc + 1)
    }

    /// The pointer moved by `delta`, or an error under the checked policy.
    pub open spec fn move_pointer(self, delta: int) -> (MachineView, Result<Step, Error>) {
        let len = self.tape.len() as int;
        let target = self.pointer + delta;
        match self.policy {
            PointerPolicy::Wrap => (
                MachineView { pointer: target % len, ..self }.advance(),
                Ok(Step::Continued),
            ),
            PointerPolicy::Checked => if 0 <= target < len {
                (MachineView { pointer: target, ..self }.advance(), Ok(Step::Continued))
            } else {
                (self, Err(Error::TapeBoundsExceeded))
            },
        }
    }

    /// The next opcode waits for an input byte.
    pub open spec fn awaiting_input(self) -> bool {
        0 <= self.pc < self.program.len() && self.program[self.pc] == Instr::Input
    }

    /// One step: the state after the opcode at the program counter, and what it did.
    /// An input opcode is not run here: the state stays as it is until the byte comes.
    pub open spec fn step_spec(self) -> (MachineView, Result<Step, Error>) {
        if self.pc < 0 || self.pc >= self.program.len() {
            (self, Ok(Step::Halted))
        } else {
            match self.program[self.pc] {
                Instr::IncrDataByte(n) => (
                    self.set_cell(cell_add(self.cell(), n as int)).advance(),
                    Ok(Step::Continued),
                ),
                Instr::DecrDataByte(n) => (
                    self.set_cell(cell_add(self.cell(), -(n as int))).advance(),
                    Ok(Step::Continued),
                ),
                Instr::IncrDataPointer(n) => self.move_pointer(n as int),
                Instr::DecrDataPointer(n) => self.move_pointer(-(n as int)),
                Instr::Print => (self.advance(), Ok(Step::Wrote(self.cell()))),
                Instr::Input => (self, Ok(Step::NeedsInput)),
                Instr::JumpForward(t) => if self.cell() == 0 {
                    (self.goto(t + 1), Ok(Step::Continued))
                } else {
                    (self.advance(), Ok(Step::Continued))
                },
                Instr::JumpBackward(t) => if self.cell() != 0 {
                    (self.goto(t + 1), Ok(Step::Continued))
                } else {
                    (self.advance(), Ok(Step::Continued))
                },
            }
        }
    }

    /// The input opcode given a byte (`Some`), or told that input has run out (`None`).
    pub open spec fn input_spec(self, byte: Option<u8>) -> (MachineView, Result<(), Error>) {
        match byte {
            Some(b) => (self.set_cell(b).advance(), Ok(())),
            None => (self, Err(Error::InputExhausted)),
        }
    }
}

/// A run of at most `fuel` steps against the input bytes `input`: the final
/// state, how it ended, the bytes written, and the number of bytes read.
pub open spec fn run_spec(m: MachineView, input: Seq<u8>, fuel: nat) -> (
    MachineView,
    RunStatus,
    Seq<u8>,
    nat,
)
    decreases fuel,
{
    if m.pc < 0 || m.pc >= m.program.len() {
        (m, RunStatus::Halted, seq![], 0)
    } else if fuel == 0 {
        (m, RunStatus::OutOfSteps, seq![], 0)
    } else {
        let (m1, r) = m.step_spec();
        match r {
            Err(e) => (m1, RunStatus::Failed(e), seq![], 0),
            Ok(Step::Halted) => (m1, RunStatus::Halted, seq![], 0),
            Ok(Step::Continued) => run_spec(m1, input, (fuel - 1) as nat),
            Ok(Step::Wrote(b)) => {
                let t = run_spec(m1, input, (fuel - 1) as nat);
                (t.0, t.1, seq![b] + t.2, t.3)
            },
            Ok(Step::NeedsInput) => if input.len() == 0 {
                (m1, RunStatus::Failed(Error::InputExhausted), seq![], 0)
            } else {
                let t = run_spec(m1.input_spec(Some(input[0])).0, input.drop_first(), (fuel - 1) as nat);
                (t.0, t.1, t.2, t.3 + 1)
            },
        }
    }
}

/// The state after running the adjustment `op` alone from the tape and
/// pointer of `m`.
pub open spec fn effect_of(m: MachineView, op: Instr) -> MachineView {
    MachineView { program: seq![op], pc: 0, ..m }.step_spec().0
}

/// `(x % m + y) % m == (x + y) % m`.
proof fn lemma_mod_then_add(x: int, y: int, m: int)
    requires
        m > 0,
    ensures
        (x % m + y) % m == (x + y) % m,
{
    lemma_add_mod_noop_right(y, x, m);
    assert(x % m + y == y + x % m);
    assert(x + y == y + x);
}

/// Executing `k` copies of one single-step adjustment one after another leaves
/// the tape and the pointer exactly where one adjustment counting `k` leaves
/// them, reads and writes nothing, and moves past all `k` opcodes. (Under the
/// checked pointer policy this is stated for cell adjustments, where no step
/// can fail.)
pub proof fn lemma_unit_run_matches_counted_step(m: MachineView, input: Seq<u8>, u: Instr, k: nat)
    requires
        m.wf(),
        is_unit_step(u),
        m.policy == PointerPolicy::Wrap || u is IncrDataByte || u is DecrDataByte,
        1 <= k <= usize::MAX,
        m.pc + k <= m.program.len(),
        forall|l: int| m.pc <= l < m.pc + k ==> m.program[l] == u,
    ensures
        ({
            let t = run_spec(m, input, k);
            let c = effect_of(m, with_count(u, k as usize));
            &&& t.0.tape == c.tape
            &&& t.0.pointer == c.pointer
            &&& t.0.pc == m.pc + k
            &&& t.0.program == m.program
            &&& t.0.policy == m.policy
            &&& !(t.1 is Failed)
            &&& t.2 == Seq::<u8>::empty()
            &&& t.3 == 0
        }),
    decreases k,
{
    let m1 = m.step_spec().0;
    let len = m.tape.len() as int;
    let p = m.pointer;
    let c = m.cell();
    assert(m.program[m.pc] == u);
    if k == 1 {
        assert(run_spec(m1, input, 0).0 == m1);
        assert(m1.tape =~= effect_of(m, with_count(u, 1)).tape);
    } else {
        assert(m.program[m.pc + 1] == u);
        lemma_unit_run_matches_counted_step(m1, input, u, (k - 1) as nat);
        let c1 = effect_of(m1, with_count(u, (k - 1) as usize));
        let ck = effect_of(m, with_count(u, k as usize));
        match u {
            Instr::IncrDataByte(_) => {
                lemma_mod_then_add(c as int + 1, k - 1, 256);
                assert(c1.tape =~= ck.tape);
            },
            Instr::DecrDataByte(_) => {
                lemma_mod_then_add(c as int - 1, -(k - 1), 256);
                assert(c1.tape =~= ck.tape);
            },
            Instr::IncrDataPointer(_) => {
                lemma_mod_then_add(p + 1, k - 1, len);
            },
            _ => {
                lemma_mod_then_add(p - 1, -(k - 1), len);
            },
        }
    }
}

/// A resolved program jumps only to indices inside it.
pub(crate) proof fn lemma_resolved_targets_in_range(ops: Seq<Instr>, out: Seq<Instr>)
    requires
        resolve_result(ops, Ok(out)),
    ensures
        targets_in_range(out),
{
    assert forall|k: int| 0 <= k < out.len() implies match #[trigger] out[k] {
        Instr::JumpForward(t) => t < out.len(),
        Instr::JumpBackward(t) => t < out.len(),
        _ => true,
    } by {
        if is_open(ops[k]) {
            let j = choose|j: int|
                paired(ops, k, j) && out[k] == Instr::JumpForward(j as usize);
        } else if is_close(ops[k]) {
            let i = choose|i: int|
                paired(ops, i, k) && out[k] == Instr::JumpBackward(i as usize);
        } else {
            assert(out[k] == ops[k]);
        }
    }
}

/// One step keeps the machine well formed.
pub(crate) proof fn lemma_step_keeps_wf(m: MachineView, byte: u8)
    requires
        m.wf(),
    ensures
        m.step_spec().0.wf(),
        m.awaiting_input() ==> m.input_spec(Some(byte)).0.wf(),
{
    let len = m.tape.len() as int;
    if 0 <= m.pc < m.program.len() {
        assert(targets_in_range(m.program));
        let op = m.program[m.pc];
        match op {
            Instr::IncrDataPointer(n) => {
                vstd::arithmetic::div_mod::lemma_mod_bound(m.pointer + n, len);
            },
            Instr::DecrDataPointer(n) => {
                vstd::arithmetic::div_mod::lemma_mod_bound(m.pointer + -(n as int), len);
            },
            _ => {},
        }
    }
}

/// A program, the tape it runs on, and the cursors into both.
#[derive(Clone, Debug)]
pub struct Machine {
    instruction_tape: Vec<Instr>,
    data_tape: Vec<u8>,
    data_pointer: usize,
    program_counter: usize,
    policy: PointerPolicy,
}

impl View for Machine {
    type V = MachineView;

    closed spec fn view(&self) -> MachineView {
        MachineView {
            program: self.instruction_tape@,
            tape: self.data_tape@,
            pointer: self.data_pointer as int,
            pc: self.program_counter as int,
            policy: self.policy,
        }
    }
}

/// The byte `c + n` modulo 256, computed without overflow.
fn add_to_cell(c: u8, n: usize) -> (r: u8)
    ensures
        r == cell_add(c, n as int),
{
    let s = (n % 256) as u16;
    let r = ((c as u16 + s) % 256) as u8;
    proof {
        lemma_add_mod_noop_right(c as int, n as int, 256);
    }
    r
}

/// The byte `c - n` modulo 256, computed without overflow.
fn sub_from_cell(c: u8, n: usize) -> (r: u8)
    ensures
        r == cell_add(c, -(n as int)),
{
    let s = (n % 256) as u16;
    let r = ((c as u16 + 256 - s) % 256) as u8;
    proof {
        lemma_mod_add_multiples_vanish(c as int - s as int, 256);
        lemma_sub_mod_noop_right(c as int, n as int, 256);
        assert(c as int + -(n as int) == c as int - n as int);
    }
    r
}

/// Under wraparound, `p + n` modulo `len`, computed without overflow.
fn wrap_forward(p: usize, n: usize, len: usize) -> (r: usize)
    requires
        p < len,
    ensures
        r as int == (p as int + n as int) % (len as int),
{
    let s = n % len;
    proof {
        lemma_add_mod_noop_right(p as int, n as int, len as int);
    }
    if p >= len - s {
        proof {
            lemma_mod_add_multiples_vanish(p as int + s as int - len as int, len as int);
            lemma_small_mod((p + s - len) as nat, len as nat);
        }
        p - (len - s)
    } else {
        proof {
            lemma_small_mod((p + s) as nat, len as nat);
        }
        p + s
    }
}

/// Under wraparound, `p - n` modulo `len`, computed without overflow.
fn wrap_backward(p: usize, n: usize, len: usize) -> (r: usize)
    requires
        p < len,
    ensures
        r as int == (p as int + -(n as int)) % (len as int),
{
    let s = n % len;
    proof {
        lemma_sub_mod_noop_right(p as int, n as int, len as int);
        assert(p as int + -(n as int) == p as int - n as int);
    }
    if p >= s {
        proof {
            lemma_small_mod((p - s) as nat, len as nat);
        }
        p - s
    } else {
        proof {
            lemma_mod_add_multiples_vanish(p as int - s as int, len as int);
            lemma_small_mod((p + len - s) as nat, len as nat);
        }
        p + (len - s)
    }
}

impl Machine {
    /// A machine with an empty program and `tape_length` zero cells, whose
    /// pointer wraps around the tape.
    pub fn new(tape_length: usize) -> (m: Machine)
        requires
            tape_length > 0,
        ensures
            m@.wf(),
            m@.program.len() == 0,
            m@.tape == Seq::new(tape_length as nat, |i: int| 0u8),
            m@.pointer == 0,
            m@.pc == 0,
            m@.policy == PointerPolicy::Wrap,
    {
        Machine::with_policy(tape_length, PointerPolicy::Wrap)
    }

    /// As `new`, with the given pointer policy.
    pub fn with_policy(tape_length: usize, policy: PointerPolicy) -> (m: Machine)
        requires
            tape_length > 0,
        ensures
            m@.wf(),
            m@.program.len() == 0,
            m@.tape == Seq::new(tape_length as nat, |i: int| 0u8),
            m@.pointer == 0,
            m@.pc == 0,
            m@.policy == policy,
    {
        let m = Machine {
            instruction_tape: Vec::new(),
            data_tape: vec![0u8; tape_length],
            data_pointer: 0,
            program_counter: 0,
            policy,
        };
        assert(m@.tape =~= Seq::new(tape_length as nat, |i: int| 0u8));
        m
    }

    /// Runs the opcode at the program counter, unless it reads input (then
    /// nothing changes and `NeedsInput` comes back) or the program is over.
    pub fn step(&mut self) -> (r: Result<Step, Error>)
        requires
            old(self)@.wf(),
        ensures
            final(self)@.wf(),
            (final(self)@, r) == old(self)@.step_spec(),
    {
        let pc = self.program_counter;
        if pc >= self.instruction_tape.len() {
            return Ok(Step::Halted);
        }
        let len = self.data_tape.len();
        let ptr = self.data_pointer;
        let cell = self.data_tape[ptr];
        proof {
            assert(targets_in_range(self@.program));
            assert(match self@.program[pc as int] {
                Instr::JumpForward(t) => t < self@.program.len(),
                Instr::JumpBackward(t) => t < self@.program.len(),
                _ => true,
            });
        }
        match self.instruction_tape[pc] {
            Instr::IncrDataByte(n) => {
                self.data_tape.set(ptr, add_to_cell(cell, n));
            },
            Instr::DecrDataByte(n) => {
                self.data_tape.set(ptr, sub_from_cell(cell, n));
            },
            Instr::IncrDataPointer(n) => {
                match self.policy {
                    PointerPolicy::Wrap => {
                        self.data_pointer = wrap_forward(ptr, n, len);
                    },
                    PointerPolicy::Checked => {
                        if n >= len - ptr {
                            return Err(Error::TapeBoundsExceeded);
                        }
                        self.data_pointer = ptr + n;
                    },
                }
            },
            Instr::DecrDataPointer(n) => {
                match self.policy {
                    PointerPolicy::Wrap => {
                        self.data_pointer = wrap_backward(ptr, n, len);
                    },
                    PointerPolicy::Checked => {
                        if n > ptr {
                            return Err(Error::TapeBoundsExceeded);
                        }
                        self.data_pointer = ptr - n;
                    },
                }
            },
            Instr::Print => {
                self.program_counter = pc + 1;
                return Ok(Step::Wrote(cell));
            },
            Instr::Input => {
                return Ok(Step::NeedsInput);
            },
            Instr::JumpForward(t) => {
                if cell == 0 {
                    self.program_counter = t + 1;
                    return Ok(Step::Continued);
                }
            },
            Instr::JumpBackward(t) => {
                if cell != 0 {
                    self.program_counter = t + 1;
                    return Ok(Step::Continued);
                }
            },
        }
        self.program_counter = pc + 1;
        Ok(Step::Continued)
    }

    /// Whether the next opcode waits for an input byte.
    pub fn awaiting_input(&self) -> (r: bool)
        ensures
            r == self@.awaiting_input(),
    {
        self.program_counter < self.instruction_tape.len()
            && self.instruction_tape[self.program_counter] == Instr::Input
    }

    /// Completes the waiting input opcode with `byte`; `None` means the
    /// input has run out, which fails the run.
    pub fn feed_input(&mut self, byte: Option<u8>) -> (r: Result<(), Error>)
        requires
            old(self)@.wf(),
            old(self)@.awaiting_input(),
        ensures
            final(self)@.wf(),
            (final(self)@, r) == old(self)@.input_spec(byte),
    {
        assert(self.program_counter < self.instruction_tape.len());
        match byte {
            Some(b) => {
                self.data_tape.set(self.data_pointer, b);
                self.program_counter = self.program_counter + 1;
                Ok(())
            },
            None => Err(Error::InputExhausted),
        }
    }

    /// Loads a program from text: decodes it, condenses its runs, then pairs
    /// its brackets. The program counter goes back to the first opcode; the
    /// tape and the pointer stay as they are. On a bracket error no program
    /// is kept.
    pub fn parse_instructions(&mut self, contents: String) -> (r: Result<(), Error>)
        requires
            old(self)@.wf(),
        ensures
            final(self)@.wf(),
            final(self)@.tape == old(self)@.tape,
            final(self)@.pointer == old(self)@.pointer,
            final(self)@.policy == old(self)@.policy,
            final(self)@.pc == 0,
            resolve_result(
                condense_spec(lex_spec(contents@)),
                match r {
                    Ok(_) => Ok(final(self)@.program),
                    Err(e) => Err(e),
                },
            ),
            r is Err ==> final(self)@.program.len() == 0,
    {
        let lexed = lex(contents.as_str());
        let condensed = condense(&lexed);
        let resolved = check_brackets(&condensed);
        self.program_counter = 0;
        match resolved {
            Ok(program) => {
                proof {
                    lemma_resolved_targets_in_range(condensed@, program@);
                }
                self.instruction_tape = program;
                Ok(())
            },
            Err(e) => {
                self.instruction_tape = Vec::new();
                Err(e)
            },
        }
    }

    /// Runs for at most `max_steps` steps, reading input bytes from `input` in
    /// order and collecting what the program writes. Stops when the program
    /// ends, on the first error (running out of input included), or when the
    /// steps are used up; what was written up to then is kept.
    pub fn execute_instructions(&mut self, input: &Vec<u8>, max_steps: usize) -> (r: Run)
        requires
            old(self)@.wf(),
        ensures
            final(self)@.wf(),
            ({
                let t = run_spec(old(self)@, input@, max_steps as nat);
                &&& final(self)@ == t.0
                &&& r.status == t.1
                &&& r.output@ == t.2
                &&& r.consumed == t.3
            }),
    {
        let ghost m0 = self@;
        let mut output: Vec<u8> = Vec::new();
        let mut consumed: usize = 0;
        let mut fuel: usize = max_steps;
        assert(input@.skip(0) =~= input@);
        assert(output@ + run_spec(m0, input@, max_steps as nat).2 =~= run_spec(m0, input@, max_steps as nat).2);
        loop
            invariant
                self@.wf(),
                m0 == old(self)@,
                consumed <= input.len(),
                ({
                    let whole = run_spec(m0, input@, max_steps as nat);
                    let rest = run_spec(self@, input@.skip(consumed as int), fuel as nat);
                    &&& whole.0 == rest.0
                    &&& whole.1 == rest.1
                    &&& whole.2 == output@ + rest.2
                    &&& whole.3 == consumed + rest.3
                }),
            ensures
                self@.wf(),
                ({
                    let whole = run_spec(m0, input@, max_steps as nat);
                    &&& self@ == whole.0
                    &&& whole.2 == output@
                    &&& whole.3 == consumed
                }),
                ({
                    let whole = run_spec(m0, input@, max_steps as nat);
                    let status = if self.program_counter >= self.instruction_tape.len() {
                        RunStatus::Halted
                    } else {
                        RunStatus::OutOfSteps
                    };
                    whole.1 == status
                }),
            decreases fuel,
        {
            if self.program_counter >= self.instruction_tape.len() || fuel == 0 {
                assert(output@ + seq![] =~= output@);
                break;
            }
            let ghost before = self@;
            let ghost rest_input = input@.skip(consumed as int);
            match self.step() {
                Ok(Step::Wrote(b)) => {
                    let ghost old_output = output@;
                    output.push(b);
                    proof {
                        let t = run_spec(self@, rest_input, (fuel - 1) as nat);
                        assert(output@ + t.2 =~= old_output + (seq![b] + t.2));
                    }
                },
                Ok(Step::NeedsInput) => {
                    if consumed >= input.len() {
                        let _ = self.feed_input(None);
                        assert(run_spec(before, rest_input, fuel as nat).2 =~= seq![]);
                        assert(output@ + seq![] =~= output@);
                        return Run { status: RunStatus::Failed(Error::InputExhausted), output, consumed };
                    }
                    let b = input[consumed];
                    let _ = self.feed_input(Some(b));
                    consumed = consumed + 1;
                    assert(input@.skip(consumed as int) =~= rest_input.drop_first());
                },
                Ok(_) => {},
                Err(e) => {
                    assert(run_spec(before, rest_input, fuel as nat).2 =~= seq![]);
                    assert(output@ + seq![] =~= output@);
                    return Run { status: RunStatus::Failed(e), output, consumed };
                },
            }
            fuel = fuel - 1;
        }
        let status = if self.program_counter >= self.instruction_tape.len() {
            RunStatus::Halted
        } else {
            RunStatus::OutOfSteps
        };
        Run { status, output, consumed }
    }

    /// The loaded program.
    pub fn instructions(&self) -> (r: &Vec<Instr>)
        ensures
            r@ == self@.program,
    {
        &self.instruction_tape
    }

    /// The number of cells on the tape.
    pub fn tape_length(&self) -> (r: usize)
        ensures
            r == self@.tape.len(),
    {
        self.data_tape.len()
    }

    /// The cell at index `i`.
    pub fn cell(&self, i: usize) -> (r: u8)
        requires
            i < self@.tape.len(),
        ensures
            r == self@.tape[i as int],
    {
        self.data_tape[i]
    }

    /// The index of the cell under the data pointer.
    pub fn data_pointer(&self) -> (r: usize)
        ensures
            r == self@.pointer,
    {
        self.data_pointer
    }
}

} // verus!
