//! The execution engine: a fetch-decode-execute loop over a translated
//! instruction list, with a program counter, a growable zero-filled tape and a
//! movable cursor. Input and output are buffered byte streams held by the
//! machine, so every step is a pure state transition.

use vstd::prelude::*;

use crate::translator::Instruction;
use crate::translator::LexError;
use crate::translator::lex_error_for;
use crate::translator::translate;
use crate::translator::translation_of;
use crate::translator::well_formed;
use vstd::string::StringSliceAdditionalSpecFns;

verus! {

/// A failure during execution. `Io` reports an exhausted input stream: a read
/// was attempted with no byte left. The two pointer errors carry the program
/// counter at the moment of failure.
#[derive(Clone, Copy, Debug, Eq, PartialEq, Structural)]
pub enum RunError {
    Io,
    PointerOverflow { position: usize },
    PointerUnderflow { position: usize },
}

/// The mathematical state of a machine: the instruction list, the program
/// counter, the tape with its cursor, and the two byte streams with the
/// position of the next input byte.
#[verifier::ext_equal]
pub ghost struct State {
    pub prog: Seq<Instruction>,
    pub pc: int,
    pub tape: Seq<u8>,
    pub cursor: int,
    pub input: Seq<u8>,
    pub in_pos: int,
    pub output: Seq<u8>,
}

/// What one step does: continue in a new state, halt cleanly because the
/// program counter ran past the end, or fail, leaving the machine in the
/// carried state.
pub ghost enum Outcome {
    Next(State),
    Halt,
    Fail(State, RunError),
}

/// The value of the cell at `cursor`: cells past the end of the tape read as
/// zero.
pub open spec fn cell(tape: Seq<u8>, cursor: int) -> u8 {
    if 0 <= cursor < tape.len() {
        tape[cursor]
    } else {
        0
    }
}

/// The tape after growing just enough to make `cursor` a valid index,
/// zero-filling the new cells; a tape already long enough is unchanged.
pub open spec fn grown(tape: Seq<u8>, cursor: int) -> Seq<u8> {
    if cursor < tape.len() {
        tape
    } else {
        tape + Seq::new((cursor + 1 - tape.len()) as nat, |j: int| 0u8)
    }
}

/// Incrementing a cell wraps 255 around to 0.
pub open spec fn wrap_inc(b: u8) -> u8 {
    if b == 255 {
        0
    } else {
        (b + 1) as u8
    }
}

/// Decrementing a cell wraps 0 around to 255.
pub open spec fn wrap_dec(b: u8) -> u8 {
    if b == 0 {
        255
    } else {
        (b - 1) as u8
    }
}

/// The transition relation of the machine, one instruction at a time.
///
/// The cell access performed by an instruction first grows the tape to the
/// cursor, also for a mere jump-condition test. A cursor that cannot be
/// stepped right, or whose cell can never exist because the tape length
/// needed would exceed the index width, is a pointer overflow. Moving left
/// from cursor 0 is a pointer underflow and changes nothing. A jump
/// reassigns the program counter to the partner instruction itself; in every
/// other case the program counter advances by one.
pub open spec fn spec_step(s: State) -> Outcome {
    if !(0 <= s.pc < s.prog.len()) {
        Outcome::Halt
    } else {
        match s.prog[s.pc] {
            Instruction::MoveRight => {
                if s.cursor + 1 <= usize::MAX {
                    Outcome::Next(State { cursor: s.cursor + 1, pc: s.pc + 1, ..s })
                } else {
                    Outcome::Fail(s, RunError::PointerOverflow { position: s.pc as usize })
                }
            },
            Instruction::MoveLeft => {
                if s.cursor >= 1 {
                    Outcome::Next(State { cursor: s.cursor - 1, pc: s.pc + 1, ..s })
                } else {
                    Outcome::Fail(s, RunError::PointerUnderflow { position: s.pc as usize })
                }
            },
            Instruction::Increment => {
                if s.cursor < usize::MAX {
                    Outcome::Next(
                        State {
                            tape: grown(s.tape, s.cursor).update(
                                s.cursor,
                                wrap_inc(cell(s.tape, s.cursor)),
                            ),
                            pc: s.pc + 1,
                            ..s
                        },
                    )
                } else {
                    Outcome::Fail(s, RunError::PointerOverflow { position: s.pc as usize })
                }
            },
            Instruction::Decrement => {
                if s.cursor < usize::MAX {
                    Outcome::Next(
                        State {
                            tape: grown(s.tape, s.cursor).update(
                                s.cursor,
                                wrap_dec(cell(s.tape, s.cursor)),
                            ),
                            pc: s.pc + 1,
                            ..s
                        },
                    )
                } else {
                    Outcome::Fail(s, RunError::PointerOverflow { position: s.pc as usize })
                }
            },
            Instruction::Write => {
                if s.cursor < usize::MAX {
                    Outcome::Next(
                        State {
                            tape: grown(s.tape, s.cursor),
                            output: s.output.push(cell(s.tape, s.cursor)),
                            pc: s.pc + 1,
                            ..s
                        },
                    )
                } else {
                    Outcome::Fail(s, RunError::PointerOverflow { position: s.pc as usize })
                }
            },
            Instruction::Read => {
                if s.cursor < usize::MAX {
                    if s.in_pos < s.input.len() {
                        Outcome::Next(
                            State {
                                tape: grown(s.tape, s.cursor).update(s.cursor, s.input[s.in_pos]),
                                in_pos: s.in_pos + 1,
                                pc: s.pc + 1,
                                ..s
                            },
                        )
                    } else {
                        Outcome::Fail(State { tape: grown(s.tape, s.cursor), ..s }, RunError::Io)
                    }
                } else {
                    Outcome::Fail(s, RunError::PointerOverflow { position: s.pc as usize })
                }
            },
            Instruction::OpenLoop { close_position } => {
                if s.cursor < usize::MAX {
                    Outcome::Next(
                        State {
                            tape: grown(s.tape, s.cursor),
                            pc: if cell(s.tape, s.cursor) == 0 {
                                close_position as int
                            } else {
                                s.pc + 1
                            },
                            ..s
                        },
                    )
                } else {
                    Outcome::Fail(s, RunError::PointerOverflow { position: s.pc as usize })
                }
            },
            Instruction::CloseLoop { open_position } => {
                if s.cursor < usize::MAX {
                    Outcome::Next(
                        State {
                            tape: grown(s.tape, s.cursor),
                            pc: if cell(s.tape, s.cursor) != 0 {
                                open_position as int
                            } else {
                                s.pc + 1
                            },
                            ..s
                        },
                    )
                } else {
                    Outcome::Fail(s, RunError::PointerOverflow { position: s.pc as usize })
                }
            },
        }
    }
}

/// `s2` is reachable from `s1` in exactly `n` continuing steps.
pub open spec fn reaches(s1: State, s2: State, n: nat) -> bool
    decreases n,
{
    if n == 0 {
        s1 == s2
    } else {
        spec_step(s1) matches Outcome::Next(m) && reaches(m, s2, (n - 1) as nat)
    }
}

/// A machine: a translated program with its program counter, the tape with
/// its cursor, a buffered input stream with the position of the next unread
/// byte, and the output produced so far. The caller provides input by filling
/// `input` and collects output from `output`; a read past the end of `input`
/// is the exhausted-stream failure `RunError::Io`.
#[derive(Debug)]
pub struct Brainfuck {
    pub instructions: Vec<Instruction>,
    pub instruction_head: usize,
    pub data: Vec<u8>,
    pub data_head: usize,
    pub input: Vec<u8>,
    pub input_head: usize,
    pub output: Vec<u8>,
}

impl View for Brainfuck {
    type V = State;

    open spec fn view(&self) -> State {
        State {
            prog: self.instructions@,
            pc: self.instruction_head as int,
            tape: self.data@,
            cursor: self.data_head as int,
            input: self.input@,
            in_pos: self.input_head as int,
            output: self.output@,
        }
    }
}

/// What building a machine from source `s` returns: on success, a machine
/// holding the translation of `s`, an empty tape, cursor 0, program counter
/// 0, no input provided and no output yet; on failure, the error that
/// translation's contract permits for `s`.
pub open spec fn machine_built_from(s: Seq<u8>, r: Result<Brainfuck, LexError>) -> bool {
    match r {
        Ok(m) => {
            &&& translation_of(s, m@.prog)
            &&& m@.pc == 0
            &&& m@.tape.len() == 0
            &&& m@.cursor == 0
            &&& m@.input.len() == 0
            &&& m@.in_pos == 0
            &&& m@.output.len() == 0
        },
        Err(e) => lex_error_for(s, e),
    }
}

impl Brainfuck {
    /// Translate source bytes and build a machine around the result: empty
    /// tape, cursor 0, program counter 0, no input provided, no output yet.
    pub fn try_from(value: &[u8]) -> (r: Result<Brainfuck, LexError>)
        ensures
            machine_built_from(value@, r),
            r is Ok <==> well_formed(value@),
    {
        match translate(value) {
            Ok(instructions) => Ok(
                Brainfuck {
                    instructions,
                    instruction_head: 0,
                    data: Vec::new(),
                    data_head: 0,
                    input: Vec::new(),
                    input_head: 0,
                    output: Vec::new(),
                },
            ),
            Err(e) => Err(e),
        }
    }

    /// Translate a string's UTF-8 bytes, which are interpreted exactly as in
    /// `try_from`, and build a machine around the result.
    pub fn try_from_str(value: &str) -> (r: Result<Brainfuck, LexError>)
        ensures
            machine_built_from(value.spec_bytes(), r),
            r is Ok <==> well_formed(value.spec_bytes()),
    {
        Brainfuck::try_from(value.as_bytes())
    }

    /// Grow the tape with zero-filled cells until the cursor indexes a valid
    /// cell, then return that cell's value. A cell past the old end reads as
    /// zero; cells already set are untouched; nothing else changes.
    pub fn get_or_reserve(&mut self) -> (v: u8)
        requires
            old(self).data_head < usize::MAX,
        ensures
            final(self)@ == (State {
                tape: grown(old(self)@.tape, old(self)@.cursor),
                ..old(self)@
            }),
            final(self).data_head < final(self).data.len(),
            v == cell(old(self)@.tape, old(self)@.cursor),
    {
        while self.data.len() <= self.data_head
            invariant
                self.data_head < usize::MAX,
                self.data_head == old(self).data_head,
                self.instructions@ == old(self).instructions@,
                self.instruction_head == old(self).instruction_head,
                self.input@ == old(self).input@,
                self.input_head == old(self).input_head,
                self.output@ == old(self).output@,
                old(self).data@.len() <= self.data@.len(),
                self.data@.len() <= old(self).data@.len() || self.data@.len() <= self.data_head
                    + 1,
                forall|j: int|
                    0 <= j < old(self).data@.len() ==> self.data@[j] == old(self).data@[j],
                forall|j: int|
                    old(self).data@.len() <= j < self.data@.len() ==> self.data@[j] == 0,
            decreases self.data_head + 1 - self.data.len(),
        {
            self.data.push(0);
        }
        proof {
            assert(self@.tape =~= grown(old(self)@.tape, old(self)@.cursor));
            assert(self@ =~= (State {
                tape: grown(old(self)@.tape, old(self)@.cursor),
                ..old(self)@
            }));
        }
        self.data[self.data_head]
    }

    /// Execute exactly one instruction, as `spec_step` describes. The
    /// returned flag reports whether execution should continue; `Ok(false)`
    /// is the clean termination, reached when the program counter has run
    /// past the end of the program, and changes nothing.
    pub fn step(&mut self) -> (r: Result<bool, RunError>)
        ensures
            match spec_step(old(self)@) {
                Outcome::Next(s2) => r == Ok::<bool, RunError>(true) && final(self)@ == s2,
                Outcome::Halt => r == Ok::<bool, RunError>(false) && final(self)@ == old(self)@,
                Outcome::Fail(s2, e) => r == Err::<bool, RunError>(e) && final(self)@ == s2,
            },
    {
        if self.instruction_head >= self.instructions.len() {
            return Ok(false);
        }
        let pc = self.instruction_head;
        let ins = self.instructions[pc];
        match ins {
            Instruction::MoveRight => {
                if self.data_head == usize::MAX {
                    return Err(RunError::PointerOverflow { position: pc });
                }
                self.data_head = self.data_head + 1;
                self.instruction_head = pc + 1;
                Ok(true)
            },
            Instruction::MoveLeft => {
                if self.data_head == 0 {
                    return Err(RunError::PointerUnderflow { position: pc });
                }
                self.data_head = self.data_head - 1;
                self.instruction_head = pc + 1;
                Ok(true)
            },
            Instruction::Increment => {
                if self.data_head == usize::MAX {
                    return Err(RunError::PointerOverflow { position: pc });
                }
                let c = self.get_or_reserve();
                let idx = self.data_head;
                self.data[idx] = if c == 255 {
                    0
                } else {
                    c + 1
                };
                self.instruction_head = pc + 1;
                Ok(true)
            },
            Instruction::Decrement => {
                if self.data_head == usize::MAX {
                    return Err(RunError::PointerOverflow { position: pc });
                }
                let c = self.get_or_reserve();
                let idx = self.data_head;
                self.data[idx] = if c == 0 {
                    255
                } else {
                    c - 1
                };
                self.instruction_head = pc + 1;
                Ok(true)
            },
            Instruction::Write => {
                if self.data_head == usize::MAX {
                    return Err(RunError::PointerOverflow { position: pc });
                }
                let c = self.get_or_reserve();
                self.output.push(c);
                self.instruction_head = pc + 1;
                Ok(true)
            },
            Instruction::Read => {
                if self.data_head == usize::MAX {
                    return Err(RunError::PointerOverflow { position: pc });
                }
                let _ = self.get_or_reserve();
                if self.input_head >= self.input.len() {
                    return Err(RunError::Io);
                }
                let b = self.input[self.input_head];
                self.input_head = self.input_head + 1;
                let idx = self.data_head;
                self.data[idx] = b;
                self.instruction_head = pc + 1;
                Ok(true)
            },
            Instruction::OpenLoop { close_position } => {
                if self.data_head == usize::MAX {
                    return Err(RunError::PointerOverflow { position: pc });
                }
                let c = self.get_or_reserve();
                if c == 0 {
                    self.instruction_head = close_position;
                } else {
                    self.instruction_head = pc + 1;
                }
                Ok(true)
            },
            Instruction::CloseLoop { open_position } => {
                if self.data_head == usize::MAX {
                    return Err(RunError::PointerOverflow { position: pc });
                }
                let c = self.get_or_reserve();
                if c != 0 {
                    self.instruction_head = open_position;
                } else {
                    self.instruction_head = pc + 1;
                }
                Ok(true)
            },
        }
    }

    /// Execute instructions until clean termination, a runtime error, or a
    /// caller-supplied bound on the number of steps, whichever comes first.
    ///
    /// `Ok(true)` reports clean termination: the machine took some `n <=
    /// max_steps` continuing steps and the program counter has run past the
    /// end. `Ok(false)` reports an exhausted budget after exactly
    /// `max_steps` continuing steps; the machine is unharmed and can be run
    /// further. An error is reported exactly when a step failed, with the
    /// machine left as that step left it.
    pub fn run(&mut self, max_steps: usize) -> (r: Result<bool, RunError>)
        ensures
            r == Ok::<bool, RunError>(true) ==> exists|n: nat|
                n <= max_steps && reaches(old(self)@, final(self)@, n) && spec_step(
                    final(self)@,
                ) == Outcome::Halt,
            r == Ok::<bool, RunError>(false) ==> reaches(
                old(self)@,
                final(self)@,
                max_steps as nat,
            ),
            r matches Err(e) ==> exists|n: nat, sp: State|
                n < max_steps && reaches(old(self)@, sp, n) && spec_step(sp) == Outcome::Fail(
                    final(self)@,
                    e,
                ),
    {
        let ghost s0 = self@;
        let mut steps: usize = 0;
        while steps < max_steps
            invariant
                steps <= max_steps,
                s0 == old(self)@,
                reaches(s0, self@, steps as nat),
            decreases max_steps - steps,
        {
            let ghost pre = self@;
            let res = self.step();
            match res {
                Ok(true) => {
                    proof {
                        lemma_reaches_extend(s0, pre, self@, steps as nat);
                    }
                },
                Ok(false) => {
                    proof {
                        assert(reaches(s0, self@, steps as nat) && spec_step(self@)
                            == Outcome::Halt);
                    }
                    return Ok(true);
                },
                Err(e) => {
                    proof {
                        assert(reaches(s0, pre, steps as nat) && spec_step(pre) == Outcome::Fail(
                            self@,
                            e,
                        ));
                    }
                    return Err(e);
                },
            }
            steps = steps + 1;
        }
        Ok(false)
    }
}

/// Cell arithmetic wraps modulo 256 in both directions: incrementing a cell
/// holding 255 yields 0, and decrementing a cell holding 0 yields 255.
pub proof fn lemma_cell_arithmetic_wraps()
    ensures
        wrap_inc(255) == 0,
        wrap_dec(0) == 255,
        forall|b: u8| #[trigger] wrap_inc(b) as int == (b + 1) % 256,
        forall|b: u8| #[trigger] wrap_dec(b) as int == (b + 255) % 256,
{
    assert forall|b: u8| #[trigger] wrap_inc(b) as int == (b + 1) % 256 by {
        if b == 255 {
            assert((b + 1) % 256 == 0);
        } else {
            assert((b + 1) % 256 == b + 1);
        }
    }
    assert forall|b: u8| #[trigger] wrap_dec(b) as int == (b + 255) % 256 by {
        if b == 0 {
            assert((b + 255) % 256 == 255);
        } else {
            assert((b + 255) % 256 == b - 1);
        }
    }
}

/// Moving the cursor left from position 0 fails with PointerUnderflow
/// carrying the program counter, and the failed attempt leaves the machine —
/// tape, cursor and program counter — exactly as it was.
pub proof fn lemma_underflow_leaves_state(s: State)
    requires
        0 <= s.pc < s.prog.len(),
        s.prog[s.pc] == Instruction::MoveLeft,
        s.cursor == 0,
    ensures
        spec_step(s) == Outcome::Fail(s, RunError::PointerUnderflow { position: s.pc as usize }),
{
}

/// Tape growth is harmless and idempotent: a cell beyond the tape reads as
/// zero, growing preserves every cell already present, and growing a tape
/// that already covers the cursor changes nothing.
pub proof fn lemma_grow_preserves(tape: Seq<u8>, cursor: int)
    requires
        0 <= cursor,
    ensures
        cell(grown(tape, cursor), cursor) == cell(tape, cursor),
        cursor >= tape.len() ==> cell(tape, cursor) == 0,
        forall|j: int| 0 <= j < tape.len() ==> grown(tape, cursor)[j] == tape[j],
        grown(tape, cursor).len() == (if cursor < tape.len() {
            tape.len() as int
        } else {
            cursor + 1
        }),
        grown(grown(tape, cursor), cursor) == grown(tape, cursor),
{
}

/// A reachable state followed by one more continuing step is reachable.
pub proof fn lemma_reaches_extend(s1: State, s2: State, s3: State, n: nat)
    requires
        reaches(s1, s2, n),
        spec_step(s2) == Outcome::Next(s3),
    ensures
        reaches(s1, s3, n + 1),
    decreases n,
{
    if n == 0 {
        assert(s1 == s2);
        assert(reaches(s3, s3, 0));
        assert(reaches(s1, s3, 1));
    } else {
        match spec_step(s1) {
            Outcome::Next(m) => {
                assert(reaches(m, s2, (n - 1) as nat));
                lemma_reaches_extend(m, s2, s3, (n - 1) as nat);
                assert(reaches(m, s3, n));
                assert(reaches(s1, s3, n + 1));
            },
            _ => {
                assert(false);
            },
        }
    }
}

} // verus!

