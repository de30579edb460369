//! The evaluator: a byte tape, a data pointer, and a stack of positions in
//! the instruction tree, advanced one instruction at a time.
use crate::instruction::Instruction;
use vstd::arithmetic::div_mod::lemma_add_mod_noop;
use vstd::prelude::*;

verus! {

/// The tape length that a host uses unless it is configured otherwise.
pub const DEFAULT_TAPE_LENGTH: usize = 1024;

/// The cell that the data pointer starts at on a tape of the default length:
/// the middle, so that a program can move both ways.
pub const DEFAULT_START: usize = DEFAULT_TAPE_LENGTH / 2;

/// A fresh tape: `length` cells, all zero.
pub fn blank_tape(length: usize) -> (tape: Vec<u8>)
    ensures
        tape@ == Seq::new(length as nat, |i: int| 0u8),
{
    let tape = vec![0u8; length];
    tape
}

/// Why execution stopped before the program ended.
#[derive(Clone, Copy, Debug, PartialEq, Eq, Structural)]
pub enum RuntimeError {
    /// The data pointer would leave the tape.
    PointerOutOfBounds,
    /// Input was requested and the input source has no byte left.
    InputExhausted,
}

/// What one step did, as far as the host is concerned.
#[derive(Clone, Copy, Debug, PartialEq, Eq, Structural)]
pub enum Event {
    /// Execution moved on; there is nothing for the host to do.
    Advanced,
    /// The program wrote this byte; the host emits it.
    Output(u8),
    /// The program has ended; further steps change nothing.
    Halted,
}

/// The cell value after an increment, modulo 256.
pub open spec fn incremented(cell: u8) -> u8 {
    ((cell + 1) % 256) as u8
}

/// The cell value after a decrement, modulo 256.
pub open spec fn decremented(cell: u8) -> u8 {
    ((cell - 1) % 256) as u8
}

/// The cell value after `times` increments.
pub open spec fn incremented_by(cell: u8, times: nat) -> u8
    decreases times,
{
    if times == 0 {
        cell
    } else {
        incremented(incremented_by(cell, (times - 1) as nat))
    }
}

/// The cell value after `times` decrements.
pub open spec fn decremented_by(cell: u8, times: nat) -> u8
    decreases times,
{
    if times == 0 {
        cell
    } else {
        decremented(decremented_by(cell, (times - 1) as nat))
    }
}

/// An increment takes 255 to 0 and a decrement takes 0 to 255; below 255 an
/// increment adds one and above 0 a decrement subtracts one; each undoes the
/// other.
pub proof fn cell_arithmetic_wraps(cell: u8)
    ensures
        incremented(255) == 0,
        decremented(0) == 255,
        cell < 255 ==> incremented(cell) == cell + 1,
        cell > 0 ==> decremented(cell) == cell - 1,
        decremented(incremented(cell)) == cell,
        incremented(decremented(cell)) == cell,
{
}

/// Adding to a remainder modulo 256 is adding to the number itself.
proof fn lemma_shift_remainder(number: int, by: int)
    ensures
        ((number % 256) + by) % 256 == (number + by) % 256,
{
    lemma_add_mod_noop(number, by, 256);
    lemma_add_mod_noop(number % 256, by, 256);
}

/// Repeated increments and decrements count modulo 256.
pub proof fn repeated_cell_arithmetic(cell: u8, times: nat)
    ensures
        incremented_by(cell, times) == (cell + times) % 256,
        decremented_by(cell, times) == (cell - times) % 256,
    decreases times,
{
    if times > 0 {
        let fewer = (times - 1) as nat;
        repeated_cell_arithmetic(cell, fewer);
        let up = incremented_by(cell, fewer);
        let down = decremented_by(cell, fewer);
        assert((up + 1) % 256 == (cell + times) % 256) by {
            lemma_shift_remainder(cell + fewer, 1);
        }
        assert((down - 1) % 256 == (cell - times) % 256) by {
            lemma_shift_remainder(cell - fewer, -1);
        }
    }
}

/// 256 increments return a cell to its value, and so do 256 decrements, and
/// so do as many decrements as there were increments.
pub proof fn cell_arithmetic_round_trip(cell: u8, times: nat)
    ensures
        incremented_by(cell, 256) == cell,
        decremented_by(cell, 256) == cell,
        decremented_by(incremented_by(cell, times), times) == cell,
{
    assert(incremented_by(cell, 256) == cell && decremented_by(cell, 256) == cell) by {
        repeated_cell_arithmetic(cell, 256);
    }
    let up = incremented_by(cell, times);
    assert(up as int == (cell + times) % 256) by {
        repeated_cell_arithmetic(cell, times);
    }
    assert(decremented_by(up, times) as int == (up - times) % 256) by {
        repeated_cell_arithmetic(up, times);
    }
    assert((up - times) % 256 == cell) by {
        lemma_shift_remainder(cell + times, -times);
    }
}

/// A place in one instruction sequence: `next` instructions of `code` are done.
pub struct Position {
    pub code: Seq<Instruction>,
    pub next: int,
}

/// The whole state of an execution.
///
/// `frames` holds the program's top-level sequence first and, after it, the
/// body of each loop that execution is inside of, innermost last. A frame
/// below the innermost one stays at the loop it has entered, so that the loop
/// is tested again when its body has run to the end.
pub struct Configuration {
    pub tape: Seq<u8>,
    pub pointer: int,
    pub frames: Seq<Position>,
}

impl Configuration {
    /// The configuration in which `program` starts on the given tape.
    pub open spec fn initial(program: Seq<Instruction>, tape: Seq<u8>, pointer: int) -> Configuration {
        Configuration { tape, pointer, frames: seq![Position { code: program, next: 0 }] }
    }

    /// The data pointer addresses a cell of the tape.
    pub open spec fn in_bounds(self) -> bool {
        0 <= self.pointer < self.tape.len()
    }

    /// Nothing is left to execute.
    pub open spec fn halted(self) -> bool {
        self.frames.len() == 0
    }

    /// The instruction that the next step executes; `None` when the
    /// innermost sequence has run to its end.
    pub open spec fn current(self) -> Option<Instruction> {
        if self.frames.len() > 0 && 0 <= self.frames.last().next < self.frames.last().code.len() {
            Some(self.frames.last().code[self.frames.last().next])
        } else {
            None
        }
    }

    /// The next step consumes a byte of input.
    pub open spec fn awaits_input(self) -> bool {
        self.current() matches Some(Instruction::Read)
    }

    /// The cell under the data pointer.
    pub open spec fn cell(self) -> u8 {
        self.tape[self.pointer]
    }

    /// The same configuration with `value` in the cell under the data pointer.
    pub open spec fn with_cell(self, value: u8) -> Configuration {
        Configuration { tape: self.tape.update(self.pointer, value), ..self }
    }

    /// The same configuration with the data pointer at `pointer`.
    pub open spec fn with_pointer(self, pointer: int) -> Configuration {
        Configuration { pointer, ..self }
    }

    /// The same configuration past the current instruction.
    pub open spec fn advanced(self) -> Configuration {
        let top = self.frames.last();
        Configuration {
            frames: self.frames.update(
                self.frames.len() - 1,
                Position { next: top.next + 1, ..top },
            ),
            ..self
        }
    }

    /// The same configuration at the start of `body`, inside the current loop.
    pub open spec fn entered(self, body: Seq<Instruction>) -> Configuration {
        Configuration { frames: self.frames.push(Position { code: body, next: 0 }), ..self }
    }

    /// The same configuration outside the innermost sequence.
    pub open spec fn left(self) -> Configuration {
        Configuration { frames: self.frames.drop_last(), ..self }
    }

    /// One step of execution: the configuration it leads to and what the
    /// host sees of it. `input` is the byte that the input source supplies
    /// if the step asks for one, `None` if the source is exhausted; only a
    /// read looks at it.
    ///
    /// A move fails if its target is not on the tape, and so does any use of
    /// the current cell while the data pointer is not on the tape. A step
    /// that fails leaves the configuration as it was.
    pub open spec fn step(self, input: Option<u8>) -> (Configuration, Result<Event, RuntimeError>) {
        if self.halted() {
            (self, Ok(Event::Halted))
        } else {
            match self.current() {
                None => (self.left(), Ok(Event::Advanced)),
                Some(Instruction::PlusP) => if self.with_pointer(self.pointer + 1).in_bounds() {
                    (self.with_pointer(self.pointer + 1).advanced(), Ok(Event::Advanced))
                } else {
                    (self, Err(RuntimeError::PointerOutOfBounds))
                },
                Some(Instruction::MinusP) => if self.with_pointer(self.pointer - 1).in_bounds() {
                    (self.with_pointer(self.pointer - 1).advanced(), Ok(Event::Advanced))
                } else {
                    (self, Err(RuntimeError::PointerOutOfBounds))
                },
                Some(_) if !self.in_bounds() => (self, Err(RuntimeError::PointerOutOfBounds)),
                Some(Instruction::Plus) => (
                    self.with_cell(incremented(self.cell())).advanced(),
                    Ok(Event::Advanced),
                ),
                Some(Instruction::Minus) => (
                    self.with_cell(decremented(self.cell())).advanced(),
                    Ok(Event::Advanced),
                ),
                Some(Instruction::Write) => (self.advanced(), Ok(Event::Output(self.cell()))),
                Some(Instruction::Read) => match input {
                    Some(byte) => (self.with_cell(byte).advanced(), Ok(Event::Advanced)),
                    None => (self, Err(RuntimeError::InputExhausted)),
                },
                Some(Instruction::Loop(body)) => if self.cell() != 0 {
                    (self.entered(body@), Ok(Event::Advanced))
                } else {
                    (self.advanced(), Ok(Event::Advanced))
                },
            }
        }
    }
}

/// A step never changes the length of the tape, and it leaves the data
/// pointer on the tape if it was there.
pub proof fn step_keeps_pointer_on_tape(before: Configuration, input: Option<u8>)
    ensures
        before.step(input).0.tape.len() == before.tape.len(),
        before.in_bounds() ==> before.step(input).0.in_bounds(),
{
}

/// A move to the left from the first cell fails, and so does a move to the
/// right from the last cell: the pointer does not wrap around.
pub proof fn moves_off_the_tape_fail(before: Configuration, input: Option<u8>)
    ensures
        before.current() == Some(Instruction::MinusP) && before.pointer == 0 ==> before.step(input)
            == (before, Err::<Event, RuntimeError>(RuntimeError::PointerOutOfBounds)),
        before.current() == Some(Instruction::PlusP) && before.pointer == before.tape.len() - 1
            ==> before.step(input) == (
            before,
            Err::<Event, RuntimeError>(RuntimeError::PointerOutOfBounds),
        ),
{
}

/// A read fails when the input source is exhausted, and stores nothing.
pub proof fn read_without_input_fails(before: Configuration)
    requires
        before.in_bounds(),
        before.awaits_input(),
    ensures
        before.step(None) == (before, Err::<Event, RuntimeError>(RuntimeError::InputExhausted)),
{
}

/// An execution together with its input source and its output sink: the
/// input that has not been consumed yet, and the output written so far.
pub struct Run {
    pub configuration: Configuration,
    pub input: Seq<u8>,
    pub output: Seq<u8>,
}

impl Run {
    /// The start of `program` on the given tape, with `input` to read from
    /// and `output` already written.
    pub open spec fn initial(
        program: Seq<Instruction>,
        tape: Seq<u8>,
        pointer: int,
        input: Seq<u8>,
        output: Seq<u8>,
    ) -> Run {
        Run { configuration: Configuration::initial(program, tape, pointer), input, output }
    }

    /// One step: a read takes the first pending input byte, a write appends
    /// to the output. A step that fails changes nothing.
    pub open spec fn step(self) -> (Run, Result<Event, RuntimeError>) {
        let offered = if self.input.len() > 0 {
            Some(self.input[0])
        } else {
            None
        };
        let (next, result) = self.configuration.step(offered);
        match result {
            Err(_) => (self, result),
            Ok(event) => (
                Run {
                    configuration: next,
                    input: if self.configuration.awaits_input() {
                        self.input.drop_first()
                    } else {
                        self.input
                    },
                    output: match event {
                        Event::Output(byte) => self.output.push(byte),
                        _ => self.output,
                    },
                },
                result,
            ),
        }
    }

    /// At most `limit` steps: where the run stands then, and whether the
    /// program has ended (`Ok(true)`), has steps left to take (`Ok(false)`),
    /// or has failed.
    pub open spec fn steps(self, limit: nat) -> (Run, Result<bool, RuntimeError>)
        decreases limit,
    {
        if self.configuration.halted() {
            (self, Ok(true))
        } else if limit == 0 {
            (self, Ok(false))
        } else {
            match self.step() {
                (_, Err(error)) => (self, Err(error)),
                (next, Ok(_)) => next.steps((limit - 1) as nat),
            }
        }
    }
}

/// A run that comes to a read with no input pending fails there, whatever
/// the number of steps it may still take.
pub proof fn run_without_input_fails(run: Run, limit: nat)
    requires
        run.configuration.in_bounds(),
        run.configuration.awaits_input(),
        run.input.len() == 0,
        limit > 0,
    ensures
        run.steps(limit) == (run, Err::<bool, RuntimeError>(RuntimeError::InputExhausted)),
{
}

/// One step, taken as a run of at most one step.
pub proof fn lemma_one_step(run: Run)
    ensures
        run.steps(1) == if run.configuration.halted() {
            (run, Ok::<bool, RuntimeError>(true))
        } else {
            match run.step() {
                (_, Err(error)) => (run, Err::<bool, RuntimeError>(error)),
                (next, Ok(_)) => (next, Ok::<bool, RuntimeError>(next.configuration.halted())),
            }
        },
{
    reveal_with_fuel(Run::steps, 2);
}

/// A run can be taken in two parts: `first + then` steps lead where `then`
/// steps lead from where `first` steps have led, unless the first part has
/// failed, which is then how the whole ends.
pub proof fn steps_can_be_resumed(run: Run, first: nat, then: nat)
    ensures
        run.steps(first + then) == match run.steps(first) {
            (mid, Ok(_)) => mid.steps(then),
            failed => failed,
        },
    decreases first,
{
    if run.configuration.halted() {
    } else if first == 0 {
    } else {
        match run.step() {
            (_, Err(_)) => {},
            (next, Ok(_)) => {
                steps_can_be_resumed(next, (first - 1) as nat, then);
            },
        }
    }
}

/// Once a run has ended or failed, a greater limit changes nothing.
pub proof fn steps_beyond_the_end_change_nothing(run: Run, limit: nat, more: nat)
    requires
        run.steps(limit).1 != Ok::<bool, RuntimeError>(false),
    ensures
        run.steps(limit + more) == run.steps(limit),
    decreases limit,
{
    if run.configuration.halted() {
    } else if limit == 0 {
    } else {
        match run.step() {
            (_, Err(_)) => {},
            (next, Ok(_)) => {
                steps_beyond_the_end_change_nothing(next, (limit - 1) as nat, more);
            },
        }
    }
}

/// However far a run goes, the tape keeps its length, a data pointer on the
/// tape stays on it, the output so far is kept at the front of the output,
/// and the pending input is the end of the pending input before.
pub proof fn steps_keep_tape_and_streams(run: Run, limit: nat)
    ensures
        ({
            let end = run.steps(limit).0;
            &&& end.configuration.tape.len() == run.configuration.tape.len()
            &&& run.configuration.in_bounds() ==> end.configuration.in_bounds()
            &&& run.output.is_prefix_of(end.output)
            &&& end.input.is_suffix_of(run.input)
        }),
    decreases limit,
{
    if run.configuration.halted() || limit == 0 {
    } else {
        match run.step() {
            (_, Err(_)) => {},
            (next, Ok(_)) => {
                steps_keep_tape_and_streams(next, (limit - 1) as nat);
            },
        }
    }
}

/// A position in an instruction sequence that the machine borrows.
struct Frame<'a> {
    code: &'a Vec<Instruction>,
    next: usize,
}

impl<'a> View for Frame<'a> {
    type V = Position;

    closed spec fn view(&self) -> Position {
        Position { code: self.code@, next: self.next as int }
    }
}

/// An execution in progress. It owns the tape and borrows the program.
pub struct Machine<'a> {
    tape: Vec<u8>,
    pointer: usize,
    frames: Vec<Frame<'a>>,
}

impl<'a> View for Machine<'a> {
    type V = Configuration;

    closed spec fn view(&self) -> Configuration {
        Configuration {
            tape: self.tape@,
            pointer: self.pointer as int,
            frames: self.frames@.map_values(|frame: Frame<'a>| frame@),
        }
    }
}

impl<'a> Machine<'a> {
    /// Sets `program` up to run on `tape` with the data pointer at `pointer`.
    pub fn new(program: &'a Vec<Instruction>, tape: Vec<u8>, pointer: usize) -> (machine: Machine<'a>)
        ensures
            machine@ == Configuration::initial(program@, tape@, pointer as int),
    {
        let mut frames: Vec<Frame<'a>> = Vec::new();
        frames.push(Frame { code: program, next: 0 });
        let machine = Machine { tape, pointer, frames };
        assert(machine@.frames == seq![Position { code: program@, next: 0 }]);
        machine
    }

    /// Executes one step. See [`Configuration::step`].
    pub fn step(&mut self, input: Option<u8>) -> (result: Result<Event, RuntimeError>)
        ensures
            (final(self)@, result) == old(self)@.step(input),
    {
        let depth = self.frames.len();
        if depth == 0 {
            return Ok(Event::Halted);
        }
        let code = self.frames[depth - 1].code;
        let next = self.frames[depth - 1].next;
        if next >= code.len() {
            self.frames.pop();
            assert(self@.frames == old(self)@.frames.drop_last());
            return Ok(Event::Advanced);
        }
        let length = self.tape.len();
        let mut event = Event::Advanced;
        match &code[next] {
            Instruction::PlusP => {
                if length == 0 || self.pointer >= length - 1 {
                    return Err(RuntimeError::PointerOutOfBounds);
                }
                self.pointer = self.pointer + 1;
            },
            Instruction::MinusP => {
                if self.pointer == 0 || self.pointer - 1 >= length {
                    return Err(RuntimeError::PointerOutOfBounds);
                }
                self.pointer = self.pointer - 1;
            },
            _ if self.pointer >= length => {
                return Err(RuntimeError::PointerOutOfBounds);
            },
            Instruction::Plus => {
                let cell = self.tape[self.pointer];
                self.tape.set(self.pointer, cell.wrapping_add(1));
            },
            Instruction::Minus => {
                let cell = self.tape[self.pointer];
                self.tape.set(self.pointer, cell.wrapping_sub(1));
            },
            Instruction::Write => {
                event = Event::Output(self.tape[self.pointer]);
            },
            Instruction::Read => {
                match input {
                    Some(byte) => {
                        self.tape.set(self.pointer, byte);
                    },
                    None => {
                        return Err(RuntimeError::InputExhausted);
                    },
                }
            },
            Instruction::Loop(body) => {
                if self.tape[self.pointer] != 0 {
                    self.frames.push(Frame { code: body, next: 0 });
                    assert(self@.frames == old(self)@.frames.push(Position { code: body@, next: 0 }));
                    return Ok(Event::Advanced);
                }
            },
        }
        self.frames.set(depth - 1, Frame { code, next: next + 1 });
        assert(self@.frames == old(self)@.frames.update(
            depth - 1,
            Position { code: code@, next: next + 1 },
        ));
        Ok(event)
    }

    /// Whether the program has ended.
    pub fn is_halted(&self) -> (halted: bool)
        ensures
            halted == self@.halted(),
    {
        self.frames.len() == 0
    }

    /// Whether the next step consumes a byte of input.
    pub fn awaits_input(&self) -> (awaits: bool)
        ensures
            awaits == self@.awaits_input(),
    {
        let depth = self.frames.len();
        if depth == 0 {
            return false;
        }
        let frame = &self.frames[depth - 1];
        if frame.next >= frame.code.len() {
            return false;
        }
        match &frame.code[frame.next] {
            Instruction::Read => true,
            _ => false,
        }
    }

    /// The tape as it stands.
    pub fn tape(&self) -> (tape: &Vec<u8>)
        ensures
            tape@ == self@.tape,
    {
        &self.tape
    }

    /// The data pointer as it stands.
    pub fn pointer(&self) -> (pointer: usize)
        ensures
            pointer == self@.pointer,
    {
        self.pointer
    }

    /// Ends the execution and hands the tape back.
    pub fn into_tape(self) -> (tape: Vec<u8>)
        ensures
            tape@ == self@.tape,
    {
        self.tape
    }
}

} // verus!
