//! What a program computes, stated directly on the instruction tree; the
//! proof that the machine computes just that; and `run`, which drives the
//! machine over input and output held in memory.
use crate::instruction::{same_instruction, same_program, Instruction};
use crate::machine::{
    decremented, incremented, lemma_one_step, steps_beyond_the_end_change_nothing,
    steps_can_be_resumed, Configuration, Event, Machine, Position, Run, RuntimeError,
};
use vstd::prelude::*;

verus! {

/// Everything a program can read or change: the tape, the data pointer, the
/// input that is still to be read and the output written so far.
pub struct Store {
    pub tape: Seq<u8>,
    pub pointer: int,
    pub input: Seq<u8>,
    pub output: Seq<u8>,
}

impl Store {
    /// The data pointer addresses a cell of the tape.
    pub open spec fn in_bounds(self) -> bool {
        0 <= self.pointer < self.tape.len()
    }

    /// The cell under the data pointer.
    pub open spec fn cell(self) -> u8 {
        self.tape[self.pointer]
    }

    /// The same store with `value` in the cell under the data pointer.
    pub open spec fn with_cell(self, value: u8) -> Store {
        Store { tape: self.tape.update(self.pointer, value), ..self }
    }

    /// The same store with the data pointer at `pointer`.
    pub open spec fn with_pointer(self, pointer: int) -> Store {
        Store { pointer, ..self }
    }

    /// The run in which the machine holds this store and stands at `frames`.
    pub open spec fn at(self, frames: Seq<Position>) -> Run {
        Run {
            configuration: Configuration { tape: self.tape, pointer: self.pointer, frames },
            input: self.input,
            output: self.output,
        }
    }
}

impl Run {
    /// The store of a run: all of it but the place in the program.
    pub open spec fn store(self) -> Store {
        Store {
            tape: self.configuration.tape,
            pointer: self.configuration.pointer,
            input: self.input,
            output: self.output,
        }
    }
}

/// How an evaluation ends. `steps` is the number of steps that the machine
/// takes for the same work.
pub enum Outcome {
    /// The instructions ran to their end and left this store.
    Finished { store: Store, steps: nat },
    /// An instruction failed in this store, which it left unchanged.
    Failed { store: Store, error: RuntimeError, steps: nat },
    /// A loop needed more passes than the fuel allowed.
    OutOfFuel,
}

impl Outcome {
    /// The same outcome after `steps` earlier steps.
    pub open spec fn later(self, steps: nat) -> Outcome {
        match self {
            Outcome::Finished { store, steps: more } => Outcome::Finished {
                store,
                steps: steps + more,
            },
            Outcome::Failed { store, error, steps: more } => Outcome::Failed {
                store,
                error,
                steps: steps + more,
            },
            Outcome::OutOfFuel => Outcome::OutOfFuel,
        }
    }
}

/// Evaluates one instruction.
///
/// A move fails if its target is not on the tape; any use of the current
/// cell fails if the data pointer is not on the tape; a read fails if no
/// input is left. A loop is evaluated by [`evaluate_loop`].
pub open spec fn evaluate_one(instruction: Instruction, store: Store, fuel: nat) -> Outcome
    decreases fuel, instruction,
{
    let out_of_bounds = Outcome::Failed {
        store,
        error: RuntimeError::PointerOutOfBounds,
        steps: 1,
    };
    match instruction {
        Instruction::PlusP => if store.with_pointer(store.pointer + 1).in_bounds() {
            Outcome::Finished { store: store.with_pointer(store.pointer + 1), steps: 1 }
        } else {
            out_of_bounds
        },
        Instruction::MinusP => if store.with_pointer(store.pointer - 1).in_bounds() {
            Outcome::Finished { store: store.with_pointer(store.pointer - 1), steps: 1 }
        } else {
            out_of_bounds
        },
        Instruction::Plus => if store.in_bounds() {
            Outcome::Finished { store: store.with_cell(incremented(store.cell())), steps: 1 }
        } else {
            out_of_bounds
        },
        Instruction::Minus => if store.in_bounds() {
            Outcome::Finished { store: store.with_cell(decremented(store.cell())), steps: 1 }
        } else {
            out_of_bounds
        },
        Instruction::Write => if store.in_bounds() {
            Outcome::Finished {
                store: Store { output: store.output.push(store.cell()), ..store },
                steps: 1,
            }
        } else {
            out_of_bounds
        },
        Instruction::Read => if !store.in_bounds() {
            out_of_bounds
        } else if store.input.len() > 0 {
            Outcome::Finished {
                store: Store { input: store.input.drop_first(), ..store.with_cell(store.input[0]) },
                steps: 1,
            }
        } else {
            Outcome::Failed { store, error: RuntimeError::InputExhausted, steps: 1 }
        },
        Instruction::Loop(body) => evaluate_loop(body@, store, fuel),
    }
}

/// Evaluates a loop: while the current cell is not zero, the whole body is
/// evaluated, and the cell is tested again after each full pass. Each pass
/// takes one unit of fuel.
pub open spec fn evaluate_loop(body: Seq<Instruction>, store: Store, fuel: nat) -> Outcome
    decreases fuel, body,
{
    if !store.in_bounds() {
        Outcome::Failed { store, error: RuntimeError::PointerOutOfBounds, steps: 1 }
    } else if store.cell() == 0 {
        Outcome::Finished { store, steps: 1 }
    } else if fuel == 0 {
        Outcome::OutOfFuel
    } else {
        match evaluate(body, store, (fuel - 1) as nat) {
            Outcome::Finished { store: after, steps } => evaluate_loop(
                body,
                after,
                (fuel - 1) as nat,
            ).later(steps + 2),
            Outcome::Failed { store: at, error, steps } => Outcome::Failed {
                store: at,
                error,
                steps: steps + 1,
            },
            Outcome::OutOfFuel => Outcome::OutOfFuel,
        }
    }
}

/// Evaluates a sequence of instructions in order; the first failure ends it.
pub open spec fn evaluate(program: Seq<Instruction>, store: Store, fuel: nat) -> Outcome
    decreases fuel, program,
{
    if program.len() == 0 {
        Outcome::Finished { store, steps: 0 }
    } else {
        match evaluate_one(program.first(), store, fuel) {
            Outcome::Finished { store: after, steps } => evaluate(
                program.drop_first(),
                after,
                fuel,
            ).later(steps),
            failed => failed,
        }
    }
}

/// More fuel does not change how the evaluation of an instruction ends.
proof fn lemma_more_fuel_one(instruction: Instruction, store: Store, fuel: nat, more: nat)
    requires
        !(evaluate_one(instruction, store, fuel) is OutOfFuel),
    ensures
        evaluate_one(instruction, store, fuel + more) == evaluate_one(instruction, store, fuel),
    decreases fuel, instruction,
{
    match instruction {
        Instruction::Loop(body) => {
            lemma_more_fuel_loop(body@, store, fuel, more);
        },
        _ => {},
    }
}

/// More fuel does not change how the evaluation of a loop ends.
proof fn lemma_more_fuel_loop(body: Seq<Instruction>, store: Store, fuel: nat, more: nat)
    requires
        !(evaluate_loop(body, store, fuel) is OutOfFuel),
    ensures
        evaluate_loop(body, store, fuel + more) == evaluate_loop(body, store, fuel),
    decreases fuel, body,
{
    if store.in_bounds() && store.cell() != 0 {
        let less = (fuel - 1) as nat;
        more_fuel_same_outcome(body, store, less, more);
        match evaluate(body, store, less) {
            Outcome::Finished { store: after, steps } => {
                lemma_more_fuel_loop(body, after, less, more);
            },
            _ => {},
        }
    }
}

/// An evaluation that has ended ends the same way with more fuel: fuel only
/// bounds the number of passes through loops.
pub proof fn more_fuel_same_outcome(program: Seq<Instruction>, store: Store, fuel: nat, more: nat)
    requires
        !(evaluate(program, store, fuel) is OutOfFuel),
    ensures
        evaluate(program, store, fuel + more) == evaluate(program, store, fuel),
    decreases fuel, program,
{
    if program.len() > 0 {
        lemma_more_fuel_one(program.first(), store, fuel, more);
        match evaluate_one(program.first(), store, fuel) {
            Outcome::Finished { store: after, steps } => {
                more_fuel_same_outcome(program.drop_first(), after, fuel, more);
            },
            _ => {},
        }
    }
}

/// Instructions that are the same tree are evaluated alike.
proof fn lemma_same_instruction_same_outcome(
    a: Instruction,
    b: Instruction,
    store: Store,
    fuel: nat,
)
    requires
        same_instruction(a, b),
    ensures
        evaluate_one(a, store, fuel) == evaluate_one(b, store, fuel),
    decreases fuel, a,
{
    match (a, b) {
        (Instruction::Loop(x), Instruction::Loop(y)) => {
            lemma_same_body_same_outcome(x@, y@, store, fuel);
        },
        _ => {},
    }
}

/// Loops whose bodies are the same program are evaluated alike.
proof fn lemma_same_body_same_outcome(
    p: Seq<Instruction>,
    q: Seq<Instruction>,
    store: Store,
    fuel: nat,
)
    requires
        same_program(p, q),
    ensures
        evaluate_loop(p, store, fuel) == evaluate_loop(q, store, fuel),
    decreases fuel, p,
{
    if store.in_bounds() && store.cell() != 0 && fuel > 0 {
        let less = (fuel - 1) as nat;
        same_program_same_outcome(p, q, store, less);
        match evaluate(p, store, less) {
            Outcome::Finished { store: after, steps } => {
                lemma_same_body_same_outcome(p, q, after, less);
            },
            _ => {},
        }
    }
}

/// Programs that are the same are evaluated alike: what a program computes
/// depends on its instructions alone.
pub proof fn same_program_same_outcome(
    p: Seq<Instruction>,
    q: Seq<Instruction>,
    store: Store,
    fuel: nat,
)
    requires
        same_program(p, q),
    ensures
        evaluate(p, store, fuel) == evaluate(q, store, fuel),
    decreases fuel, p,
{
    if p.len() > 0 {
        lemma_same_instruction_same_outcome(p.first(), q.first(), store, fuel);
        assert(same_program(p.drop_first(), q.drop_first())) by {
            assert forall|i: int| 0 <= i < p.drop_first().len() implies same_instruction(
                #[trigger] p.drop_first()[i],
                q.drop_first()[i],
            ) by {}
        }
        match evaluate_one(p.first(), store, fuel) {
            Outcome::Finished { store: after, steps } => {
                same_program_same_outcome(p.drop_first(), q.drop_first(), after, fuel);
            },
            _ => {},
        }
    }
}

/// The frames of a machine that is inside `rest` and has done `next`
/// instructions of `code`.
spec fn standing(rest: Seq<Position>, code: Seq<Instruction>, next: int) -> Seq<Position> {
    rest.push(Position { code, next })
}

/// From `start` the machine does what `outcome` says: it takes `steps` steps
/// to the store of a finished outcome, where it stands at `frames`, or it
/// fails at its last step as a failed outcome does.
spec fn follows(start: Run, outcome: Outcome, frames: Seq<Position>) -> bool {
    match outcome {
        Outcome::Finished { store, steps } => start.steps(steps) == (
            store.at(frames),
            Ok::<bool, RuntimeError>(false),
        ),
        Outcome::Failed { store, error, steps } => {
            &&& start.steps(steps).0.store() == store
            &&& start.steps(steps).1 == Err::<bool, RuntimeError>(error)
        },
        Outcome::OutOfFuel => true,
    }
}

/// What the machine does from `mid` it does from `start`, `steps` steps later.
proof fn lemma_follows_later(
    start: Run,
    steps: nat,
    mid: Run,
    outcome: Outcome,
    frames: Seq<Position>,
)
    requires
        start.steps(steps) == (mid, Ok::<bool, RuntimeError>(false)),
        follows(mid, outcome, frames),
    ensures
        follows(start, outcome.later(steps), frames),
{
    match outcome {
        Outcome::Finished { store, steps: more } => {
            steps_can_be_resumed(start, steps, more);
        },
        Outcome::Failed { store, error, steps: more } => {
            steps_can_be_resumed(start, steps, more);
        },
        Outcome::OutOfFuel => {},
    }
}

/// The machine follows the evaluation of the instruction it stands before.
proof fn lemma_one(
    rest: Seq<Position>,
    code: Seq<Instruction>,
    next: int,
    store: Store,
    fuel: nat,
)
    requires
        0 <= next < code.len(),
    ensures
        follows(
            store.at(standing(rest, code, next)),
            evaluate_one(code[next], store, fuel),
            standing(rest, code, next + 1),
        ),
    decreases fuel, code[next], 0nat,
{
    let start = store.at(standing(rest, code, next));
    match code[next] {
        Instruction::Loop(body) => {
            lemma_loop(rest, code, next, store, fuel);
        },
        _ => {
            lemma_one_step(start);
            assert(start.configuration.advanced().frames == standing(rest, code, next + 1));
        },
    }
}

/// The machine follows the evaluation of the loop it stands before.
proof fn lemma_loop(
    rest: Seq<Position>,
    code: Seq<Instruction>,
    next: int,
    store: Store,
    fuel: nat,
)
    requires
        0 <= next < code.len(),
        code[next] is Loop,
    ensures
        follows(
            store.at(standing(rest, code, next)),
            evaluate_loop(code[next]->Loop_0@, store, fuel),
            standing(rest, code, next + 1),
        ),
    decreases fuel, code[next]->Loop_0@, 0nat,
{
    let body = code[next]->Loop_0@;
    let outside = standing(rest, code, next);
    let inside = standing(outside, body, 0);
    let done = standing(outside, body, body.len() as int);
    let after_loop = standing(rest, code, next + 1);
    let start = store.at(outside);
    lemma_one_step(start);
    assert(start.configuration.advanced().frames == after_loop);
    if store.in_bounds() && store.cell() != 0 && fuel > 0 {
        let less = (fuel - 1) as nat;
        lemma_sequence(outside, body, 0, store, less);
        assert(body.skip(0) == body);
        match evaluate(body, store, less) {
            Outcome::Finished { store: after, steps } => {
                let end_of_body = after.at(done);
                lemma_one_step(end_of_body);
                assert(end_of_body.configuration.frames.last() == Position {
                    code: body,
                    next: body.len() as int,
                });
                assert(end_of_body.configuration.left().frames == outside);
                assert(end_of_body.steps(1) == (
                    after.at(outside),
                    Ok::<bool, RuntimeError>(false),
                ));
                lemma_loop(rest, code, next, after, less);
                let again = evaluate_loop(body, after, less);
                lemma_follows_later(end_of_body, 1, after.at(outside), again, after_loop);
                lemma_follows_later(
                    store.at(inside),
                    steps,
                    end_of_body,
                    again.later(1),
                    after_loop,
                );
                lemma_follows_later(
                    start,
                    1,
                    store.at(inside),
                    again.later(1).later(steps),
                    after_loop,
                );
            },
            Outcome::Failed { store: at, error, steps } => {
                steps_can_be_resumed(start, 1, steps);
            },
            Outcome::OutOfFuel => {},
        }
    }
}

/// The machine follows the evaluation of the rest of the sequence it stands in.
proof fn lemma_sequence(
    rest: Seq<Position>,
    code: Seq<Instruction>,
    next: int,
    store: Store,
    fuel: nat,
)
    requires
        0 <= next <= code.len(),
    ensures
        follows(
            store.at(standing(rest, code, next)),
            evaluate(code.skip(next), store, fuel),
            standing(rest, code, code.len() as int),
        ),
    decreases fuel, code, code.len() - next,
{
    let start = store.at(standing(rest, code, next));
    let program = code.skip(next);
    if next < code.len() {
        assert(program.drop_first() == code.skip(next + 1));
        lemma_one(rest, code, next, store, fuel);
        match evaluate_one(code[next], store, fuel) {
            Outcome::Finished { store: after, steps } => {
                lemma_sequence(rest, code, next + 1, after, fuel);
                lemma_follows_later(
                    start,
                    steps,
                    after.at(standing(rest, code, next + 1)),
                    evaluate(code.skip(next + 1), after, fuel),
                    standing(rest, code, code.len() as int),
                );
            },
            _ => {},
        }
    }
}

/// The machine computes what evaluation says.
///
/// If evaluating `program` in `store` finishes, then the machine started on
/// the program in that store halts, in the store that evaluation ends in,
/// within one step more than `steps`. If evaluation fails, the machine fails
/// with the same error in the same store within `steps` steps. A greater
/// limit gives the same.
pub proof fn machine_follows_evaluation(
    program: Seq<Instruction>,
    store: Store,
    fuel: nat,
    limit: nat,
)
    ensures
        ({
            let start = Run::initial(
                program,
                store.tape,
                store.pointer,
                store.input,
                store.output,
            );
            match evaluate(program, store, fuel) {
                Outcome::Finished { store: end, steps } => limit > steps ==> start.steps(limit)
                    == (end.at(Seq::empty()), Ok::<bool, RuntimeError>(true)),
                Outcome::Failed { store: end, error, steps } => limit >= steps ==> {
                    &&& start.steps(limit).0.store() == end
                    &&& start.steps(limit).1 == Err::<bool, RuntimeError>(error)
                },
                Outcome::OutOfFuel => true,
            }
        }),
{
    let none = Seq::<Position>::empty();
    let start = Run::initial(program, store.tape, store.pointer, store.input, store.output);
    assert(program.skip(0) == program);
    lemma_sequence(none, program, 0, store, fuel);
    match evaluate(program, store, fuel) {
        Outcome::Finished { store: end, steps } => {
            if limit > steps {
                let last = end.at(standing(none, program, program.len() as int));
                lemma_one_step(last);
                assert(last.configuration.frames.last() == Position {
                    code: program,
                    next: program.len() as int,
                });
                assert(last.configuration.left().frames == none);
                steps_can_be_resumed(start, steps, 1);
                steps_beyond_the_end_change_nothing(
                    start,
                    steps + 1,
                    (limit - steps - 1) as nat,
                );
            }
        },
        Outcome::Failed { store: end, error, steps } => {
            if limit >= steps {
                steps_beyond_the_end_change_nothing(start, steps, (limit - steps) as nat);
            }
        },
        Outcome::OutOfFuel => {},
    }
}

/// A run that has neither ended nor failed within a limit has not done so
/// within a smaller one.
proof fn lemma_running_earlier(run: Run, limit: nat, more: nat)
    requires
        run.steps(limit + more).1 == Ok::<bool, RuntimeError>(false),
    ensures
        run.steps(limit).1 == Ok::<bool, RuntimeError>(false),
{
    if run.steps(limit).1 != Ok::<bool, RuntimeError>(false) {
        steps_beyond_the_end_change_nothing(run, limit, more);
    }
}

/// Where the evaluation of a loop runs out of fuel, the machine takes more
/// steps than there was fuel.
proof fn lemma_loop_out_of_fuel(
    rest: Seq<Position>,
    code: Seq<Instruction>,
    next: int,
    store: Store,
    fuel: nat,
)
    requires
        0 <= next < code.len(),
        code[next] is Loop,
        evaluate_loop(code[next]->Loop_0@, store, fuel) is OutOfFuel,
    ensures
        store.at(standing(rest, code, next)).steps(fuel).1 == Ok::<bool, RuntimeError>(false),
    decreases fuel, code[next]->Loop_0@, 0nat,
{
    let body = code[next]->Loop_0@;
    let outside = standing(rest, code, next);
    let inside = standing(outside, body, 0);
    let done = standing(outside, body, body.len() as int);
    let start = store.at(outside);
    if fuel > 0 {
        let less = (fuel - 1) as nat;
        lemma_one_step(start);
        assert(body.skip(0) == body);
        match evaluate(body, store, less) {
            Outcome::Finished { store: after, steps } => {
                let end_of_body = after.at(done);
                lemma_sequence(outside, body, 0, store, less);
                lemma_one_step(end_of_body);
                assert(end_of_body.configuration.frames.last() == Position {
                    code: body,
                    next: body.len() as int,
                });
                assert(end_of_body.configuration.left().frames == outside);
                lemma_loop_out_of_fuel(rest, code, next, after, less);
                steps_can_be_resumed(end_of_body, 1, less);
                steps_can_be_resumed(store.at(inside), steps, 1 + less);
                steps_can_be_resumed(start, 1, steps + 1 + less);
                lemma_running_earlier(start, fuel, steps + 1);
            },
            Outcome::OutOfFuel => {
                lemma_sequence_out_of_fuel(outside, body, 0, store, less);
                steps_can_be_resumed(start, 1, less);
            },
            Outcome::Failed { .. } => {},
        }
    }
}

/// Where the evaluation of the rest of a sequence runs out of fuel, the
/// machine takes more steps than there was fuel.
proof fn lemma_sequence_out_of_fuel(
    rest: Seq<Position>,
    code: Seq<Instruction>,
    next: int,
    store: Store,
    fuel: nat,
)
    requires
        0 <= next <= code.len(),
        evaluate(code.skip(next), store, fuel) is OutOfFuel,
    ensures
        store.at(standing(rest, code, next)).steps(fuel).1 == Ok::<bool, RuntimeError>(false),
    decreases fuel, code, code.len() - next,
{
    let start = store.at(standing(rest, code, next));
    let program = code.skip(next);
    assert(program.drop_first() == code.skip(next + 1));
    match evaluate_one(code[next], store, fuel) {
        Outcome::Finished { store: after, steps } => {
            lemma_one(rest, code, next, store, fuel);
            lemma_sequence_out_of_fuel(rest, code, next + 1, after, fuel);
            steps_can_be_resumed(start, steps, fuel);
            lemma_running_earlier(start, fuel, steps);
        },
        Outcome::OutOfFuel => {
            lemma_loop_out_of_fuel(rest, code, next, store, fuel);
        },
        Outcome::Failed { .. } => {},
    }
}

/// Evaluation says what the machine computes.
///
/// If the machine started on `program` in `store` halts within `limit`
/// steps, then evaluation with `limit` units of fuel finishes, in the store
/// in which the machine has halted. If the machine fails within `limit`
/// steps, evaluation fails with the same error in the same store.
pub proof fn evaluation_follows_machine(program: Seq<Instruction>, store: Store, limit: nat)
    ensures
        ({
            let start = Run::initial(
                program,
                store.tape,
                store.pointer,
                store.input,
                store.output,
            );
            match start.steps(limit) {
                (end, Ok(true)) => evaluate(program, store, limit) matches Outcome::Finished {
                    store: reached,
                    ..
                } && reached == end.store(),
                (end, Err(error)) => evaluate(program, store, limit) matches Outcome::Failed {
                    store: reached,
                    error: found,
                    ..
                } && reached == end.store() && found == error,
                (_, Ok(false)) => true,
            }
        }),
{
    let none = Seq::<Position>::empty();
    let start = Run::initial(program, store.tape, store.pointer, store.input, store.output);
    assert(program.skip(0) == program);
    if start.steps(limit).1 != Ok::<bool, RuntimeError>(false) {
        match evaluate(program, store, limit) {
            Outcome::Finished { store: reached, steps } => {
                machine_follows_evaluation(program, store, limit, steps + 1);
                if limit > steps {
                    machine_follows_evaluation(program, store, limit, limit);
                } else {
                    steps_beyond_the_end_change_nothing(
                        start,
                        limit,
                        (steps + 1 - limit) as nat,
                    );
                }
            },
            Outcome::Failed { store: reached, error, steps } => {
                machine_follows_evaluation(program, store, limit, steps);
                if limit >= steps {
                    machine_follows_evaluation(program, store, limit, limit);
                } else {
                    steps_beyond_the_end_change_nothing(start, limit, (steps - limit) as nat);
                }
            },
            Outcome::OutOfFuel => {
                lemma_sequence_out_of_fuel(none, program, 0, store, limit);
            },
        }
    }
}

/// Runs `instructions` on `tape` from `data_pointer`, reading from `input`
/// and appending to `output`, for at most `max_steps` steps of the machine.
/// A program may loop forever; the limit is what makes `run` return then.
///
/// Returns `Ok(true)` when the program has ended and `Ok(false)` when the
/// steps are used up before that; tape, pointer and output are then as the
/// steps taken have left them. On an error they are as they were when the
/// failing instruction was reached.
///
/// The contract gives the result twice: as what the steps of the machine
/// lead to, and as what [`evaluate`] says of the program. An evaluation that
/// ends within the steps allowed is what is returned, and a program that is
/// returned as ended or failed is evaluated so with `max_steps` units of
/// fuel.
pub fn run(
    instructions: &Vec<Instruction>,
    tape: &mut Vec<u8>,
    data_pointer: &mut usize,
    input: &Vec<u8>,
    output: &mut Vec<u8>,
    max_steps: usize,
) -> (result: Result<bool, RuntimeError>)
    ensures
        ({
            let start = Run::initial(
                instructions@,
                old(tape)@,
                *old(data_pointer) as int,
                input@,
                old(output)@,
            );
            let (end, ended) = start.steps(max_steps as nat);
            &&& result == ended
            &&& final(tape)@ == end.configuration.tape
            &&& *final(data_pointer) == end.configuration.pointer
            &&& final(output)@ == end.output
        }),
        ({
            let store = Store {
                tape: old(tape)@,
                pointer: *old(data_pointer) as int,
                input: input@,
                output: old(output)@,
            };
            &&& forall|fuel: nat|
                match #[trigger] evaluate(instructions@, store, fuel) {
                    Outcome::Finished { store: end, steps } => steps < max_steps ==> {
                        &&& result == Ok::<bool, RuntimeError>(true)
                        &&& final(tape)@ == end.tape
                        &&& *final(data_pointer) == end.pointer
                        &&& final(output)@ == end.output
                    },
                    Outcome::Failed { store: end, error, steps } => steps <= max_steps ==> {
                        &&& result == Err::<bool, RuntimeError>(error)
                        &&& final(tape)@ == end.tape
                        &&& *final(data_pointer) == end.pointer
                        &&& final(output)@ == end.output
                    },
                    Outcome::OutOfFuel => true,
                }
            &&& match result {
                Ok(true) => {
                    &&& evaluate(instructions@, store, max_steps as nat) matches Outcome::Finished {
                        store: end,
                        ..
                    }
                    &&& final(tape)@ == end.tape
                    &&& *final(data_pointer) == end.pointer
                    &&& final(output)@ == end.output
                },
                Err(error) => {
                    &&& evaluate(instructions@, store, max_steps as nat) matches Outcome::Failed {
                        store: end,
                        error: found,
                        ..
                    }
                    &&& found == error
                    &&& final(tape)@ == end.tape
                    &&& *final(data_pointer) == end.pointer
                    &&& final(output)@ == end.output
                },
                Ok(false) => true,
            }
        }),
{
    let ghost start = Run::initial(
        instructions@,
        tape@,
        *data_pointer as int,
        input@,
        output@,
    );
    let mut cells: Vec<u8> = Vec::new();
    std::mem::swap(tape, &mut cells);
    let mut machine = Machine::new(instructions, cells, *data_pointer);
    let mut consumed: usize = 0;
    let mut taken: usize = 0;
    let mut fault: Option<RuntimeError> = None;
    assert(input@.skip(0) == input@);
    while taken < max_steps && fault.is_none() && !machine.is_halted()
        invariant
            taken <= max_steps,
            consumed <= input@.len(),
            ({
                let now = Run {
                    configuration: machine@,
                    input: input@.skip(consumed as int),
                    output: output@,
                };
                match fault {
                    None => start.steps(max_steps as nat) == now.steps((max_steps - taken) as nat),
                    Some(error) => start.steps(max_steps as nat) == (now, Err::<bool, RuntimeError>(error)),
                }
            }),
        decreases max_steps - taken + if fault.is_none() { 1nat } else { 0nat },
    {
        let offered = if consumed < input.len() {
            Some(input[consumed])
        } else {
            None
        };
        let awaits = machine.awaits_input();
        match machine.step(offered) {
            Err(error) => {
                fault = Some(error);
            },
            Ok(event) => {
                if awaits {
                    assert(input@.skip(consumed as int).drop_first() == input@.skip(consumed + 1));
                    consumed = consumed + 1;
                }
                match event {
                    Event::Output(byte) => {
                        output.push(byte);
                    },
                    _ => (),
                }
                taken = taken + 1;
            },
        }
    }
    let halted = machine.is_halted();
    *data_pointer = machine.pointer();
    let mut cells = machine.into_tape();
    std::mem::swap(tape, &mut cells);
    proof {
        let store = Store {
            tape: start.configuration.tape,
            pointer: start.configuration.pointer,
            input: start.input,
            output: start.output,
        };
        assert forall|fuel: nat|
            match #[trigger] evaluate(instructions@, store, fuel) {
                Outcome::Finished { store: end, steps } => steps < max_steps ==> start.steps(
                    max_steps as nat,
                ) == (end.at(Seq::empty()), Ok::<bool, RuntimeError>(true)),
                Outcome::Failed { store: end, error, steps } => steps <= max_steps ==> {
                    &&& start.steps(max_steps as nat).0.store() == end
                    &&& start.steps(max_steps as nat).1 == Err::<bool, RuntimeError>(error)
                },
                Outcome::OutOfFuel => true,
            } by {
            machine_follows_evaluation(instructions@, store, fuel, max_steps as nat);
        }
        evaluation_follows_machine(instructions@, store, max_steps as nat);
    }
    match fault {
        Some(error) => Err(error),
        None => Ok(halted),
    }
}

} // verus!
