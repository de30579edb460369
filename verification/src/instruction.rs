//! The instruction tree and the structural parser that builds it.
use crate::brackets::{
    balanced, bracket_verdict_is_unique, depth, lemma_balanced_concat, lemma_balanced_enclosed,
    lemma_depth_bound, lemma_depth_concat, lemma_depth_step, lemma_enclosed_is_balanced,
    lemma_max_depth_concat, lemma_single_symbol, max_depth, never_negative, stray_end_at,
    unclosed_begin_at,
};
use crate::opcode::OpCode;
use vstd::pervasive::unreached;
use vstd::prelude::*;
use vstd::slice::slice_subrange;

verus! {

/// A parsed program element: a primitive, or a loop that owns its body.
#[derive(Debug, PartialEq, Eq)]
pub enum Instruction {
    /// Move the data pointer one cell to the right.
    PlusP,
    /// Move the data pointer one cell to the left.
    MinusP,
    /// Increment the current cell.
    Plus,
    /// Decrement the current cell.
    Minus,
    /// Write the current cell to the output.
    Write,
    /// Read one byte of input into the current cell.
    Read,
    /// Repeat the body while the current cell is not zero.
    Loop(Vec<Instruction>),
}

impl Instruction {
    /// The symbols that this instruction is written with.
    pub open spec fn symbols(self) -> Seq<OpCode>
        decreases self,
    {
        match self {
            Instruction::PlusP => seq![OpCode::PlusP],
            Instruction::MinusP => seq![OpCode::MinusP],
            Instruction::Plus => seq![OpCode::Plus],
            Instruction::Minus => seq![OpCode::Minus],
            Instruction::Write => seq![OpCode::Write],
            Instruction::Read => seq![OpCode::Read],
            Instruction::Loop(body) => seq![OpCode::LoopBegin] + symbols_of(body@)
                + seq![OpCode::LoopEnd],
        }
    }

    /// How deeply loops are nested in this instruction: 0 for a primitive.
    pub open spec fn nesting(self) -> nat
        decreases self,
    {
        match self {
            Instruction::Loop(body) => 1 + nesting_of(body@),
            _ => 0,
        }
    }
}

/// The symbols that a program is written with: those of its instructions, in order.
pub open spec fn symbols_of(program: Seq<Instruction>) -> Seq<OpCode>
    decreases program,
{
    if program.len() == 0 {
        Seq::empty()
    } else {
        symbols_of(program.drop_last()) + program.last().symbols()
    }
}

/// The deepest loop nesting among the instructions of a program.
pub open spec fn nesting_of(program: Seq<Instruction>) -> nat
    decreases program,
{
    if program.len() == 0 {
        0
    } else {
        let before = nesting_of(program.drop_last());
        let last = program.last().nesting();
        if before >= last {
            before
        } else {
            last
        }
    }
}

/// Why a symbol sequence is not a program.
#[derive(Clone, Copy, Debug, PartialEq, Eq, Structural)]
pub enum ParseError {
    /// The loop end at `offset` has no loop begin to close.
    LoopEndWithoutBegin { offset: usize },
    /// The loop begin at `offset` is never closed.
    LoopBeginWithoutEnd { offset: usize },
}

/// The offset that a failed parse reports.
spec fn error_offset(result: Result<Vec<Instruction>, ParseError>) -> int {
    match result {
        Ok(_) => 0,
        Err(ParseError::LoopEndWithoutBegin { offset }) => offset as int,
        Err(ParseError::LoopBeginWithoutEnd { offset }) => offset as int,
    }
}

/// Appending an instruction appends its symbols.
pub proof fn lemma_symbols_push(program: Seq<Instruction>, instruction: Instruction)
    ensures
        symbols_of(program.push(instruction)) == symbols_of(program) + instruction.symbols(),
{
    assert(program.push(instruction).drop_last() == program);
}

/// The symbols of one instruction are balanced and not empty, and their
/// deepest bracket nesting is the loop nesting of the instruction.
pub proof fn instruction_structure(instruction: Instruction)
    ensures
        balanced(instruction.symbols()),
        instruction.symbols().len() >= 1,
        max_depth(instruction.symbols()) == instruction.nesting(),
    decreases instruction,
{
    match instruction {
        Instruction::Loop(body) => {
            program_structure(body@);
            lemma_balanced_enclosed(symbols_of(body@));
        },
        _ => {
            let op = instruction.symbols()[0];
            lemma_single_symbol(op);
            assert forall|k: int| 0 <= k <= 1 implies depth(
                #[trigger] instruction.symbols().take(k),
            ) >= 0 by {
                if k == 1 {
                    assert(instruction.symbols().take(k) == instruction.symbols());
                }
            }
        },
    }
}

/// Whatever the program, its symbols are balanced, it has no more
/// instructions than symbols, and the deepest bracket nesting of its symbols
/// is the deepest loop nesting of its instructions.
pub proof fn program_structure(program: Seq<Instruction>)
    ensures
        balanced(symbols_of(program)),
        symbols_of(program).len() >= program.len(),
        max_depth(symbols_of(program)) == nesting_of(program),
    decreases program,
{
    if program.len() > 0 {
        let before = symbols_of(program.drop_last());
        let last = program.last().symbols();
        program_structure(program.drop_last());
        instruction_structure(program.last());
        lemma_balanced_concat(before, last);
        lemma_max_depth_concat(before, last);
    }
}

/// Two instructions are the same tree: the same primitive, or loops whose
/// bodies are the same program.
pub open spec fn same_instruction(a: Instruction, b: Instruction) -> bool
    decreases a,
{
    match (a, b) {
        (Instruction::Loop(x), Instruction::Loop(y)) => same_program(x@, y@),
        (Instruction::Loop(_), _) => false,
        (_, Instruction::Loop(_)) => false,
        _ => a == b,
    }
}

/// Two programs are the same: as long as each other, and instruction by
/// instruction the same tree.
pub open spec fn same_program(p: Seq<Instruction>, q: Seq<Instruction>) -> bool
    decreases p,
{
    &&& p.len() == q.len()
    &&& forall|i: int| 0 <= i < p.len() ==> same_instruction(#[trigger] p[i], q[i])
}

/// Instructions that are the same tree are written with the same symbols.
pub proof fn same_instruction_same_symbols(a: Instruction, b: Instruction)
    requires
        same_instruction(a, b),
    ensures
        a.symbols() == b.symbols(),
    decreases a,
{
    match (a, b) {
        (Instruction::Loop(x), Instruction::Loop(y)) => {
            same_program_same_symbols(x@, y@);
        },
        _ => {},
    }
}

/// Programs that are the same are written with the same symbols.
pub proof fn same_program_same_symbols(p: Seq<Instruction>, q: Seq<Instruction>)
    requires
        same_program(p, q),
    ensures
        symbols_of(p) == symbols_of(q),
    decreases p,
{
    if p.len() > 0 {
        same_program_same_symbols(p.drop_last(), q.drop_last());
        same_instruction_same_symbols(p.last(), q.last());
    }
}

/// After a balanced sequence, the symbols of one instruction start at depth
/// 0 and stay at least one level deep until their last symbol.
proof fn lemma_last_instruction_starts(before: Seq<OpCode>, instruction: Instruction)
    requires
        balanced(before),
    ensures
        ({
            let whole = before + instruction.symbols();
            &&& depth(whole.take(before.len() as int)) == 0
            &&& forall|k: int|
                before.len() < k < whole.len() ==> depth(#[trigger] whole.take(k)) >= 1
        }),
{
    let last = instruction.symbols();
    let whole = before + last;
    assert(whole.take(before.len() as int) == before);
    match instruction {
        Instruction::Loop(body) => {
            program_structure(body@);
            lemma_balanced_enclosed(symbols_of(body@));
            assert forall|k: int| before.len() < k < whole.len() implies depth(
                #[trigger] whole.take(k),
            ) >= 1 by {
                assert(whole.take(k) == before + last.take(k - before.len()));
                lemma_depth_concat(before, last.take(k - before.len()));
            }
        },
        _ => {},
    }
}

/// Instructions written with the same symbols are the same tree.
pub proof fn same_symbols_same_instruction(a: Instruction, b: Instruction)
    requires
        a.symbols() == b.symbols(),
    ensures
        same_instruction(a, b),
    decreases a,
{
    let written = a.symbols();
    assert(written[0] == b.symbols()[0]);
    match (a, b) {
        (Instruction::Loop(x), Instruction::Loop(y)) => {
            assert(symbols_of(x@) == written.subrange(1, written.len() - 1));
            assert(symbols_of(y@) == b.symbols().subrange(1, b.symbols().len() - 1));
            same_symbols_same_program(x@, y@);
        },
        _ => {},
    }
}

/// Programs written with the same symbols are the same: a symbol sequence
/// is the text of at most one program.
pub proof fn same_symbols_same_program(p: Seq<Instruction>, q: Seq<Instruction>)
    requires
        symbols_of(p) == symbols_of(q),
    ensures
        same_program(p, q),
    decreases p,
{
    program_structure(p);
    program_structure(q);
    if p.len() == 0 {
    } else if q.len() == 0 {
        instruction_structure(p.last());
    } else {
        let whole = symbols_of(p);
        let (p_front, a) = (p.drop_last(), p.last());
        let (q_front, b) = (q.drop_last(), q.last());
        let (sp, sq) = (symbols_of(p_front), symbols_of(q_front));
        program_structure(p_front);
        program_structure(q_front);
        instruction_structure(a);
        instruction_structure(b);
        lemma_last_instruction_starts(sp, a);
        lemma_last_instruction_starts(sq, b);
        assert(sp == whole.take(sp.len() as int));
        assert(sq == whole.take(sq.len() as int));
        assert(a.symbols() == whole.skip(sp.len() as int));
        assert(b.symbols() == whole.skip(sq.len() as int));
        same_symbols_same_program(p_front, q_front);
        same_symbols_same_instruction(a, b);
        assert forall|i: int| 0 <= i < p.len() implies same_instruction(#[trigger] p[i], q[i]) by {
            if i < p.len() - 1 {
                assert(p[i] == p_front[i]);
            }
        }
    }
}

/// Text without any of the eight symbols has no tokens; the empty symbol
/// sequence is balanced, and the only program written with it is the empty
/// one.
pub proof fn text_without_symbols_is_the_empty_program(text: Seq<char>)
    requires
        forall|i: int| 0 <= i < text.len() ==> OpCode::of_char(#[trigger] text[i]) is None,
    ensures
        OpCode::tokens(text) == Seq::<OpCode>::empty(),
        balanced(OpCode::tokens(text)),
        forall|program: Seq<Instruction>| #[trigger]
            symbols_of(program) == OpCode::tokens(text) ==> program.len() == 0,
    decreases text.len(),
{
    if text.len() > 0 {
        let shorter = text.drop_last();
        assert forall|i: int| 0 <= i < shorter.len() implies OpCode::of_char(
            #[trigger] shorter[i],
        ) is None by {}
        text_without_symbols_is_the_empty_program(shorter);
    }
    let none = Seq::<OpCode>::empty();
    assert forall|program: Seq<Instruction>| #[trigger]
        symbols_of(program) == none implies program.len() == 0 by {
        program_structure(program);
    }
}

impl Instruction {
    /// Parses a flat symbol sequence into a program.
    ///
    /// Succeeds exactly on balanced sequences, and the program it returns is
    /// the one that is written with exactly these symbols. Otherwise it
    /// reports the first stray loop end, or, if there is none, the outermost
    /// loop begin that is left open.
    pub fn from(opcodes: Vec<OpCode>) -> (result: Result<Vec<Instruction>, ParseError>)
        ensures
            result is Ok <==> balanced(opcodes@),
            result matches Ok(program) ==> symbols_of(program@) == opcodes@ && nesting_of(program@)
                == max_depth(opcodes@),
            forall|offset: usize| #[trigger]
                stray_end_at(opcodes@, offset as int) <==> result == Err::<
                    Vec<Instruction>,
                    ParseError,
                >(ParseError::LoopEndWithoutBegin { offset }),
            forall|offset: usize| #[trigger]
                unclosed_begin_at(opcodes@, offset as int) <==> result == Err::<
                    Vec<Instruction>,
                    ParseError,
                >(ParseError::LoopBeginWithoutEnd { offset }),
    {
        let result = Self::parse(opcodes.as_slice());
        proof {
            if result is Ok {
                program_structure(result->Ok_0@);
            }
            assert forall|offset: usize| #[trigger]
                stray_end_at(opcodes@, offset as int) <==> result == Err::<
                    Vec<Instruction>,
                    ParseError,
                >(ParseError::LoopEndWithoutBegin { offset }) by {
                bracket_verdict_is_unique(opcodes@, offset as int, error_offset(result));
            }
            assert forall|offset: usize| #[trigger]
                unclosed_begin_at(opcodes@, offset as int) <==> result == Err::<
                    Vec<Instruction>,
                    ParseError,
                >(ParseError::LoopBeginWithoutEnd { offset }) by {
                bracket_verdict_is_unique(opcodes@, offset as int, error_offset(result));
                bracket_verdict_is_unique(opcodes@, error_offset(result), offset as int);
            }
        }
        result
    }

    /// One left-to-right scan that keeps the nesting depth and the offset of
    /// the loop begin that opened the current outermost loop; the span inside
    /// a closed outermost loop is parsed by a recursive call.
    fn parse(opcodes: &[OpCode]) -> (result: Result<Vec<Instruction>, ParseError>)
        ensures
            result is Ok <==> balanced(opcodes@),
            match result {
                Ok(program) => symbols_of(program@) == opcodes@,
                Err(ParseError::LoopEndWithoutBegin { offset }) => stray_end_at(
                    opcodes@,
                    offset as int,
                ),
                Err(ParseError::LoopBeginWithoutEnd { offset }) => unclosed_begin_at(
                    opcodes@,
                    offset as int,
                ),
            },
        decreases opcodes@.len(),
    {
        let ghost ops = opcodes@;
        let mut program: Vec<Instruction> = Vec::new();
        let mut loop_stack: usize = 0;
        let mut loop_start: usize = 0;
        let mut i: usize = 0;
        while i < opcodes.len()
            invariant
                ops == opcodes@,
                i <= ops.len(),
                never_negative(ops, i as int),
                loop_stack == depth(ops.take(i as int)),
                loop_stack == 0 ==> symbols_of(program@) == ops.take(i as int),
                loop_stack > 0 ==> {
                    &&& loop_start < i
                    &&& ops[loop_start as int] == OpCode::LoopBegin
                    &&& depth(ops.take(loop_start as int)) == 0
                    &&& symbols_of(program@) == ops.take(loop_start as int)
                    &&& forall|k: int|
                        loop_start < k <= i ==> depth(#[trigger] ops.take(k)) >= 1
                },
            decreases ops.len() - i,
        {
            let op = opcodes[i];
            proof {
                lemma_depth_step(ops, i as int);
                lemma_depth_bound(ops.take(i as int));
            }
            if loop_stack == 0 {
                let instr = match op {
                    OpCode::PlusP => Some(Instruction::PlusP),
                    OpCode::MinusP => Some(Instruction::MinusP),
                    OpCode::Plus => Some(Instruction::Plus),
                    OpCode::Minus => Some(Instruction::Minus),
                    OpCode::Write => Some(Instruction::Write),
                    OpCode::Read => Some(Instruction::Read),
                    OpCode::LoopBegin => {
                        loop_start = i;
                        loop_stack += 1;
                        None
                    },
                    OpCode::LoopEnd => {
                        return Err(ParseError::LoopEndWithoutBegin { offset: i });
                    },
                };
                match instr {
                    Some(instr) => {
                        proof {
                            lemma_symbols_push(program@, instr);
                        }
                        program.push(instr);
                    },
                    None => (),
                }
            } else {
                match op {
                    OpCode::LoopBegin => {
                        loop_stack += 1;
                    },
                    OpCode::LoopEnd => {
                        loop_stack -= 1;
                        if loop_stack == 0 {
                            proof {
                                lemma_enclosed_is_balanced(ops, loop_start as int, i as int);
                            }
                            let inner = slice_subrange(opcodes, loop_start + 1, i);
                            let body = match Self::parse(inner) {
                                Ok(body) => body,
                                // What lies between matched delimiters is balanced.
                                Err(_) => unreached(),
                            };
                            let repeat = Instruction::Loop(body);
                            proof {
                                lemma_symbols_push(program@, repeat);
                                assert(ops.take(i + 1) == ops.take(loop_start as int)
                                    + repeat.symbols());
                            }
                            program.push(repeat);
                        }
                    },
                    _ => (),
                }
            }
            i += 1;
        }
        assert(ops.take(i as int) == ops);
        if loop_stack != 0 {
            return Err(ParseError::LoopBeginWithoutEnd { offset: loop_start });
        }
        Ok(program)
    }
}

/// Copies a program, instruction by instruction.
pub fn clone_program(program: &Vec<Instruction>) -> (copy: Vec<Instruction>)
    ensures
        same_program(program@, copy@),
    decreases program,
{
    let mut copy: Vec<Instruction> = Vec::new();
    let mut i: usize = 0;
    while i < program.len()
        invariant
            i <= program.len(),
            copy.len() == i,
            forall|k: int| 0 <= k < i ==> same_instruction(#[trigger] program@[k], copy@[k]),
        decreases program.len() - i,
    {
        let instruction = program[i].clone();
        copy.push(instruction);
        i += 1;
    }
    copy
}

impl Clone for Instruction {
    /// Copies the whole tree.
    fn clone(&self) -> (copy: Instruction)
        ensures
            same_instruction(*self, copy),
        decreases self,
    {
        match self {
            Instruction::PlusP => Instruction::PlusP,
            Instruction::MinusP => Instruction::MinusP,
            Instruction::Plus => Instruction::Plus,
            Instruction::Minus => Instruction::Minus,
            Instruction::Write => Instruction::Write,
            Instruction::Read => Instruction::Read,
            Instruction::Loop(body) => Instruction::Loop(clone_program(body)),
        }
    }
}

} // verus!
