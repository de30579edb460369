//! The eight primitive symbols and the tokenizer that extracts them from text.
use vstd::prelude::*;

verus! {

/// A primitive operation symbol, as it appears in program text.
#[derive(Clone, Copy, Debug, PartialEq, Eq, Structural)]
pub enum OpCode {
    /// `>`: move the data pointer one cell to the right.
    PlusP,
    /// `<`: move the data pointer one cell to the left.
    MinusP,
    /// `+`: increment the current cell.
    Plus,
    /// `-`: decrement the current cell.
    Minus,
    /// `.`: write the current cell to the output.
    Write,
    /// `,`: read one byte of input into the current cell.
    Read,
    /// `[`: open a loop.
    LoopBegin,
    /// `]`: close a loop.
    LoopEnd,
}

impl OpCode {
    /// The symbol that a character stands for, if it stands for one.
    pub open spec fn of_char(c: char) -> Option<OpCode> {
        if c == '>' {
            Some(OpCode::PlusP)
        } else if c == '<' {
            Some(OpCode::MinusP)
        } else if c == '+' {
            Some(OpCode::Plus)
        } else if c == '-' {
            Some(OpCode::Minus)
        } else if c == '.' {
            Some(OpCode::Write)
        } else if c == ',' {
            Some(OpCode::Read)
        } else if c == '[' {
            Some(OpCode::LoopBegin)
        } else if c == ']' {
            Some(OpCode::LoopEnd)
        } else {
            None
        }
    }

    /// The symbols of a text, in source order; every other character is dropped.
    pub open spec fn tokens(text: Seq<char>) -> Seq<OpCode>
        decreases text.len(),
    {
        if text.len() == 0 {
            Seq::empty()
        } else {
            let before = Self::tokens(text.drop_last());
            match Self::of_char(text.last()) {
                Some(op) => before.push(op),
                None => before,
            }
        }
    }

    /// Decodes one character.
    pub fn decode(symbol: char) -> (op: Option<OpCode>)
        ensures
            op == Self::of_char(symbol),
    {
        match symbol {
            '>' => Some(OpCode::PlusP),
            '<' => Some(OpCode::MinusP),
            '+' => Some(OpCode::Plus),
            '-' => Some(OpCode::Minus),
            '.' => Some(OpCode::Write),
            ',' => Some(OpCode::Read),
            '[' => Some(OpCode::LoopBegin),
            ']' => Some(OpCode::LoopEnd),
            _ => None,
        }
    }

    /// Tokenizes program text: keeps the eight symbols in order and ignores
    /// everything else. Never fails.
    pub fn from(source: String) -> (operations: Vec<OpCode>)
        ensures
            operations@ == Self::tokens(source@),
    {
        let mut operations: Vec<OpCode> = Vec::new();
        for symbol in it: source.as_str().chars()
            invariant
                it.seq() == source@,
                operations@ == Self::tokens(source@.take(it.index() as int)),
        {
            assert(source@.take(it.index() + 1).drop_last() == source@.take(it.index() as int));
            match Self::decode(symbol) {
                Some(op) => operations.push(op),
                None => (),
            }
        }
        assert(source@.take(source@.len() as int) == source@);
        operations
    }
}

/// The tokens of a text are the tokens of its parts, in order: a character
/// stands for the same symbol wherever it is, and for one symbol at most.
pub proof fn tokens_of_concatenation(front: Seq<char>, back: Seq<char>)
    ensures
        OpCode::tokens(front + back) == OpCode::tokens(front) + OpCode::tokens(back),
        forall|c: char| #[trigger]
            OpCode::tokens(seq![c]) == match OpCode::of_char(c) {
                Some(op) => seq![op],
                None => Seq::<OpCode>::empty(),
            },
    decreases back.len(),
{
    if back.len() > 0 {
        assert((front + back).drop_last() == front + back.drop_last());
        tokens_of_concatenation(front, back.drop_last());
    }
    assert forall|c: char| #[trigger]
        OpCode::tokens(seq![c]) == match OpCode::of_char(c) {
            Some(op) => seq![op],
            None => Seq::<OpCode>::empty(),
        } by {
        let one = seq![c];
        assert(OpCode::tokens(one.drop_last()) == Seq::<OpCode>::empty());
    }
}

} // verus!
