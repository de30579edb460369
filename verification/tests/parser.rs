use bf_interpreter::instruction::{clone_program, Instruction, ParseError};
use bf_interpreter::opcode::OpCode;

fn parse(text: &str) -> Result<Vec<Instruction>, ParseError> {
    Instruction::from(OpCode::from(text.to_string()))
}

fn tree_depth(program: &Vec<Instruction>) -> usize {
    let mut deepest = 0;
    for instruction in program {
        if let Instruction::Loop(body) = instruction {
            deepest = deepest.max(1 + tree_depth(body));
        }
    }
    deepest
}

fn bracket_depth(text: &str) -> usize {
    let mut depth = 0usize;
    let mut deepest = 0usize;
    for symbol in text.chars() {
        if symbol == '[' {
            depth += 1;
            deepest = deepest.max(depth);
        } else if symbol == ']' {
            depth -= 1;
        }
    }
    deepest
}

fn unparse(program: &Vec<Instruction>, text: &mut String) {
    for instruction in program {
        match instruction {
            Instruction::PlusP => text.push('>'),
            Instruction::MinusP => text.push('<'),
            Instruction::Plus => text.push('+'),
            Instruction::Minus => text.push('-'),
            Instruction::Write => text.push('.'),
            Instruction::Read => text.push(','),
            Instruction::Loop(body) => {
                text.push('[');
                unparse(body, text);
                text.push(']');
            }
        }
    }
}

#[test]
fn empty_sequence_is_the_empty_program() {
    assert_eq!(Instruction::from(vec![]), Ok(vec![]));
}

#[test]
fn comment_only_text_is_the_empty_program() {
    assert_eq!(parse("no symbols at all"), Ok(vec![]));
}

#[test]
fn primitives_map_one_to_one() {
    assert_eq!(
        parse("><+-.,"),
        Ok(vec![
            Instruction::PlusP,
            Instruction::MinusP,
            Instruction::Plus,
            Instruction::Minus,
            Instruction::Write,
            Instruction::Read,
        ])
    );
}

#[test]
fn lone_loop_end_fails_at_offset_zero() {
    assert_eq!(parse("]"), Err(ParseError::LoopEndWithoutBegin { offset: 0 }));
}

#[test]
fn lone_loop_begin_fails_as_unmatched_begin() {
    assert_eq!(parse("["), Err(ParseError::LoopBeginWithoutEnd { offset: 0 }));
}

#[test]
fn empty_loop_is_one_repeat_node_with_empty_body() {
    assert_eq!(parse("[]"), Ok(vec![Instruction::Loop(vec![])]));
}

#[test]
fn loop_body_is_parsed_recursively() {
    assert_eq!(
        parse("+[->+<]"),
        Ok(vec![
            Instruction::Plus,
            Instruction::Loop(vec![
                Instruction::Minus,
                Instruction::PlusP,
                Instruction::Plus,
                Instruction::MinusP,
            ]),
        ])
    );
}

#[test]
fn nested_and_sibling_loops() {
    assert_eq!(
        parse("[[]+[-[.]]],[]"),
        Ok(vec![
            Instruction::Loop(vec![
                Instruction::Loop(vec![]),
                Instruction::Plus,
                Instruction::Loop(vec![
                    Instruction::Minus,
                    Instruction::Loop(vec![Instruction::Write]),
                ]),
            ]),
            Instruction::Read,
            Instruction::Loop(vec![]),
        ])
    );
}

#[test]
fn stray_end_offset_counts_symbols_not_characters() {
    assert_eq!(parse("+ + ]"), Err(ParseError::LoopEndWithoutBegin { offset: 2 }));
    assert_eq!(parse("[]]"), Err(ParseError::LoopEndWithoutBegin { offset: 2 }));
    assert_eq!(parse("[-]+[>]<]+"), Err(ParseError::LoopEndWithoutBegin { offset: 8 }));
}

#[test]
fn stray_end_is_reported_before_a_later_open_loop() {
    assert_eq!(parse("]["), Err(ParseError::LoopEndWithoutBegin { offset: 0 }));
    assert_eq!(parse("+][["), Err(ParseError::LoopEndWithoutBegin { offset: 1 }));
}

#[test]
fn unclosed_begin_is_the_outermost_open_one() {
    assert_eq!(parse("[["), Err(ParseError::LoopBeginWithoutEnd { offset: 0 }));
    assert_eq!(parse("[[]"), Err(ParseError::LoopBeginWithoutEnd { offset: 0 }));
    assert_eq!(parse("[][+"), Err(ParseError::LoopBeginWithoutEnd { offset: 2 }));
    assert_eq!(parse("+-[]>[[-]"), Err(ParseError::LoopBeginWithoutEnd { offset: 5 }));
}

#[test]
fn first_of_two_stray_ends_is_reported() {
    assert_eq!(parse("+]-]"), Err(ParseError::LoopEndWithoutBegin { offset: 1 }));
}

#[test]
fn tree_depth_matches_bracket_depth() {
    for text in ["", "+-", "[]", "[[]]", "[][]", "+[-[>[.]<]+]", "[[[[[]]]]][[]]", ",[.[-],]"] {
        let program = parse(text).unwrap();
        assert_eq!(tree_depth(&program), bracket_depth(text));
    }
}

#[test]
fn tree_depth_of_known_programs() {
    assert_eq!(tree_depth(&parse("+-><").unwrap()), 0);
    assert_eq!(tree_depth(&parse("[][][]").unwrap()), 1);
    assert_eq!(tree_depth(&parse("[[[]]][]").unwrap()), 3);
}

#[test]
fn parsed_program_is_written_with_the_same_symbols() {
    for text in ["", "+", "[]", "+[->+<]", "[[]+[-[.]]],[]", ">>[-]<<[->>+<<]"] {
        let program = parse(text).unwrap();
        let mut written = String::new();
        unparse(&program, &mut written);
        assert_eq!(written, text);
    }
}

#[test]
fn deep_nesting_is_parsed() {
    let depth = 200;
    let mut text = String::new();
    for _ in 0..depth {
        text.push('[');
    }
    text.push('+');
    for _ in 0..depth {
        text.push(']');
    }
    let program = parse(&text).unwrap();
    assert_eq!(program.len(), 1);
    assert_eq!(tree_depth(&program), depth);
}

#[test]
fn a_copy_is_the_same_tree() {
    let program = parse("+[->[.,]+<]-").unwrap();
    let copy = program.clone();
    assert_eq!(copy, program);
    let mut written = String::new();
    unparse(&copy, &mut written);
    assert_eq!(written, "+[->[.,]+<]-");
    assert_eq!(Instruction::Plus.clone(), Instruction::Plus);
    assert_eq!(Instruction::Loop(vec![]).clone(), Instruction::Loop(vec![]));
}

#[test]
fn a_copied_program_is_the_same_program() {
    for text in ["", "+-", "[[]]", "+[->+<]", ",[.[-],]"] {
        let program = parse(text).unwrap();
        assert_eq!(clone_program(&program), program);
    }
}
