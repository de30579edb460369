use bf_interpreter::evaluation::run;
use bf_interpreter::instruction::Instruction;
use bf_interpreter::machine::{
    blank_tape, Event, Machine, RuntimeError, DEFAULT_START, DEFAULT_TAPE_LENGTH,
};
use bf_interpreter::opcode::OpCode;

const PLENTY: usize = 1_000_000;

fn program(text: &str) -> Vec<Instruction> {
    Instruction::from(OpCode::from(text.to_string())).unwrap()
}

struct Ran {
    result: Result<bool, RuntimeError>,
    tape: Vec<u8>,
    pointer: usize,
    output: Vec<u8>,
}

fn run_on(text: &str, tape: Vec<u8>, pointer: usize, input: &[u8], max_steps: usize) -> Ran {
    let instructions = program(text);
    let mut tape = tape;
    let mut pointer = pointer;
    let mut output = Vec::new();
    let result = run(&instructions, &mut tape, &mut pointer, &input.to_vec(), &mut output, max_steps);
    Ran { result, tape, pointer, output }
}

fn run_fresh(text: &str, input: &[u8]) -> Ran {
    run_on(text, blank_tape(DEFAULT_TAPE_LENGTH), DEFAULT_START, input, PLENTY)
}

#[test]
fn defaults_are_a_1024_cell_tape_started_in_the_middle() {
    assert_eq!(DEFAULT_TAPE_LENGTH, 1024);
    assert_eq!(DEFAULT_START, 512);
    assert_eq!(blank_tape(DEFAULT_TAPE_LENGTH), vec![0u8; 1024]);
    assert_eq!(blank_tape(0), Vec::<u8>::new());
    assert_eq!(blank_tape(3), vec![0u8, 0, 0]);
}

#[test]
fn three_increments_then_write_outputs_code_three() {
    let ran = run_fresh("+++.", &[]);
    assert_eq!(ran.result, Ok(true));
    assert_eq!(ran.output, vec![3u8]);
    assert_eq!(ran.tape[DEFAULT_START], 3);
    assert_eq!(ran.pointer, DEFAULT_START);
}

#[test]
fn transfer_idiom_moves_the_value_to_the_adjacent_cell() {
    let ran = run_fresh("+[->+<]", &[]);
    assert_eq!(ran.result, Ok(true));
    assert_eq!(ran.tape[DEFAULT_START], 0);
    assert_eq!(ran.tape[DEFAULT_START + 1], 1);
    assert_eq!(ran.pointer, DEFAULT_START);
    assert!(ran.output.is_empty());
}

#[test]
fn transfer_idiom_starting_with_cell_value_one() {
    let ran = run_on("+[->+<]", vec![0, 1, 0, 0], 1, &[], PLENTY);
    assert_eq!(ran.result, Ok(true));
    assert_eq!(ran.tape, vec![0, 0, 2, 0]);
    assert_eq!(ran.pointer, 1);
}

#[test]
fn transfer_loop_alone_moves_a_preset_value() {
    let ran = run_on("[->+<]", vec![1, 0], 0, &[], PLENTY);
    assert_eq!(ran.result, Ok(true));
    assert_eq!(ran.tape, vec![0, 1]);
    let ran = run_on("[->+<]", vec![200, 100], 0, &[], PLENTY);
    assert_eq!(ran.tape, vec![0, 44]);
}

#[test]
fn move_left_at_index_zero_fails() {
    let ran = run_on("<", vec![0, 0, 0], 0, &[], PLENTY);
    assert_eq!(ran.result, Err(RuntimeError::PointerOutOfBounds));
    assert_eq!(ran.pointer, 0);
    assert_eq!(ran.tape, vec![0, 0, 0]);
}

#[test]
fn move_right_past_the_last_index_fails() {
    let ran = run_on(">", vec![0, 0, 0], 2, &[], PLENTY);
    assert_eq!(ran.result, Err(RuntimeError::PointerOutOfBounds));
    assert_eq!(ran.pointer, 2);
    let ran = run_on(">>>", vec![0, 0, 0], 0, &[], PLENTY);
    assert_eq!(ran.result, Err(RuntimeError::PointerOutOfBounds));
    assert_eq!(ran.pointer, 2);
}

#[test]
fn moves_inside_the_tape_succeed() {
    let ran = run_on(">><", vec![0, 0, 0], 0, &[], PLENTY);
    assert_eq!(ran.result, Ok(true));
    assert_eq!(ran.pointer, 1);
}

#[test]
fn effects_before_a_failure_stay() {
    let ran = run_on("+.<+", vec![7], 0, &[], PLENTY);
    assert_eq!(ran.result, Err(RuntimeError::PointerOutOfBounds));
    assert_eq!(ran.tape, vec![8]);
    assert_eq!(ran.output, vec![8]);
}

#[test]
fn default_tape_has_512_cells_on_either_side() {
    let right = ">".repeat(511);
    assert_eq!(run_fresh(&right, &[]).result, Ok(true));
    let too_far_right = ">".repeat(512);
    assert_eq!(run_fresh(&too_far_right, &[]).result, Err(RuntimeError::PointerOutOfBounds));
    let left = "<".repeat(512);
    assert_eq!(run_fresh(&left, &[]).result, Ok(true));
    let too_far_left = "<".repeat(513);
    assert_eq!(run_fresh(&too_far_left, &[]).result, Err(RuntimeError::PointerOutOfBounds));
}

#[test]
fn a_cell_off_the_tape_cannot_be_used() {
    assert_eq!(run_on("+", vec![], 0, &[], PLENTY).result, Err(RuntimeError::PointerOutOfBounds));
    assert_eq!(run_on(".", vec![0, 0], 2, &[], PLENTY).result, Err(RuntimeError::PointerOutOfBounds));
    assert_eq!(run_on("[]", vec![0, 0], 5, &[], PLENTY).result, Err(RuntimeError::PointerOutOfBounds));
    assert_eq!(run_on(",", vec![0, 0], 2, &[1], PLENTY).result, Err(RuntimeError::PointerOutOfBounds));
    assert_eq!(run_on("", vec![0, 0], 2, &[], PLENTY).result, Ok(true));
    let ran = run_on("<+", vec![0, 0], 2, &[], PLENTY);
    assert_eq!(ran.result, Ok(true));
    assert_eq!(ran.tape, vec![0, 1]);
}

#[test]
fn increment_from_255_wraps_to_zero() {
    let ran = run_on("+", vec![255], 0, &[], PLENTY);
    assert_eq!(ran.result, Ok(true));
    assert_eq!(ran.tape, vec![0]);
}

#[test]
fn decrement_from_zero_wraps_to_255() {
    let ran = run_on("-", vec![0], 0, &[], PLENTY);
    assert_eq!(ran.result, Ok(true));
    assert_eq!(ran.tape, vec![255]);
}

#[test]
fn increments_and_decrements_round_trip_modulo_256() {
    for start in [0u8, 1, 77, 254, 255] {
        let up = "+".repeat(256);
        assert_eq!(run_on(&up, vec![start], 0, &[], PLENTY).tape, vec![start]);
        let down = "-".repeat(256);
        assert_eq!(run_on(&down, vec![start], 0, &[], PLENTY).tape, vec![start]);
        let both = "+-".repeat(256);
        assert_eq!(run_on(&both, vec![start], 0, &[], PLENTY).tape, vec![start]);
        let up_then_down = format!("{}{}", "+".repeat(256), "-".repeat(256));
        assert_eq!(run_on(&up_then_down, vec![start], 0, &[], PLENTY).tape, vec![start]);
    }
    assert_eq!(run_on(&"+".repeat(300), vec![0], 0, &[], PLENTY).tape, vec![44]);
    assert_eq!(run_on(&"-".repeat(3), vec![1], 0, &[], PLENTY).tape, vec![254]);
}

#[test]
fn read_with_exhausted_input_fails() {
    let ran = run_on(",", vec![9], 0, &[], PLENTY);
    assert_eq!(ran.result, Err(RuntimeError::InputExhausted));
    assert_eq!(ran.tape, vec![9]);
}

#[test]
fn second_read_fails_when_only_one_byte_is_there() {
    let ran = run_on(",>,", vec![0, 0], 0, &[5], PLENTY);
    assert_eq!(ran.result, Err(RuntimeError::InputExhausted));
    assert_eq!(ran.tape, vec![5, 0]);
    assert_eq!(ran.pointer, 1);
}

#[test]
fn a_zero_byte_of_input_is_not_exhaustion() {
    let ran = run_on(",", vec![9], 0, &[0], PLENTY);
    assert_eq!(ran.result, Ok(true));
    assert_eq!(ran.tape, vec![0]);
}

#[test]
fn input_is_consumed_in_order_and_output_written_in_order() {
    let ran = run_on(",.,.,.", vec![0], 0, &[10, 20, 30, 40], PLENTY);
    assert_eq!(ran.result, Ok(true));
    assert_eq!(ran.output, vec![10, 20, 30]);
    assert_eq!(ran.tape, vec![30]);
}

#[test]
fn echo_until_zero_byte() {
    let ran = run_on(",[.,]", vec![0], 0, &[b'h', b'i', 0, b'x'], PLENTY);
    assert_eq!(ran.result, Ok(true));
    assert_eq!(ran.output, b"hi".to_vec());
}

#[test]
fn output_is_appended_to_what_is_there() {
    let instructions = program("+.");
    let mut tape = vec![0u8];
    let mut pointer = 0usize;
    let mut output = vec![42u8];
    let result = run(&instructions, &mut tape, &mut pointer, &Vec::new(), &mut output, PLENTY);
    assert_eq!(result, Ok(true));
    assert_eq!(output, vec![42, 1]);
}

#[test]
fn loop_is_skipped_when_the_cell_is_zero() {
    let ran = run_on("[+.]", vec![0], 0, &[], PLENTY);
    assert_eq!(ran.result, Ok(true));
    assert_eq!(ran.tape, vec![0]);
    assert!(ran.output.is_empty());
}

#[test]
fn loop_tests_the_cell_after_each_full_pass() {
    let ran = run_on("[.-]", vec![3], 0, &[], PLENTY);
    assert_eq!(ran.result, Ok(true));
    assert_eq!(ran.output, vec![3, 2, 1]);
    assert_eq!(ran.tape, vec![0]);
}

#[test]
fn loop_body_runs_to_its_end_even_if_the_cell_is_zero_midway() {
    let ran = run_on("[-+-]", vec![1], 0, &[], PLENTY);
    assert_eq!(ran.result, Ok(true));
    assert_eq!(ran.tape, vec![0]);
    let ran = run_on("[-.+.-]", vec![1], 0, &[], PLENTY);
    assert_eq!(ran.output, vec![0, 1]);
}

#[test]
fn nested_loops_multiply() {
    let ran = run_on("[->[->+>+<<]>>[-<<+>>]<<<]", vec![6, 7, 0, 0], 0, &[], PLENTY);
    assert_eq!(ran.result, Ok(true));
    assert_eq!(ran.tape, vec![0, 7, 42, 0]);
}

#[test]
fn prints_a_known_text() {
    let text = "++++++++[>++++[>++>+++>+++>+<<<<-]>+>+>->>+[<]<-]>>.>---.+++++++..+++.>>.<-.<.+++.------.--------.>>+.>++.";
    let ran = run_fresh(text, &[]);
    assert_eq!(ran.result, Ok(true));
    assert_eq!(ran.output, b"Hello World!\n".to_vec());
}

#[test]
fn endless_loop_uses_up_the_steps() {
    let ran = run_on("+[]", vec![0], 0, &[], 1000);
    assert_eq!(ran.result, Ok(false));
    assert_eq!(ran.tape, vec![1]);
}

#[test]
fn no_steps_means_nothing_happens() {
    let ran = run_on("+", vec![0], 0, &[], 0);
    assert_eq!(ran.result, Ok(false));
    assert_eq!(ran.tape, vec![0]);
    let ran = run_on("", vec![0], 0, &[], 0);
    assert_eq!(ran.result, Ok(false));
}

#[test]
fn step_count_of_a_straight_program() {
    assert_eq!(run_on("+++", vec![0], 0, &[], 3).result, Ok(false));
    assert_eq!(run_on("+++", vec![0], 0, &[], 3).tape, vec![3]);
    assert_eq!(run_on("+++", vec![0], 0, &[], 4).result, Ok(true));
    assert_eq!(run_on("+++", vec![0], 0, &[], 2).tape, vec![2]);
}

#[test]
fn step_count_of_a_loop() {
    // increment, enter the loop, decrement, leave the body, pass the loop, leave the program
    assert_eq!(run_on("+[-]", vec![0], 0, &[], 5).result, Ok(false));
    assert_eq!(run_on("+[-]", vec![0], 0, &[], 6).result, Ok(true));
    assert_eq!(run_on("+[-]", vec![0], 0, &[], 3).tape, vec![0]);
    assert_eq!(run_on("+[-]", vec![0], 0, &[], 2).tape, vec![1]);
}

#[test]
fn failure_is_found_at_its_step() {
    assert_eq!(run_on("++<", vec![0], 0, &[], 2).result, Ok(false));
    assert_eq!(run_on("++<", vec![0], 0, &[], 3).result, Err(RuntimeError::PointerOutOfBounds));
    assert_eq!(run_on("++<", vec![0], 0, &[], 3).tape, vec![2]);
}

#[test]
fn machine_steps_through_a_program() {
    let instructions = program("+.");
    let mut machine = Machine::new(&instructions, vec![0, 0], 1);
    assert!(!machine.is_halted());
    assert!(!machine.awaits_input());
    assert_eq!(machine.pointer(), 1);
    assert_eq!(machine.step(None), Ok(Event::Advanced));
    assert_eq!(machine.tape(), &vec![0, 1]);
    assert_eq!(machine.step(None), Ok(Event::Output(1)));
    assert!(!machine.is_halted());
    assert_eq!(machine.step(None), Ok(Event::Advanced));
    assert!(machine.is_halted());
    assert_eq!(machine.step(None), Ok(Event::Halted));
    assert_eq!(machine.step(Some(3)), Ok(Event::Halted));
    assert_eq!(machine.into_tape(), vec![0, 1]);
}

#[test]
fn machine_asks_for_input_only_at_a_read() {
    let instructions = program("+,[,]");
    let mut machine = Machine::new(&instructions, vec![0], 0);
    assert!(!machine.awaits_input());
    assert_eq!(machine.step(Some(99)), Ok(Event::Advanced));
    assert_eq!(machine.tape(), &vec![1]);
    assert!(machine.awaits_input());
    assert_eq!(machine.step(Some(7)), Ok(Event::Advanced));
    assert_eq!(machine.tape(), &vec![7]);
    assert!(!machine.awaits_input());
    assert_eq!(machine.step(None), Ok(Event::Advanced));
    assert!(machine.awaits_input());
    assert_eq!(machine.step(Some(0)), Ok(Event::Advanced));
    assert!(!machine.awaits_input());
    assert_eq!(machine.step(None), Ok(Event::Advanced));
    assert_eq!(machine.step(None), Ok(Event::Advanced));
    assert_eq!(machine.step(None), Ok(Event::Advanced));
    assert!(machine.is_halted());
}

#[test]
fn failed_step_leaves_the_machine_as_it_was() {
    let instructions = program("<+");
    let mut machine = Machine::new(&instructions, vec![4], 0);
    assert_eq!(machine.step(None), Err(RuntimeError::PointerOutOfBounds));
    assert_eq!(machine.step(None), Err(RuntimeError::PointerOutOfBounds));
    assert_eq!(machine.pointer(), 0);
    assert_eq!(machine.tape(), &vec![4]);
    assert!(!machine.is_halted());

    let instructions = program(",.");
    let mut machine = Machine::new(&instructions, vec![4], 0);
    assert_eq!(machine.step(None), Err(RuntimeError::InputExhausted));
    assert!(machine.awaits_input());
    assert_eq!(machine.step(Some(6)), Ok(Event::Advanced));
    assert_eq!(machine.step(None), Ok(Event::Output(6)));
}

#[test]
fn machine_driven_by_a_host_loop() {
    let instructions = program(",[.-]");
    let mut machine = Machine::new(&instructions, blank_tape(DEFAULT_TAPE_LENGTH), DEFAULT_START);
    let mut input = vec![3u8].into_iter();
    let mut output = Vec::new();
    loop {
        let byte = if machine.awaits_input() { input.next() } else { None };
        match machine.step(byte).unwrap() {
            Event::Advanced => {}
            Event::Output(byte) => output.push(byte),
            Event::Halted => break,
        }
    }
    assert_eq!(output, vec![3, 2, 1]);
}
