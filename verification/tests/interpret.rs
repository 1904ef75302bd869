use bfirs::cell_type::NonZero;
use bfirs::interpret::{flush_due, Builder, Error, Reply, Request};
use bfirs::{Instruction, InstructionStream, Interpreter};

fn limited(input: &[u8], limit: u64) -> Interpreter<u8> {
    Interpreter::build(input.to_vec(), Vec::new())
        .instruction_limit(limit)
        .build()
}

fn run_code(code: &str, input: &[u8]) -> (Result<(), Error>, Vec<u8>) {
    let stream = InstructionStream::<u8>::from_code(code.as_bytes()).unwrap();
    let mut interpreter = limited(input, 100_000);
    let result = interpreter.run(stream.instructions());
    (result, interpreter.into_output())
}

#[test]
fn builder_defaults() {
    let interpreter: Interpreter<u16> = Builder::new(Vec::new(), Vec::new()).build();
    assert_eq!(interpreter.data().len(), 30_000);
    assert!(interpreter.data().iter().all(|cell| *cell == 0));
    assert_eq!(interpreter.data_pointer(), 0);
    assert_eq!(interpreter.instructions_left(), None);
    assert!(interpreter.output().is_empty());
}

#[test]
fn builder_settings_reach_the_interpreter() {
    let interpreter: Interpreter<u8> = Interpreter::build(Vec::new(), Vec::new())
        .input(vec![1, 2])
        .output(vec![9])
        .data_array_size(5)
        .fill(7)
        .initial_data_pointer(3)
        .instruction_limit(11)
        .build();
    assert_eq!(interpreter.data(), &[7, 7, 7, 7, 7]);
    assert_eq!(interpreter.data_pointer(), 3);
    assert_eq!(interpreter.instructions_left(), Some(11));
    assert_eq!(interpreter.output(), &[9]);
    let unlimited: Interpreter<u8> = Interpreter::build(Vec::new(), Vec::new())
        .instruction_limit(11)
        .no_instruction_limit()
        .build();
    assert_eq!(unlimited.instructions_left(), None);
}

#[test]
fn configure_for_takes_the_recommended_size() {
    let mut code = ">".repeat(40_000);
    code.push('+');
    let stream = InstructionStream::<u8>::optimized_from_code(code.as_bytes()).unwrap();
    let interpreter = Interpreter::build(Vec::new(), Vec::new()).configure_for(&stream).build();
    assert_eq!(interpreter.data().len(), 40_000);
}

#[test]
fn the_limit_can_be_changed() {
    let mut interpreter = limited(b"", 5);
    interpreter.set_instruction_limit(9);
    assert_eq!(interpreter.instructions_left(), Some(9));
    interpreter.remove_instruction_limit();
    assert_eq!(interpreter.instructions_left(), None);
}

#[test]
fn hello_byte() {
    let (result, output) = run_code("++++[>++++[>++++<-]<-]>>+.", b"");
    assert_eq!(result, Ok(()));
    assert_eq!(output, b"A");
}

#[test]
fn cells_wrap_around() {
    let (result, output) = run_code("-.++.", b"");
    assert_eq!(result, Ok(()));
    assert_eq!(output, vec![255, 1]);
}

#[test]
fn wide_cells_are_truncated_on_write() {
    let stream = InstructionStream::<u16>::from_code(b"-.+.").unwrap();
    let mut interpreter: Interpreter<u16> =
        Interpreter::build(Vec::new(), Vec::new()).instruction_limit(100).build();
    assert_eq!(interpreter.run(stream.instructions()), Ok(()));
    assert_eq!(interpreter.data()[0], 0);
    assert_eq!(interpreter.output(), &[0xff, 0x00]);
    let program = [
        Instruction::<u32>::SetCell(0x1234_5678),
        Instruction::Write,
        Instruction::Dec(NonZero::new(0x1234_5679).unwrap()),
        Instruction::Write,
    ];
    let mut interpreter: Interpreter<u32> =
        Interpreter::build(Vec::new(), Vec::new()).instruction_limit(100).build();
    assert_eq!(interpreter.run(&program), Ok(()));
    assert_eq!(interpreter.data()[0], u32::MAX);
    assert_eq!(interpreter.output(), &[0x78, 0xff]);
}

#[test]
fn read_echoes_and_yields_zero_at_the_end() {
    let (result, output) = run_code(",.,.,.", b"hi");
    assert_eq!(result, Ok(()));
    assert_eq!(output, vec![b'h', b'i', 0]);
}

#[test]
fn read_until_end_of_input() {
    let (result, output) = run_code(",[.,]", b"abc");
    assert_eq!(result, Ok(()));
    assert_eq!(output, b"abc");
}

#[test]
fn underflow_at_the_start() {
    let (result, output) = run_code(".<", b"");
    assert_eq!(result, Err(Error::Underflow));
    assert_eq!(output, vec![0]);
}

#[test]
fn overflow_rolls_the_move_back() {
    let stream = InstructionStream::<u8>::optimized_from_code(b">>>>>>").unwrap();
    let mut interpreter: Interpreter<u8> = Interpreter::build(Vec::new(), Vec::new())
        .data_array_size(4)
        .initial_data_pointer(1)
        .instruction_limit(10)
        .build();
    assert_eq!(interpreter.run(stream.instructions()), Err(Error::Overflow));
    assert_eq!(interpreter.data_pointer(), 1);
    assert_eq!(interpreter.instructions_left(), Some(10));
}

#[test]
fn the_last_cell_can_be_reached() {
    let stream = InstructionStream::<u8>::from_code(b">>>+").unwrap();
    let mut interpreter: Interpreter<u8> = Interpreter::build(Vec::new(), Vec::new())
        .data_array_size(4)
        .instruction_limit(10)
        .build();
    assert_eq!(interpreter.run(stream.instructions()), Ok(()));
    assert_eq!(interpreter.data(), &[0, 0, 0, 1]);
    assert_eq!(interpreter.data_pointer(), 3);
    assert_eq!(interpreter.instructions_left(), Some(6));
}

#[test]
fn a_start_outside_the_array_fails_at_once() {
    let stream = InstructionStream::<u8>::from_code(b"").unwrap();
    let mut interpreter: Interpreter<u8> = Interpreter::build(Vec::new(), Vec::new())
        .data_array_size(4)
        .initial_data_pointer(4)
        .instruction_limit(10)
        .build();
    assert_eq!(interpreter.run(stream.instructions()), Err(Error::InitOverflow));
    let mut empty: Interpreter<u8> = Interpreter::build(Vec::new(), Vec::new())
        .data_array_size(0)
        .instruction_limit(10)
        .build();
    assert_eq!(empty.run(stream.instructions()), Err(Error::InitOverflow));
}

#[test]
fn the_limit_counts_instructions() {
    let stream = InstructionStream::<u8>::from_code(b"+++").unwrap();
    let mut interpreter = limited(b"", 3);
    assert_eq!(interpreter.run(stream.instructions()), Ok(()));
    assert_eq!(interpreter.instructions_left(), Some(0));
    let mut interpreter = limited(b"", 2);
    assert_eq!(interpreter.run(stream.instructions()), Err(Error::NotEnoughInstructions));
    assert_eq!(interpreter.data()[0], 2);
    assert_eq!(interpreter.instructions_left(), Some(0));
}

#[test]
fn an_endless_loop_runs_out_of_instructions() {
    let stream = InstructionStream::<u8>::from_code(b"+[]").unwrap();
    let mut interpreter = limited(b"", 1000);
    assert_eq!(interpreter.run(stream.instructions()), Err(Error::NotEnoughInstructions));
}

#[test]
fn request_says_what_an_instruction_needs() {
    let stream = InstructionStream::<u8>::from_code(b"+.,").unwrap();
    let mut interpreter = limited(b"", 10);
    assert_eq!(interpreter.request(stream.instructions(), 0), Request::Nothing);
    assert_eq!(interpreter.step(stream.instructions(), 0, Reply::Nothing), Ok(1));
    assert_eq!(interpreter.request(stream.instructions(), 1), Request::Write(1));
    assert_eq!(interpreter.step(stream.instructions(), 1, Reply::Written), Ok(2));
    assert_eq!(interpreter.request(stream.instructions(), 2), Request::Read);
    assert_eq!(interpreter.step(stream.instructions(), 2, Reply::Read(Some(65))), Ok(3));
    assert_eq!(interpreter.data()[0], 65);
    assert_eq!(interpreter.instructions_left(), Some(7));
}

#[test]
fn failed_io_is_reported() {
    let stream = InstructionStream::<u8>::from_code(b".,").unwrap();
    let mut interpreter = limited(b"", 10);
    assert_eq!(interpreter.step(stream.instructions(), 0, Reply::Failed), Err(Error::OutputIo));
    assert_eq!(interpreter.step(stream.instructions(), 1, Reply::Failed), Err(Error::InputIo));
    assert_eq!(interpreter.instructions_left(), Some(10));
    assert_eq!(interpreter.step(stream.instructions(), 1, Reply::Read(None)), Ok(2));
    assert_eq!(interpreter.data()[0], 0);
}

#[test]
fn no_request_once_the_limit_is_reached() {
    let stream = InstructionStream::<u8>::from_code(b".").unwrap();
    let mut interpreter = limited(b"", 0);
    assert_eq!(interpreter.request(stream.instructions(), 0), Request::Nothing);
    assert_eq!(
        interpreter.step(stream.instructions(), 0, Reply::Nothing),
        Err(Error::NotEnoughInstructions)
    );
}

#[test]
fn loops_jump_past_their_partner() {
    let stream = InstructionStream::<u8>::from_code(b"[+]+[-]").unwrap();
    let code = stream.instructions();
    let mut interpreter = limited(b"", 100);
    assert_eq!(interpreter.step(code, 0, Reply::Nothing), Ok(3));
    assert_eq!(interpreter.step(code, 3, Reply::Nothing), Ok(4));
    assert_eq!(interpreter.step(code, 4, Reply::Nothing), Ok(5));
    assert_eq!(interpreter.step(code, 5, Reply::Nothing), Ok(6));
    assert_eq!(interpreter.step(code, 6, Reply::Nothing), Ok(7));
    interpreter.set_instruction_limit(100);
    assert_eq!(interpreter.step(code, 3, Reply::Nothing), Ok(4));
    assert_eq!(interpreter.step(code, 3, Reply::Nothing), Ok(4));
    assert_eq!(interpreter.step(code, 5, Reply::Nothing), Ok(6));
    assert_eq!(interpreter.step(code, 6, Reply::Nothing), Ok(5));
}

#[test]
fn pointer_moves_are_checked() {
    let mut interpreter: Interpreter<u8> = Interpreter::build(Vec::new(), Vec::new())
        .data_array_size(10)
        .build();
    assert_eq!(interpreter.inc_ptr_by(9), Ok(()));
    assert_eq!(interpreter.data_pointer(), 9);
    assert_eq!(interpreter.inc_ptr_by(1), Err(Error::Overflow));
    assert_eq!(interpreter.data_pointer(), 9);
    assert_eq!(interpreter.dec_ptr_by(10), Err(Error::Underflow));
    assert_eq!(interpreter.data_pointer(), 9);
    assert_eq!(interpreter.dec_ptr_by(9), Ok(()));
    assert_eq!(interpreter.data_pointer(), 0);
    assert_eq!(interpreter.inc_ptr_by(usize::MAX), Err(Error::Overflow));
}

#[test]
fn memory_input_and_output() {
    let mut interpreter = limited(b"xy", 10);
    assert_eq!(interpreter.read(), Reply::Read(Some(b'x')));
    assert_eq!(interpreter.read(), Reply::Read(Some(b'y')));
    assert_eq!(interpreter.read(), Reply::Read(None));
    assert_eq!(interpreter.read(), Reply::Read(None));
    assert_eq!(interpreter.write(5), Reply::Written);
    assert_eq!(interpreter.write(6), Reply::Written);
    assert_eq!(interpreter.output(), &[5, 6]);
}

#[test]
fn advance_serves_requests_from_memory() {
    let stream = InstructionStream::<u8>::from_code(b",.").unwrap();
    let mut interpreter = limited(b"z", 10);
    assert_eq!(interpreter.advance(stream.instructions(), 0), Ok(1));
    assert_eq!(interpreter.advance(stream.instructions(), 1), Ok(2));
    assert_eq!(interpreter.output(), b"z");
}

#[test]
fn flush_after_a_sixtieth_of_a_second() {
    assert!(!flush_due(0));
    assert!(!flush_due(16));
    assert!(flush_due(17));
    assert!(flush_due(u128::MAX));
}

#[test]
fn error_messages() {
    assert_eq!(Error::Overflow.message(), "runtime overflowed its data array");
    assert_eq!(Error::Underflow.message(), "runtime underflowed its data array");
    assert_eq!(
        Error::InitOverflow.message(),
        "the pointer was already overflowed when the runtime started"
    );
    assert_eq!(
        Error::NotEnoughInstructions.message(),
        "instruction limit reached. not enough instructions to complete the task. task halted before completion."
    );
    assert_eq!(Error::InputIo.message(), "IO error while reading from input");
    assert_eq!(Error::OutputIo.message(), "IO error while writing to output");
}

#[test]
fn interpret_runs_on_the_recommended_array() {
    let stream = bfirs::compile::<u8>(",+.").unwrap();
    let (result, output) = bfirs::interpret(&stream, vec![1], Some(100));
    assert_eq!(result, Ok(()));
    assert_eq!(output, vec![2]);
    let (result, output) =
        bfirs::interpret(&bfirs::compile::<u8>(".+[]").unwrap(), vec![], Some(100));
    assert_eq!(result, Err(Error::NotEnoughInstructions));
    assert_eq!(output, vec![0]);
}

#[test]
fn run_compiles_and_interprets() {
    assert_eq!(bfirs::run("++++++++[>++++++++<-]>+.", Vec::new(), Some(1000)), b"A");
    assert_eq!(bfirs::run("++++++++[>++++++++<-]>+.", Vec::new(), None), b"A");
}

#[test]
fn hand_written_program_hits_its_limit() {
    let program = [
        Instruction::<u8>::Inc(NonZero::new(1).unwrap()),
        Instruction::LoopStart(6),
        Instruction::IncPtr(NonZero::new(1).unwrap()),
        Instruction::Dec(NonZero::new(2).unwrap()),
        Instruction::Inc(NonZero::new(4).unwrap()),
        Instruction::DecPtr(NonZero::new(1).unwrap()),
        Instruction::LoopEnd(1),
    ];
    let mut interpreter = limited(b"", 100_000);
    assert_eq!(interpreter.run(&program), Err(Error::NotEnoughInstructions));
}

fn unlimited<T: bfirs::CellType>() -> Builder<T> {
    Builder::new(Vec::new(), Vec::new())
}

fn right(by: u32) -> Instruction<u8> {
    Instruction::IncPtr(NonZero::new(by).unwrap())
}

#[test]
fn a_run_without_a_limit_fails_on_the_move_off_the_last_cell() {
    let stream = InstructionStream::<u8>::from_code(b"+[.>+]").unwrap();
    let mut interpreter = unlimited::<u8>().data_array_size(3).build();
    assert_eq!(interpreter.instructions_left(), None);
    assert_eq!(interpreter.run(stream.instructions()), Err(Error::Overflow));
    assert_eq!(interpreter.output(), &[1, 1, 1]);
    assert_eq!(interpreter.instructions_left(), None);
}

#[test]
fn a_zeroing_loop_zeroes_any_value_without_a_limit() {
    let optimized = InstructionStream::<u8>::optimized_from_code(b"[-].").unwrap();
    let plain = InstructionStream::<u8>::from_code(b"[-].").unwrap();
    for value in 0..=255u8 {
        let mut interpreter = unlimited::<u8>().fill(value).build();
        assert_eq!(interpreter.run(optimized.instructions()), Ok(()));
        assert_eq!(interpreter.output(), &[0]);
        let mut interpreter = unlimited::<u8>().fill(value).data_array_size(1).build();
        assert_eq!(interpreter.run(plain.instructions()), Ok(()));
        assert_eq!(interpreter.output(), &[0]);
        assert_eq!(interpreter.data(), &[0]);
    }
}

#[test]
fn a_read_at_the_end_of_input_stores_zero_without_a_limit() {
    let stream = InstructionStream::<u8>::from_code(b"+,.").unwrap();
    let mut interpreter = unlimited::<u8>().build();
    assert_eq!(interpreter.run(stream.instructions()), Ok(()));
    assert_eq!(interpreter.output(), &[0]);
}

#[test]
fn a_write_emits_the_low_byte_without_a_limit() {
    let program = [Instruction::<u16>::SetCell(0x0141), Instruction::Write];
    let mut interpreter = unlimited::<u16>().build();
    assert_eq!(interpreter.run(&program), Ok(()));
    assert_eq!(interpreter.output(), &[0x41]);
}

#[test]
fn what_was_written_before_a_failure_stays_written() {
    let stream = InstructionStream::<u8>::from_code(b"+.<").unwrap();
    let mut interpreter = unlimited::<u8>().build();
    assert_eq!(interpreter.run(stream.instructions()), Err(Error::Underflow));
    assert_eq!(interpreter.output(), &[1]);
}

#[test]
fn the_default_array_has_thirty_thousand_cells() {
    let mut interpreter = unlimited::<u8>().build();
    assert_eq!(interpreter.instructions_left(), None);
    assert_eq!(interpreter.run(&[right(29_999), Instruction::Write]), Ok(()));
    assert_eq!(interpreter.output(), &[0]);
    let mut interpreter = unlimited::<u8>().build();
    assert_eq!(interpreter.run(&[right(30_000)]), Err(Error::Overflow));
}

#[test]
fn the_array_has_as_many_cells_as_were_asked_for() {
    for size in 1..=6usize {
        for by in 1..=8u32 {
            let mut interpreter = unlimited::<u8>().data_array_size(size).build();
            let expected = if (by as usize) < size { Ok(()) } else { Err(Error::Overflow) };
            assert_eq!(interpreter.run(&[right(by)]), expected, "{by} of {size}");
        }
    }
}

#[test]
fn every_cell_starts_at_the_fill_value() {
    let program = [Instruction::Write, right(29_999), Instruction::Write];
    let mut interpreter = unlimited::<u8>().fill(65).build();
    assert_eq!(interpreter.run(&program), Ok(()));
    assert_eq!(interpreter.output(), b"AA");
}

#[test]
fn a_long_run_needs_no_limit() {
    let stream = InstructionStream::<u16>::from_code(b"-[-]+[>+]").unwrap();
    let mut interpreter = unlimited::<u16>().data_array_size(1_000).build();
    assert_eq!(interpreter.run(stream.instructions()), Err(Error::Overflow));
    assert_eq!(interpreter.data_pointer(), 999);
    assert!(interpreter.data().iter().all(|cell| *cell == 1));
}

#[test]
fn start_tells_whether_the_cursor_is_in_the_array() {
    assert_eq!(unlimited::<u8>().build().start(), Ok(()));
    assert_eq!(unlimited::<u8>().initial_data_pointer(29_999).build().start(), Ok(()));
    assert_eq!(
        unlimited::<u8>().initial_data_pointer(30_000).build().start(),
        Err(Error::InitOverflow)
    );
    assert_eq!(unlimited::<u8>().data_array_size(0).build().start(), Err(Error::InitOverflow));
}

#[test]
fn interpret_runs_without_a_limit() {
    let stream = bfirs::compile::<u8>("++++++++[>++++++++<-]>+.,.").unwrap();
    let (result, output) = bfirs::interpret(&stream, vec![7], None);
    assert_eq!(result, Ok(()));
    assert_eq!(output, vec![0x41, 7]);
}
