use bfirs::cell_type::NonZero;
use bfirs::compile::optimize::FoldResult;
use bfirs::interpret::Error;
use bfirs::{Instruction, InstructionStream, Interpreter};

struct Outcome {
    result: Result<(), Error>,
    output: Vec<u8>,
    data: Vec<u8>,
    pointer: usize,
    left: Option<u64>,
}

fn outcome(stream: &InstructionStream<u8>, input: &[u8], limit: u64) -> Outcome {
    let mut interpreter = Interpreter::build(input.to_vec(), Vec::new())
        .data_array_size(64)
        .instruction_limit(limit)
        .build();
    let result = interpreter.run(stream.instructions());
    Outcome {
        result,
        output: interpreter.output().to_vec(),
        data: interpreter.data().to_vec(),
        pointer: interpreter.data_pointer(),
        left: interpreter.instructions_left(),
    }
}

fn both(code: &str, input: &[u8], limit: u64) -> (Outcome, Outcome) {
    let plain = InstructionStream::<u8>::from_code(code.as_bytes()).unwrap();
    let optimized = InstructionStream::<u8>::optimized_from_code(code.as_bytes()).unwrap();
    (outcome(&plain, input, limit), outcome(&optimized, input, limit))
}

#[test]
fn optimized_programs_end_as_the_programs_do() {
    let programs: [(&str, &[u8]); 10] = [
        ("++++[>++++[>++++<-]<-]>>+.", b""),
        (",[.,]", b"some input"),
        (",>,<[->+<]>.", &[20, 22]),
        ("+++[-]++.>-[+]-.", b""),
        (">+-<+++.[-].", b""),
        ("++>+++<[->[->+>+<<]>>[-<<+>>]<<<]>>.", b""),
        (",[>+<-]>[<++>-]<.", &[100]),
        ("-[-]>+[+]>,[-]<<.>.>.", &[7]),
        (">>><<<+>-<.", b""),
        ("", b""),
    ];
    for (code, input) in programs {
        let (plain, optimized) = both(code, input, 1_000_000);
        assert_eq!(plain.result, Ok(()), "{code}");
        assert_eq!(optimized.result, Ok(()), "{code}");
        assert_eq!(plain.output, optimized.output, "{code}");
        assert_eq!(plain.data, optimized.data, "{code}");
        assert_eq!(plain.pointer, optimized.pointer, "{code}");
        assert!(optimized.left >= plain.left, "{code}");
    }
}

#[test]
fn the_hello_byte_takes_fewer_instructions_when_optimized() {
    let (plain, optimized) = both("++++[>++++[>++++<-]<-]>>+.", b"", 1_000);
    assert_eq!(plain.output, vec![0x41]);
    assert_eq!(optimized.output, vec![0x41]);
    assert_eq!(plain.left, Some(1_000 - 173));
    assert_eq!(optimized.left, Some(1_000 - 109));
}

#[test]
fn a_cancelled_excursion_no_longer_fails() {
    let (plain, optimized) = both("<>.", b"", 100);
    assert_eq!(plain.result, Err(Error::Underflow));
    assert!(plain.output.is_empty());
    assert_eq!(optimized.result, Ok(()));
    assert_eq!(optimized.output, vec![0]);
}

#[test]
fn an_optimized_program_may_end_within_the_limit() {
    let (plain, optimized) = both("++++++++++[-].", b"", 20);
    assert_eq!(plain.result, Err(Error::NotEnoughInstructions));
    assert_eq!(optimized.result, Ok(()));
    assert_eq!(optimized.output, vec![0]);
    assert_eq!(optimized.left, Some(18));
}

#[test]
fn optimization_fails_as_resolution_does() {
    for code in ["]", "[", "[[]", "+]-[", "[-]]", "[+][", ">+-<]", "[>+-<"] {
        let plain = InstructionStream::<u8>::from_code(code.as_bytes()).map(|_| ());
        let optimized = InstructionStream::<u8>::optimized_from_code(code.as_bytes()).map(|_| ());
        assert!(plain.is_err(), "{code}");
        assert_eq!(plain, optimized, "{code}");
    }
}

fn folded(instructions: Vec<Instruction<u8>>) -> Vec<Instruction<u8>> {
    let mut stream = InstructionStream::new(instructions).unwrap();
    stream.fold_like();
    stream.instructions().to_vec()
}

fn inc(v: u8) -> Instruction<u8> {
    Instruction::Inc(NonZero::new(v).unwrap())
}

fn dec(v: u8) -> Instruction<u8> {
    Instruction::Dec(NonZero::new(v).unwrap())
}

fn right(v: u32) -> Instruction<u8> {
    Instruction::IncPtr(NonZero::new(v).unwrap())
}

fn left(v: u32) -> Instruction<u8> {
    Instruction::DecPtr(NonZero::new(v).unwrap())
}

#[test]
fn folding_a_cell_run_does_not_depend_on_the_order() {
    let orders = [
        vec![inc(3), dec(1), inc(2), dec(9)],
        vec![dec(9), inc(2), dec(1), inc(3)],
        vec![inc(2), inc(3), dec(9), dec(1)],
        vec![dec(1), dec(9), inc(3), inc(2)],
    ];
    for order in orders {
        assert_eq!(folded(order), vec![dec(5)]);
    }
    assert!(folded(vec![inc(4), dec(7), inc(3)]).is_empty());
    assert!(folded(vec![dec(7), inc(3), inc(4)]).is_empty());
}

#[test]
fn folding_a_pointer_run_does_not_depend_on_the_order() {
    let orders = [
        vec![right(30), left(10), right(2), left(1)],
        vec![left(1), left(10), right(2), right(30)],
        vec![right(2), left(10), left(1), right(30)],
    ];
    for order in orders {
        assert_eq!(folded(order), vec![right(21)]);
    }
    assert!(folded(vec![left(5), right(2), right(3)]).is_empty());
}

#[test]
fn a_cell_run_that_wraps_folds_to_the_same_change() {
    let one = folded(vec![inc(200), dec(100), dec(100), dec(100)]);
    let other = folded(vec![dec(100), dec(100), dec(100), inc(200)]);
    assert_eq!(one, vec![dec(100)]);
    assert_eq!(other, vec![inc(156)]);
    assert_eq!(0u8.wrapping_sub(100), 0u8.wrapping_add(156));
}

#[test]
fn a_pointer_run_that_does_not_fit_keeps_its_distance() {
    let kept = folded(vec![right(u32::MAX), right(5), left(3)]);
    assert_eq!(kept, vec![right(u32::MAX), right(2)]);
    assert_eq!(right(u32::MAX).fold_with(right(5)), FoldResult::CantFold);
}

#[test]
fn after_a_cancelled_excursion_a_run_may_fail_later() {
    let (plain, optimized) = both("<>.<", b"", 100);
    assert_eq!(plain.result, Err(Error::Underflow));
    assert!(plain.output.is_empty());
    assert_eq!(optimized.result, Err(Error::Underflow));
    assert_eq!(optimized.output, vec![0]);
}

#[test]
fn after_a_cancelled_excursion_a_run_may_fail_otherwise() {
    let code = "<>>>";
    let plain = InstructionStream::<u8>::from_code(code.as_bytes()).unwrap();
    let optimized = InstructionStream::<u8>::optimized_from_code(code.as_bytes()).unwrap();
    assert_eq!(optimized.instructions(), &[right(2)]);
    let mut interpreter = Interpreter::build(Vec::new(), Vec::new())
        .data_array_size(2)
        .instruction_limit(100)
        .build();
    assert_eq!(interpreter.run(plain.instructions()), Err(Error::Underflow));
    let mut interpreter = Interpreter::build(Vec::new(), Vec::new())
        .data_array_size(2)
        .instruction_limit(100)
        .build();
    assert_eq!(interpreter.run(optimized.instructions()), Err(Error::Overflow));
}

#[test]
fn folding_does_not_depend_on_the_order_where_each_side_fits() {
    let orders = [
        vec![inc(200), dec(150), dec(100)],
        vec![dec(150), dec(100), inc(200)],
        vec![dec(100), inc(200), dec(150)],
        vec![dec(150), inc(200), dec(100)],
    ];
    for order in orders {
        assert_eq!(folded(order), vec![dec(50)]);
    }
    let orders = [
        vec![right(u32::MAX), left(u32::MAX - 1), left(1)],
        vec![left(1), right(u32::MAX), left(u32::MAX - 1)],
        vec![left(u32::MAX - 1), left(1), right(u32::MAX)],
    ];
    for order in orders {
        assert!(folded(order).is_empty());
    }
}

#[test]
fn a_failure_on_a_move_that_stands_alone_is_kept() {
    let programs: [(&str, &[u8]); 4] = [
        ("+.<.", b""),
        (",.>+[-]<+<", b"x"),
        ("+[.>+]", b""),
        ("+>-<[-]<+", b""),
    ];
    for (code, input) in programs {
        let (plain, optimized) = both(code, input, 10_000);
        assert!(
            matches!(plain.result, Err(Error::Overflow) | Err(Error::Underflow)),
            "{code}"
        );
        assert_eq!(plain.result, optimized.result, "{code}");
        assert_eq!(plain.output, optimized.output, "{code}");
        assert_eq!(plain.data, optimized.data, "{code}");
        assert_eq!(plain.pointer, optimized.pointer, "{code}");
        assert!(optimized.left >= plain.left, "{code}");
    }
}

#[test]
fn a_failure_at_the_start_is_kept() {
    let plain = InstructionStream::<u8>::from_code(b"+.").unwrap();
    let optimized = InstructionStream::<u8>::optimized_from_code(b"+.").unwrap();
    for stream in [plain, optimized] {
        let mut interpreter = Interpreter::build(Vec::new(), Vec::new())
            .data_array_size(4)
            .initial_data_pointer(4)
            .build();
        assert_eq!(interpreter.run(stream.instructions()), Err(Error::InitOverflow));
        assert!(interpreter.output().is_empty());
    }
}
