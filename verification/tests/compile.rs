use bfirs::cell_type::NonZero;
use bfirs::compile::jumps::jumps_resolved;
use bfirs::compile::optimize::FoldResult;
use bfirs::compile::Error;
use bfirs::instruction::NotInstruction;
use bfirs::{Instruction, InstructionStream, MIN_DATA_ARRAY_SIZE};

fn nz<C: bfirs::CellType>(v: C) -> NonZero<C> {
    NonZero::new(v).unwrap()
}

fn inc(v: u8) -> Instruction<u8> {
    Instruction::Inc(nz(v))
}

fn dec(v: u8) -> Instruction<u8> {
    Instruction::Dec(nz(v))
}

fn right(v: u32) -> Instruction<u8> {
    Instruction::IncPtr(nz(v))
}

fn left(v: u32) -> Instruction<u8> {
    Instruction::DecPtr(nz(v))
}

fn optimized(code: &str) -> Vec<Instruction<u8>> {
    InstructionStream::<u8>::optimized_from_code(code.as_bytes())
        .unwrap()
        .instructions()
        .to_vec()
}

#[test]
fn non_zero_rejects_zero() {
    assert!(NonZero::new(0u8).is_none());
    assert!(NonZero::new(0u32).is_none());
    assert_eq!(NonZero::new(7u16).unwrap().get(), 7);
    assert_eq!(NonZero::<u32>::one().get(), 1);
}

#[test]
fn every_command_byte_is_an_instruction() {
    assert_eq!(Instruction::<u8>::try_from(b'+').unwrap(), inc(1));
    assert_eq!(Instruction::<u8>::try_from(b'-').unwrap(), dec(1));
    assert_eq!(Instruction::<u8>::try_from(b'>').unwrap(), right(1));
    assert_eq!(Instruction::<u8>::try_from(b'<').unwrap(), left(1));
    assert_eq!(Instruction::<u8>::try_from(b'.').unwrap(), Instruction::Write);
    assert_eq!(Instruction::<u8>::try_from(b',').unwrap(), Instruction::Read);
    assert_eq!(Instruction::<u8>::try_from(b'[').unwrap(), Instruction::LoopStart(0));
    assert_eq!(Instruction::<u8>::try_from(b']').unwrap(), Instruction::LoopEnd(0));
}

#[test]
fn other_bytes_are_not_instructions() {
    for byte in 0..=255u8 {
        if !b"+-<>.,[]".contains(&byte) {
            assert!(matches!(Instruction::<u16>::try_from(byte), Err(NotInstruction)));
        }
    }
    assert_eq!(NotInstruction.message(), "not an instruction");
}

#[test]
fn comments_are_skipped() {
    let text = b"a+ b-\n>c<\t.,x[y]z";
    let instructions = InstructionStream::<u8>::instructions_from_text(text);
    assert_eq!(
        instructions,
        vec![
            inc(1),
            dec(1),
            right(1),
            left(1),
            Instruction::Write,
            Instruction::Read,
            Instruction::LoopStart(0),
            Instruction::LoopEnd(0),
        ]
    );
    assert!(InstructionStream::<u8>::instructions_from_text(b"hello world").is_empty());
}

#[test]
fn jumps_point_at_their_partners() {
    let stream = InstructionStream::<u8>::from_code(b"[[]+[-]]").unwrap();
    assert_eq!(
        stream.instructions(),
        &[
            Instruction::LoopStart(7),
            Instruction::LoopStart(2),
            Instruction::LoopEnd(1),
            inc(1),
            Instruction::LoopStart(6),
            dec(1),
            Instruction::LoopEnd(4),
            Instruction::LoopEnd(0),
        ]
    );
    assert_eq!(stream.recommended_array_size(), MIN_DATA_ARRAY_SIZE);
}

#[test]
fn resolving_again_changes_nothing() {
    let first = InstructionStream::<u8>::from_code(b"+[>[-]<[->+<]]>.").unwrap();
    let again = InstructionStream::new(first.instructions().to_vec()).unwrap();
    assert_eq!(first.instructions(), again.instructions());
}

#[test]
fn resolution_overwrites_stale_targets() {
    let stale = vec![
        Instruction::<u8>::LoopStart(9),
        Instruction::LoopStart(9),
        Instruction::LoopEnd(9),
        Instruction::LoopEnd(9),
    ];
    let stream = InstructionStream::new(stale).unwrap();
    assert_eq!(
        stream.instructions(),
        &[
            Instruction::LoopStart(3),
            Instruction::LoopStart(2),
            Instruction::LoopEnd(1),
            Instruction::LoopEnd(0),
        ]
    );
}

#[test]
fn unmatched_start_is_an_error() {
    assert!(matches!(InstructionStream::<u8>::from_code(b"[[]"), Err(Error::UnmatchedStart)));
    assert!(matches!(InstructionStream::<u8>::from_code(b"+["), Err(Error::UnmatchedStart)));
    assert!(matches!(bfirs::compile::<u8>("[[-]"), Err(Error::UnmatchedStart)));
    assert_eq!(Error::UnmatchedStart.message(), "unmatched loop start");
}

#[test]
fn unmatched_end_is_an_error() {
    assert!(matches!(InstructionStream::<u8>::from_code(b"]"), Err(Error::UnmatchedEnd)));
    assert!(matches!(InstructionStream::<u8>::from_code(b"[]]["), Err(Error::UnmatchedEnd)));
    assert!(matches!(bfirs::compile::<u16>("+]"), Err(Error::UnmatchedEnd)));
    assert_eq!(Error::UnmatchedEnd.message(), "unmatched loop end");
}

#[test]
fn a_failed_resolution_stops_at_the_bad_end() {
    let mut stream = InstructionStream::<u8>::from_code(b"[]").unwrap();
    assert_eq!(stream.insert_bf_jump_points(), Ok(()));
    let instructions = InstructionStream::<u8>::instructions_from_text(b"[]][]");
    assert!(matches!(InstructionStream::new(instructions), Err(Error::UnmatchedEnd)));
}

#[test]
fn fold_adds_increments() {
    assert_eq!(inc(3).fold_with(inc(4)), FoldResult::Folded(inc(7)));
    assert_eq!(dec(3).fold_with(dec(4)), FoldResult::Folded(dec(7)));
    assert_eq!(inc(200).fold_with(inc(100)), FoldResult::Folded(inc(44)));
    assert_eq!(dec(255).fold_with(dec(2)), FoldResult::Folded(dec(1)));
}

#[test]
fn fold_that_wraps_to_zero_is_nothing() {
    assert_eq!(inc(128).fold_with(inc(128)), FoldResult::NoOp);
    assert_eq!(dec(255).fold_with(dec(1)), FoldResult::NoOp);
    let a = Instruction::<u16>::Inc(nz(0x8000));
    assert_eq!(a.fold_with(a), FoldResult::NoOp);
}

#[test]
fn fold_of_opposites_is_the_net_difference() {
    assert_eq!(inc(5).fold_with(dec(3)), FoldResult::Folded(inc(2)));
    assert_eq!(dec(3).fold_with(inc(5)), FoldResult::Folded(inc(2)));
    assert_eq!(inc(3).fold_with(dec(5)), FoldResult::Folded(dec(2)));
    assert_eq!(dec(5).fold_with(inc(3)), FoldResult::Folded(dec(2)));
    assert_eq!(inc(9).fold_with(dec(9)), FoldResult::NoOp);
    assert_eq!(dec(9).fold_with(inc(9)), FoldResult::NoOp);
}

#[test]
fn fold_of_pointer_moves() {
    assert_eq!(right(3).fold_with(right(4)), FoldResult::Folded(right(7)));
    assert_eq!(left(3).fold_with(left(4)), FoldResult::Folded(left(7)));
    assert_eq!(right(5).fold_with(left(3)), FoldResult::Folded(right(2)));
    assert_eq!(left(3).fold_with(right(5)), FoldResult::Folded(right(2)));
    assert_eq!(right(3).fold_with(left(5)), FoldResult::Folded(left(2)));
    assert_eq!(left(5).fold_with(right(3)), FoldResult::Folded(left(2)));
    assert_eq!(right(4).fold_with(left(4)), FoldResult::NoOp);
    assert_eq!(left(4).fold_with(right(4)), FoldResult::NoOp);
}

#[test]
fn pointer_moves_that_overflow_do_not_fold() {
    assert_eq!(right(u32::MAX).fold_with(right(1)), FoldResult::CantFold);
    assert_eq!(left(u32::MAX).fold_with(left(u32::MAX)), FoldResult::CantFold);
    assert_eq!(
        right(u32::MAX - 1).fold_with(right(1)),
        FoldResult::Folded(right(u32::MAX))
    );
}

#[test]
fn a_later_set_wins() {
    let set = Instruction::<u8>::SetCell(9);
    assert_eq!(inc(3).fold_with(set), FoldResult::Folded(set));
    assert_eq!(dec(3).fold_with(set), FoldResult::Folded(set));
    assert_eq!(Instruction::<u8>::SetCell(1).fold_with(set), FoldResult::Folded(set));
}

#[test]
fn set_absorbs_what_follows() {
    let set = Instruction::<u8>::SetCell(250);
    assert_eq!(set.fold_with(inc(10)), FoldResult::Folded(Instruction::SetCell(4)));
    assert_eq!(set.fold_with(dec(10)), FoldResult::Folded(Instruction::SetCell(240)));
    assert_eq!(
        Instruction::<u8>::SetCell(3).fold_with(dec(10)),
        FoldResult::Folded(Instruction::SetCell(249))
    );
}

#[test]
fn other_pairs_do_not_fold() {
    assert_eq!(inc(1).fold_with(right(1)), FoldResult::CantFold);
    assert_eq!(right(1).fold_with(inc(1)), FoldResult::CantFold);
    assert_eq!(Instruction::<u8>::Write.fold_with(Instruction::Write), FoldResult::CantFold);
    assert_eq!(Instruction::<u8>::Read.fold_with(inc(1)), FoldResult::CantFold);
    assert_eq!(Instruction::<u8>::SetCell(1).fold_with(right(1)), FoldResult::CantFold);
    assert_eq!(right(1).fold_with(Instruction::SetCell(1)), FoldResult::CantFold);
    assert_eq!(
        Instruction::<u8>::LoopStart(0).fold_with(Instruction::LoopEnd(0)),
        FoldResult::CantFold
    );
}

#[test]
fn try_from_or_falls_back_on_zero() {
    let folded: FoldResult<Instruction<u8>> =
        FoldResult::try_from_or(FoldResult::CantFold, 0u8, Instruction::inc);
    assert_eq!(folded, FoldResult::CantFold);
    let folded: FoldResult<Instruction<u8>> =
        FoldResult::try_from_or(FoldResult::CantFold, 6u8, Instruction::dec);
    assert_eq!(folded, FoldResult::Folded(dec(6)));
    let folded: FoldResult<Instruction<u8>> = FoldResult::try_from_or_noop(0u32, Instruction::inc_ptr);
    assert_eq!(folded, FoldResult::NoOp);
    let folded: FoldResult<Instruction<u8>> = FoldResult::try_from_or_noop(8u32, Instruction::dec_ptr);
    assert_eq!(folded, FoldResult::Folded(left(8)));
}

#[test]
fn fold_like_folds_runs() {
    let mut stream = InstructionStream::<u8>::from_code(b"+++>>><<.--+").unwrap();
    stream.fold_like();
    assert_eq!(stream.instructions(), &[inc(3), right(1), Instruction::Write, dec(1)]);
}

#[test]
fn a_cancelled_run_leaves_nothing() {
    let mut stream = InstructionStream::<u8>::from_code(b"+-.><").unwrap();
    stream.fold_like();
    assert_eq!(stream.instructions(), &[Instruction::Write]);
    let mut stream = InstructionStream::<u8>::from_code(b"++--").unwrap();
    stream.fold_like();
    assert!(stream.instructions().is_empty());
}

#[test]
fn zeroing_loops_become_set_zero() {
    assert_eq!(optimized("[-]"), vec![Instruction::SetCell(0)]);
    assert_eq!(optimized("[+]"), vec![Instruction::SetCell(0)]);
    assert_eq!(optimized("[-]").len(), 1);
    assert_eq!(
        InstructionStream::<u32>::optimized_from_code(b"[+]").unwrap().instructions(),
        &[Instruction::SetCell(0)]
    );
}

#[test]
fn other_loops_are_left_alone() {
    assert_eq!(
        optimized("[--]"),
        vec![Instruction::LoopStart(2), dec(2), Instruction::LoopEnd(0)]
    );
    assert_eq!(
        optimized("[->]"),
        vec![Instruction::LoopStart(3), dec(1), right(1), Instruction::LoopEnd(0)]
    );
    assert_eq!(optimized("[]"), vec![Instruction::LoopStart(1), Instruction::LoopEnd(0)]);
}

#[test]
fn recognize_zeroings_needs_a_single_step_body() {
    let mut stream = InstructionStream::<u8>::from_code(b"+[-][+]>[.]").unwrap();
    stream.recognize_zeroings();
    assert_eq!(
        stream.instructions(),
        &[
            inc(1),
            Instruction::SetCell(0),
            Instruction::SetCell(0),
            right(1),
            Instruction::LoopStart(10),
            Instruction::Write,
            Instruction::LoopEnd(8),
        ]
    );
}

#[test]
fn set_zero_folds_with_its_neighbours() {
    assert_eq!(optimized("+++[-]++"), vec![Instruction::SetCell(2)]);
    assert_eq!(optimized("[-][-]-"), vec![Instruction::SetCell(255)]);
}

#[test]
fn optimization_runs_to_a_fixed_point() {
    assert!(optimized(">+-<").is_empty());
    assert_eq!(optimized("[>+-<-]"), vec![Instruction::SetCell(0)]);
    assert_eq!(optimized("+[>-+<[-]]"), vec![
        inc(1),
        Instruction::LoopStart(3),
        Instruction::SetCell(0),
        Instruction::LoopEnd(1),
    ]);
}

#[test]
fn optimize_resolves_jumps_anew() {
    let mut stream = InstructionStream::<u8>::from_code(b"++[>+++<-]>.").unwrap();
    assert_eq!(stream.optimize(), Ok(()));
    assert_eq!(
        stream.instructions(),
        &[
            inc(2),
            Instruction::LoopStart(6),
            right(1),
            inc(3),
            left(1),
            dec(1),
            Instruction::LoopEnd(1),
            right(1),
            Instruction::Write,
        ]
    );
}

#[test]
fn recommended_size_has_a_floor() {
    assert_eq!(InstructionStream::<u8>::optimized_from_code(b"").unwrap().recommended_array_size(), 30_000);
    assert_eq!(
        InstructionStream::<u8>::optimized_from_code(b">>>>").unwrap().recommended_array_size(),
        MIN_DATA_ARRAY_SIZE
    );
    assert_eq!(bfirs::compile::<u8>("+[>+]").unwrap().recommended_array_size(), 30_000);
}

#[test]
fn recommended_size_is_the_sum_of_moves_right() {
    let mut code = ">".repeat(20_000);
    code.push('.');
    code.push_str(&">".repeat(15_000));
    code.push('.');
    code.push_str(&"<".repeat(10));
    let stream = InstructionStream::<u8>::optimized_from_code(code.as_bytes()).unwrap();
    assert_eq!(stream.recommended_array_size(), 35_000);
    assert_eq!(
        stream.instructions(),
        &[right(20_000), Instruction::Write, right(15_000), Instruction::Write, left(10)]
    );
    let unoptimized = InstructionStream::<u8>::from_code(code.as_bytes()).unwrap();
    assert_eq!(unoptimized.recommended_array_size(), 30_000);
}

#[test]
fn compile_optimizes() {
    let stream = bfirs::compile::<u8>("++ ++ [-] , .").unwrap();
    assert_eq!(
        stream.instructions(),
        &[Instruction::SetCell(0), Instruction::Read, Instruction::Write]
    );
}

#[test]
fn render_c_writes_one_statement_for_each_instruction() {
    let stream = InstructionStream::<u8>::from_code(b"+[-]>.,<").unwrap();
    let expected = "#include <stdio.h>\n\
typedef unsigned char bf_cell_t;\n\
static bf_cell_t arr[30000] = {0,};\n\
int main() {\n\
\tbf_cell_t* cursor = arr;\n\
\t*cursor += 1;\n\
\twhile (*cursor != 0) {\n\
\t*cursor -= 1;\n\
\t}\n\
\tcursor += 1;\n\
\tputchar(*cursor);\n\
\t*cursor = getchar(); if (*cursor == EOF) { *cursor = 0; }\n\
\tcursor -= 1;\n\
}\n";
    assert_eq!(stream.render_c(), expected);
}

#[test]
fn render_c_names_the_cell_type_and_writes_numbers_in_decimal() {
    let mut code = "+".repeat(1234);
    code.push_str("[-]");
    code.push_str(&"-".repeat(70_000));
    code.push_str(&">".repeat(31_005));
    let stream = InstructionStream::<u32>::optimized_from_code(code.as_bytes()).unwrap();
    let expected = "#include <stdio.h>\n\
typedef unsigned int bf_cell_t;\n\
static bf_cell_t arr[31005] = {0,};\n\
int main() {\n\
\tbf_cell_t* cursor = arr;\n\
\t*cursor = 4294897296;\n\
\tcursor += 31005;\n\
}\n";
    assert_eq!(stream.render_c(), expected);
    let short = InstructionStream::<u16>::optimized_from_code(b"").unwrap();
    assert!(short.render_c().contains("typedef unsigned short bf_cell_t;\n"));
}

#[test]
fn jumps_resolved_tells_resolved_streams() {
    let mut stream = InstructionStream::<u8>::from_code(b"+[>[-]+<-]").unwrap();
    assert!(jumps_resolved(stream.instructions()));
    stream.recognize_zeroings();
    assert!(!jumps_resolved(stream.instructions()));
    assert_eq!(stream.insert_bf_jump_points(), Ok(()));
    assert!(jumps_resolved(stream.instructions()));
    assert!(jumps_resolved::<u8>(&[]));
    assert!(!jumps_resolved::<u8>(&[Instruction::LoopStart(0)]));
    assert!(!jumps_resolved::<u8>(&[Instruction::LoopStart(1), Instruction::LoopEnd(1)]));
    assert!(!jumps_resolved::<u8>(&[Instruction::LoopEnd(0), Instruction::LoopStart(0)]));
    assert!(!jumps_resolved::<u8>(&InstructionStream::<u8>::instructions_from_text(b"+[]")));
}
