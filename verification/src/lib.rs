//! A verified Brainfuck toolchain: instruction representation, jump
//! resolution, a peephole optimizer and a bounds-checked interpreter.

use vstd::prelude::*;
use vstd::string::StringSliceAdditionalSpecFns;

pub mod cell_type;
pub mod compile;
pub mod equivalence;
pub mod instruction;
pub mod interpret;

pub use cell_type::CellType;
pub use compile::InstructionStream;
pub use instruction::Instruction;
pub use interpret::Interpreter;

use compile::jumps::linked;
use compile::optimize::{optimized, recommended_size};
use compile::{parsed, resolved, verdict};
use interpret::{fresh, outcome};

verus! {

/// Convenience method to compile and optimize the code in `input`.
///
/// # Errors
///
/// Returns `Err` iff compilation or optimization returns `Err`.
pub fn compile<T: CellType>(input: &str) -> (r: Result<InstructionStream<T>, compile::Error>)
    requires
        input.spec_bytes().len() <= u32::MAX,
    ensures
        match r {
            Ok(stream) => {
                &&& verdict(parsed::<T>(input.spec_bytes())) == Ok::<(), compile::Error>(())
                &&& stream@ == resolved(optimized(parsed::<T>(input.spec_bytes())))
                &&& linked(stream@)
                &&& stream.array_size() == recommended_size(stream@)
                &&& stream.array_size() >= MIN_DATA_ARRAY_SIZE
            },
            Err(error) => verdict(parsed::<T>(input.spec_bytes())) == Err::<(), compile::Error>(
                error,
            ),
        },
{
    InstructionStream::optimized_from_code(input.as_bytes())
}

/// Convenience method to interpret the given instruction stream on an
/// array of the size it recommends, with `input` as the whole input and,
/// where `limit` is given, at most that many instructions. Returns how the
/// run ended and what it wrote.
///
/// # Errors
///
/// Returns `Err` iff the interpreter returns `Err`.
pub fn interpret<T: CellType>(
    stream: &InstructionStream<T>,
    input: Vec<u8>,
    limit: Option<u64>,
) -> (r: (Result<(), interpret::Error>, Vec<u8>))
    requires
        linked(stream@),
    ensures
        ({
            let end = outcome(fresh::<T>(stream.array_size() as nat, input@, limit), stream@);
            end.1 == r.0 && end.0.written == r.1@
        }),
{
    let builder = Interpreter::build(input, Vec::new()).configure_for(stream);
    let builder = match limit {
        Some(limit) => builder.instruction_limit(limit),
        None => builder,
    };
    let mut interpreter = builder.build();
    let result = interpreter.run(stream.instructions());
    (result, interpreter.into_output())
}

/// Convenience method to compile, optimize, and interpret the code in
/// `code`, with `input` as the whole input and, where `limit` is given, at
/// most that many instructions. Returns what the program wrote.
///
/// Uses 8-bit mode. The code must compile and the run must end well.
pub fn run(code: &str, input: Vec<u8>, limit: Option<u64>) -> (output: Vec<u8>)
    requires
        code.spec_bytes().len() <= u32::MAX,
        verdict(parsed::<u8>(code.spec_bytes())) is Ok,
        ({
            let stream = resolved(optimized(parsed::<u8>(code.spec_bytes())));
            outcome(fresh::<u8>(recommended_size(stream) as nat, input@, limit), stream).1 is Ok
        }),
    ensures
        ({
            let stream = resolved(optimized(parsed::<u8>(code.spec_bytes())));
            outcome(fresh::<u8>(recommended_size(stream) as nat, input@, limit), stream).0.written
                == output@
        }),
{
    match compile::<u8>(code) {
        Ok(stream) => interpret(&stream, input, limit).1,
        Err(_) => Vec::new(),
    }
}

/// The minimum size of the data array.
pub const MIN_DATA_ARRAY_SIZE: usize = 30_000;

} // verus!
