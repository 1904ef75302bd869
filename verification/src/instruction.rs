//! Provides [`Instruction`] and conversion from `u8`.

use vstd::prelude::*;
use vstd::std_specs::convert::TryFromSpecImpl;
use crate::cell_type::{CellType, NonZero};

verus! {

/// An optimized Brainfuck instruction.
///
/// Some of the variants do not have a direct Brainfuck representation and only occur in optimized instruction streams.
#[derive(Copy, PartialEq, Eq, Debug)]
pub enum Instruction<C: CellType> {
    /// Set the value of the current cell
    ///
    /// With a value of `0`, equivalent to `[-]`.
    SetCell(C),
    /// Output the value of the current cell.
    ///
    /// Equivalent to `.`.
    Write,
    /// Read input into the current cell.
    ///
    /// Equivalent to `,`.
    Read,
    /// Start a loop.
    ///
    /// The `u32` field stores the position of the end of the loop.
    /// Until jumps are resolved it is `0`.
    ///
    /// Equivalent to `[`.
    LoopStart(u32),
    /// End a loop.
    ///
    /// The `u32` field stores the position of the start of the loop.
    /// Until jumps are resolved it is `0`.
    ///
    /// Equivalent to `]`.
    LoopEnd(u32),
    /// Add the contained value to the value in the current cell.
    ///
    /// With a value of `1`, equivalent to `+`.
    Inc(NonZero<C>),
    /// Subtract the contained value from the value in the current cell.
    ///
    /// With a value of `1`, equivalent to `-`.
    Dec(NonZero<C>),
    /// Add the contained value to the pointer.
    ///
    /// With a value of `1`, equivalent to `>`.
    IncPtr(NonZero<u32>),
    /// Subtract the contained value from the pointer.
    ///
    /// With a value of `1`, equivalent to `<`.
    DecPtr(NonZero<u32>),
}

impl<C: CellType> Clone for Instruction<C> {
    fn clone(&self) -> (r: Self)
        ensures
            r == *self,
    {
        *self
    }
}

/// The error that occurs when attempting to convert a non-instruction character to [`Instruction`].
#[derive(Debug, Clone, Copy)]
pub struct NotInstruction;

impl NotInstruction {
    /// The text of the error.
    pub fn message(&self) -> (r: &'static str)
        ensures
            r@ == "not an instruction"@,
    {
        "not an instruction"
    }
}

/// The instruction that a byte of program text stands for, if any.
pub open spec fn lexical<C: CellType>(byte: u8) -> Option<Instruction<C>> {
    if byte == 43 {
        Some(Instruction::Inc(NonZero::unit()))
    } else if byte == 45 {
        Some(Instruction::Dec(NonZero::unit()))
    } else if byte == 62 {
        Some(Instruction::IncPtr(NonZero::unit()))
    } else if byte == 60 {
        Some(Instruction::DecPtr(NonZero::unit()))
    } else if byte == 46 {
        Some(Instruction::Write)
    } else if byte == 44 {
        Some(Instruction::Read)
    } else if byte == 91 {
        Some(Instruction::LoopStart(0))
    } else if byte == 93 {
        Some(Instruction::LoopEnd(0))
    } else {
        None
    }
}

impl<C: CellType> TryFrom<u8> for Instruction<C> {
    type Error = NotInstruction;

    fn try_from(value: u8) -> (r: Result<Self, NotInstruction>) {
        // '+' '-' '>' '<' '.' ',' '[' ']'
        match value {
            43 => Ok(Instruction::Inc(NonZero::one())),
            45 => Ok(Instruction::Dec(NonZero::one())),
            62 => Ok(Instruction::IncPtr(NonZero::one())),
            60 => Ok(Instruction::DecPtr(NonZero::one())),
            46 => Ok(Instruction::Write),
            44 => Ok(Instruction::Read),
            // Jump points are computed later, over the whole stream
            91 => Ok(Instruction::LoopStart(0)),
            93 => Ok(Instruction::LoopEnd(0)),
            _ => Err(NotInstruction),
        }
    }
}

impl<C: CellType> TryFromSpecImpl<u8> for Instruction<C> {
    open spec fn obeys_try_from_spec() -> bool {
        true
    }

    open spec fn try_from_spec(value: u8) -> Result<Self, NotInstruction> {
        match lexical::<C>(value) {
            Some(instruction) => Ok(instruction),
            None => Err(NotInstruction),
        }
    }
}

} // verus!
