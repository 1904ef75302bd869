//! Provides the [`Builder`] of interpreters.

use vstd::prelude::*;
use crate::cell_type::CellType;
use crate::compile::InstructionStream;
use crate::interpret::{Interpreter, Machine};

verus! {

/// Builds an [Interpreter].
#[derive(Debug)]
pub struct Builder<T: CellType> {
    /// The bytes that the program can read.
    pub input: Vec<u8>,
    /// The bytes that stand in the output before the program writes.
    pub output: Vec<u8>,
    /// The number of cells of the data array.
    pub data_array_size: usize,
    /// The index of the cell that the run starts on.
    pub initial_data_pointer: usize,
    /// The value that every cell holds at the start.
    pub fill: T,
    /// How many instructions a run may take, where it is limited.
    pub instruction_limit: Option<u64>,
}

impl<T: CellType> Builder<T> {
    /// The builder that `new` returns: an array of the minimum size filled with
    /// zeros, the pointer at its start, and no instruction limit.
    pub open spec fn start(input: Vec<u8>, output: Vec<u8>) -> Self {
        Builder {
            input,
            output,
            data_array_size: crate::MIN_DATA_ARRAY_SIZE,
            initial_data_pointer: 0,
            fill: T::from_value(0),
            instruction_limit: None,
        }
    }

    /// Create a new builder.
    #[must_use]
    pub fn new(input: Vec<u8>, output: Vec<u8>) -> (r: Self)
        ensures
            r == Self::start(input, output),
    {
        let fill = T::zero();
        proof {
            fill.lemma_from_value();
        }
        Builder {
            input,
            output,
            data_array_size: crate::MIN_DATA_ARRAY_SIZE,
            initial_data_pointer: 0,
            fill,
            instruction_limit: None,
        }
    }

    /// Build an [Interpreter] based on the parameters that have been set.
    pub fn build(self) -> (r: Interpreter<T>)
        ensures
            r.machine() == (Machine {
                cells: Seq::new(self.data_array_size as nat, |i: int| self.fill),
                cursor: self.initial_data_pointer as int,
                budget: self.instruction_limit,
            }),
            r.unread() == self.input@,
            r.written() == self.output@,
    {
        let mut data: Vec<T> = Vec::new();
        let mut filled: usize = 0;
        while filled < self.data_array_size
            invariant
                filled <= self.data_array_size,
                data@ == Seq::new(filled as nat, |i: int| self.fill),
            decreases self.data_array_size - filled,
        {
            data.push(self.fill);
            filled += 1;
            proof {
                assert(data@ =~= Seq::new(filled as nat, |i: int| self.fill));
            }
        }
        Interpreter::assemble(
            self.input,
            self.output,
            data,
            self.initial_data_pointer,
            self.instruction_limit,
        )
    }

    /// Set the input.
    #[must_use]
    pub fn input(self, input: Vec<u8>) -> (r: Self)
        ensures
            r == (Builder { input, ..self }),
    {
        Builder { input, ..self }
    }

    /// Set the output.
    #[must_use]
    pub fn output(self, output: Vec<u8>) -> (r: Self)
        ensures
            r == (Builder { output, ..self }),
    {
        Builder { output, ..self }
    }

    /// Set the size of the data array.
    #[must_use]
    pub fn data_array_size(self, size: usize) -> (r: Self)
        ensures
            r == (Builder { data_array_size: size, ..self }),
    {
        Builder { data_array_size: size, ..self }
    }

    /// Set the value that the data array will be initialized to.
    #[must_use]
    pub fn fill(self, fill: T) -> (r: Self)
        ensures
            r == (Builder { fill, ..self }),
    {
        Builder { fill, ..self }
    }

    /// Set the initial position of the data pointer.
    #[must_use]
    pub fn initial_data_pointer(self, ptr: usize) -> (r: Self)
        ensures
            r == (Builder { initial_data_pointer: ptr, ..self }),
    {
        Builder { initial_data_pointer: ptr, ..self }
    }

    /// Set the instruction limit.
    #[must_use]
    pub fn instruction_limit(self, limit: u64) -> (r: Self)
        ensures
            r == (Builder { instruction_limit: Some(limit), ..self }),
    {
        Builder { instruction_limit: Some(limit), ..self }
    }

    /// Remove the instruction limit.
    #[must_use]
    pub fn no_instruction_limit(self) -> (r: Self)
        ensures
            r == (Builder { instruction_limit: None, ..self }),
    {
        Builder { instruction_limit: None, ..self }
    }

    /// Configure the interpreter based on the given instruction stream.
    #[must_use]
    pub fn configure_for(self, stream: &InstructionStream<T>) -> (r: Self)
        ensures
            r == (Builder { data_array_size: stream.array_size(), ..self }),
    {
        Builder { data_array_size: stream.recommended_array_size(), ..self }
    }
}

} // verus!
