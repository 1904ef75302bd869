//! Compile and optimize Brainfuck input.

use vstd::prelude::*;
use crate::cell_type::CellType;
use crate::instruction::{lexical, Instruction};
use crate::compile::jumps::{lemma_resolved_linked, linked};

pub mod jumps;
pub mod laws;
pub mod optimize;
pub mod render_c;

verus! {

/// Errors that can occur while compiling.
#[derive(Copy, Clone, Debug, PartialEq, Eq)]
pub enum Error {
    /// A loop is started but not ended.
    UnmatchedStart,
    /// A loop is ended without being started.
    UnmatchedEnd,
}

impl Error {
    /// The text of the error.
    pub fn message(&self) -> (r: &'static str)
        ensures
            r@ == (match *self {
                Error::UnmatchedStart => "unmatched loop start"@,
                Error::UnmatchedEnd => "unmatched loop end"@,
            }),
    {
        match self {
            Error::UnmatchedStart => "unmatched loop start",
            Error::UnmatchedEnd => "unmatched loop end",
        }
    }
}

/// The instructions that a program text stands for: every byte that is a
/// command, in order; all other bytes are comments.
pub open spec fn parsed<C: CellType>(text: Seq<u8>) -> Seq<Instruction<C>>
    decreases text.len(),
{
    if text.len() == 0 {
        Seq::empty()
    } else {
        let before = parsed::<C>(text.drop_last());
        match lexical::<C>(text.last()) {
            Some(instruction) => before.push(instruction),
            None => before,
        }
    }
}

/// A program never has more instructions than its text has bytes.
pub proof fn lemma_parsed_len<C: CellType>(text: Seq<u8>)
    ensures
        parsed::<C>(text).len() <= text.len(),
    decreases text.len(),
{
    if text.len() > 0 {
        lemma_parsed_len::<C>(text.drop_last());
    }
}

/// By how much an instruction changes the nesting depth.
pub open spec fn depth_change<C: CellType>(instruction: Instruction<C>) -> int {
    match instruction {
        Instruction::LoopStart(_) => 1,
        Instruction::LoopEnd(_) => -1,
        _ => 0,
    }
}

/// The nesting depth after the first `n` instructions: the loop starts
/// among them minus the loop ends.
pub open spec fn nesting<C: CellType>(s: Seq<Instruction<C>>, n: int) -> int
    decreases n,
{
    if n <= 0 {
        0
    } else {
        nesting(s, n - 1) + depth_change(s[n - 1])
    }
}

/// The loop that starts at `i` ends at `j`: the depth after `j` is back to
/// what it was before `i`, for the first time.
pub open spec fn closes<C: CellType>(s: Seq<Instruction<C>>, i: int, j: int) -> bool {
    &&& 0 <= i < j < s.len()
    &&& s[i] is LoopStart
    &&& s[j] is LoopEnd
    &&& nesting(s, j + 1) == nesting(s, i)
    &&& forall|k: int| i < k <= j ==> #[trigger] nesting(s, k) > nesting(s, i)
}

/// The index of the first loop end at or after `from` that has no loop
/// start before it, or the length of `s` where there is none.
pub open spec fn first_unmatched_end<C: CellType>(s: Seq<Instruction<C>>, from: int) -> int
    decreases s.len() - from,
{
    if from >= s.len() {
        s.len() as int
    } else if nesting(s, from + 1) < 0 {
        from
    } else {
        first_unmatched_end(s, from + 1)
    }
}

/// Whether the loops of `s` are matched, and if not, what is wrong first.
pub open spec fn verdict<C: CellType>(s: Seq<Instruction<C>>) -> Result<(), Error> {
    if first_unmatched_end(s, 0) < s.len() {
        Err(Error::UnmatchedEnd)
    } else if nesting(s, s.len() as int) > 0 {
        Err(Error::UnmatchedStart)
    } else {
        Ok(())
    }
}

/// The loop at `i` has its end before `n`.
pub open spec fn closed_before<C: CellType>(s: Seq<Instruction<C>>, i: int, n: int) -> bool {
    exists|j: int| j < n && #[trigger] closes(s, i, j)
}

/// The end of the loop that starts at `i`.
pub open spec fn end_of<C: CellType>(s: Seq<Instruction<C>>, i: int) -> int {
    choose|j: int| closes(s, i, j)
}

/// The loop end at `j` has a start.
pub open spec fn opened<C: CellType>(s: Seq<Instruction<C>>, j: int) -> bool {
    exists|i: int| #[trigger] closes(s, i, j)
}

/// The start of the loop that ends at `j`.
pub open spec fn start_of<C: CellType>(s: Seq<Instruction<C>>, j: int) -> int {
    choose|i: int| closes(s, i, j)
}

/// The instruction at `k` once every loop that ends before `n` has had its
/// two targets written: the start holds the index of its end and the end
/// the index of its start. Everything else is as in `s`.
pub open spec fn resolved_at<C: CellType>(s: Seq<Instruction<C>>, n: int, k: int) -> Instruction<
    C,
> {
    match s[k] {
        Instruction::LoopStart(_) => if closed_before(s, k, n) {
            Instruction::LoopStart(end_of(s, k) as u32)
        } else {
            s[k]
        },
        Instruction::LoopEnd(_) => if k < n && opened(s, k) {
            Instruction::LoopEnd(start_of(s, k) as u32)
        } else {
            s[k]
        },
        other => other,
    }
}

/// `s` with the jump targets of every loop that ends before `n`.
pub open spec fn resolved_upto<C: CellType>(s: Seq<Instruction<C>>, n: int) -> Seq<
    Instruction<C>,
> {
    Seq::new(s.len(), |k: int| resolved_at(s, n, k))
}

/// `s` with the jump targets that resolution writes: those of every loop
/// that ends before the first loop end without a start.
pub open spec fn resolved<C: CellType>(s: Seq<Instruction<C>>) -> Seq<Instruction<C>> {
    resolved_upto(s, first_unmatched_end(s, 0))
}

/// A loop has one end.
pub proof fn lemma_one_end<C: CellType>(s: Seq<Instruction<C>>, i: int, j1: int, j2: int)
    requires
        closes(s, i, j1),
        closes(s, i, j2),
    ensures
        j1 == j2,
{
    if j1 < j2 {
        assert(nesting(s, j1 + 1) > nesting(s, i));
    } else if j2 < j1 {
        assert(nesting(s, j2 + 1) > nesting(s, i));
    }
}

/// A loop has one start.
pub proof fn lemma_one_start<C: CellType>(s: Seq<Instruction<C>>, i1: int, i2: int, j: int)
    requires
        closes(s, i1, j),
        closes(s, i2, j),
    ensures
        i1 == i2,
{
    if i1 < i2 {
        assert(nesting(s, i2) > nesting(s, i1));
    } else if i2 < i1 {
        assert(nesting(s, i1) > nesting(s, i2));
    }
}

/// Scanning past an instruction that ends no loop writes no target.
pub proof fn lemma_resolved_keep<C: CellType>(s: Seq<Instruction<C>>, n: int)
    requires
        0 <= n < s.len(),
        !(s[n] is LoopEnd),
    ensures
        resolved_upto(s, n + 1) == resolved_upto(s, n),
{
    assert forall|k: int| 0 <= k < s.len() implies resolved_at(s, n + 1, k) == resolved_at(
        s,
        n,
        k,
    ) by {
        if closed_before(s, k, n + 1) {
            let j = choose|j: int| j < n + 1 && closes(s, k, j);
            assert(j < n && closes(s, k, j));
        }
    }
    assert(resolved_upto(s, n + 1) =~= resolved_upto(s, n));
}

/// Scanning past the end of a loop writes the two targets of that loop.
pub proof fn lemma_resolved_close<C: CellType>(s: Seq<Instruction<C>>, i: int, n: int)
    requires
        closes(s, i, n),
        s.len() <= u32::MAX,
    ensures
        resolved_upto(s, n + 1) == resolved_upto(s, n).update(
            i,
            Instruction::LoopStart(n as u32),
        ).update(n, Instruction::LoopEnd(i as u32)),
{
    let after = resolved_upto(s, n).update(i, Instruction::LoopStart(n as u32)).update(
        n,
        Instruction::LoopEnd(i as u32),
    );
    assert forall|k: int| 0 <= k < s.len() implies resolved_at(s, n + 1, k) == after[k] by {
        if k == i {
            assert(closed_before(s, i, n + 1));
            lemma_one_end(s, i, end_of(s, i), n);
        } else if k == n {
            assert(opened(s, n));
            lemma_one_start(s, start_of(s, n), i, n);
        } else {
            if closed_before(s, k, n + 1) {
                let j = choose|j: int| j < n + 1 && closes(s, k, j);
                if j == n {
                    lemma_one_start(s, k, i, n);
                }
                assert(j < n && closes(s, k, j));
            }
        }
    }
    assert(resolved_upto(s, n + 1) =~= after);
}

/// The loop start at `i` is the `m`-th loop still open after `n`
/// instructions.
spec fn open_at<C: CellType>(s: Seq<Instruction<C>>, i: int, m: int, n: int) -> bool {
    &&& 0 <= i < n
    &&& s[i] is LoopStart
    &&& nesting(s, i) == m
    &&& forall|k: int| i < k <= n ==> #[trigger] nesting(s, k) > m
}

/// A stream of instructions.
///
/// Provides helpful methods for manipulating the instruction stream.
#[derive(Debug)]
pub struct InstructionStream<T: CellType> {
    instructions: Vec<Instruction<T>>,
    recommended_array_size: usize,
}

impl<T: CellType> View for InstructionStream<T> {
    type V = Seq<Instruction<T>>;

    closed spec fn view(&self) -> Seq<Instruction<T>> {
        self.instructions@
    }
}

impl<T: CellType> InstructionStream<T> {
    /// The array size that the stream recommends.
    pub closed spec fn array_size(&self) -> usize {
        self.recommended_array_size
    }

    /// A stream of instructions whose jumps are yet to be resolved.
    pub(crate) fn unresolved(instructions: Vec<Instruction<T>>) -> (r: Self)
        ensures
            r@ == instructions@,
            r.array_size() == crate::MIN_DATA_ARRAY_SIZE,
    {
        Self { instructions, recommended_array_size: crate::MIN_DATA_ARRAY_SIZE }
    }

    /// Creates a new instruction stream from instructions.
    ///
    /// # Errors
    ///
    /// Returns `Err` iff there are unmatched loop starts or ends.
    pub fn new(instructions: Vec<Instruction<T>>) -> (r: Result<Self, Error>)
        requires
            instructions@.len() <= u32::MAX,
        ensures
            match r {
                Ok(stream) => {
                    &&& verdict(instructions@) == Ok::<(), Error>(())
                    &&& stream@ == resolved(instructions@)
                    &&& linked(stream@)
                    &&& stream.array_size() == crate::MIN_DATA_ARRAY_SIZE
                },
                Err(error) => verdict(instructions@) == Err::<(), Error>(error),
            },
    {
        let mut stream = Self::unresolved(instructions);
        match stream.insert_bf_jump_points() {
            Ok(()) => {
                proof {
                    lemma_resolved_linked(instructions@);
                }
                Ok(stream)
            },
            Err(error) => Err(error),
        }
    }

    /// Create a new instruction stream from Brainfuck code.
    ///
    /// # Errors
    ///
    /// Returns `Err` iff there are unmatched loop starts or ends.
    pub fn from_code(input: &[u8]) -> (r: Result<Self, Error>)
        requires
            input@.len() <= u32::MAX,
        ensures
            match r {
                Ok(stream) => {
                    &&& verdict(parsed::<T>(input@)) == Ok::<(), Error>(())
                    &&& stream@ == resolved(parsed::<T>(input@))
                    &&& linked(stream@)
                    &&& stream.array_size() == crate::MIN_DATA_ARRAY_SIZE
                },
                Err(error) => verdict(parsed::<T>(input@)) == Err::<(), Error>(error),
            },
    {
        let instructions = Self::instructions_from_text(input);
        proof {
            lemma_parsed_len::<T>(input@);
        }
        Self::new(instructions)
    }

    /// Returns a statically-guessed array size that would work best for this brainfuck stream.
    #[must_use]
    pub fn recommended_array_size(&self) -> (r: usize)
        ensures
            r == self.array_size(),
    {
        self.recommended_array_size
    }

    /// Get the instructions in the stream.
    #[must_use]
    pub fn instructions(&self) -> (r: &[Instruction<T>])
        ensures
            r@ == self@,
    {
        self.instructions.as_slice()
    }

    /// The instructions of a program text, with loop targets still unset.
    #[must_use]
    pub fn instructions_from_text(text: &[u8]) -> (r: Vec<Instruction<T>>)
        ensures
            r@ == parsed::<T>(text@),
    {
        let mut instructions: Vec<Instruction<T>> = Vec::new();
        let mut idx: usize = 0;
        while idx < text.len()
            invariant
                idx <= text.len(),
                instructions@ == parsed::<T>(text@.take(idx as int)),
            decreases text.len() - idx,
        {
            proof {
                assert(text@.take(idx + 1).drop_last() =~= text@.take(idx as int));
            }
            match Instruction::try_from(text[idx]) {
                Ok(instruction) => instructions.push(instruction),
                Err(_) => {},
            }
            idx += 1;
        }
        proof {
            assert(text@.take(idx as int) =~= text@);
        }
        instructions
    }

    /// Writes into every loop start the index of its end and into every
    /// loop end the index of its start, scanning from the left and stopping
    /// at the first loop end that has no start.
    pub fn insert_bf_jump_points(&mut self) -> (r: Result<(), Error>)
        requires
            old(self)@.len() <= u32::MAX,
        ensures
            r == verdict(old(self)@),
            final(self)@ == resolved(old(self)@),
            final(self).array_size() == old(self).array_size(),
    {
        let mut stack: Vec<usize> = Vec::new();
        let ghost s = self.instructions@;
        let len = self.instructions.len();
        let mut idx: usize = 0;
        while idx < len
            invariant
                s == old(self)@,
                len == s.len(),
                len <= u32::MAX,
                idx <= len,
                self.recommended_array_size == old(self).recommended_array_size,
                first_unmatched_end(s, 0) == first_unmatched_end(s, idx as int),
                nesting(s, idx as int) == stack@.len(),
                forall|m: int| 0 <= m < stack@.len() ==> open_at(s, #[trigger] stack@[m] as int, m, idx as int),
                self.instructions@ == resolved_upto(s, idx as int),
            decreases len - idx,
        {
            let ghost depth = stack@.len() as int;
            match self.instructions[idx] {
                Instruction::LoopStart(_) => {
                    stack.push(idx);
                    proof {
                        lemma_resolved_keep(s, idx as int);
                    }
                },
                Instruction::LoopEnd(_) => {
                    match stack.pop() {
                        None => {
                            proof {
                                assert(s[idx as int] is LoopEnd);
                                assert(nesting(s, idx + 1) < 0);
                                assert(first_unmatched_end(s, idx as int) == idx);
                            }
                            return Err(Error::UnmatchedEnd);
                        },
                        Some(start_idx) => {
                            proof {
                                assert(open_at(s, start_idx as int, depth - 1, idx as int));
                                assert(closes(s, start_idx as int, idx as int));
                                lemma_resolved_close(s, start_idx as int, idx as int);
                            }
                            self.instructions.set(start_idx, Instruction::LoopStart(idx as u32));
                            self.instructions.set(idx, Instruction::LoopEnd(start_idx as u32));
                        },
                    }
                },
                _ => {
                    proof {
                        lemma_resolved_keep(s, idx as int);
                    }
                },
            }
            idx += 1;
        }
        if stack.is_empty() {
            Ok(())
        } else {
            Err(Error::UnmatchedStart)
        }
    }
}

} // verus!
