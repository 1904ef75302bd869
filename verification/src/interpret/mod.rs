//! Interpret Brainfuck code.

use vstd::prelude::*;
use crate::cell_type::{wrapped, CellType};
use crate::compile::jumps::{lemma_linked_at, linked};
use crate::instruction::Instruction;

pub mod builder;

pub use builder::Builder;

verus! {

/// Errors that can occur while interpreting Brainfuck.
#[derive(Copy, Clone, Debug, PartialEq, Eq)]
pub enum Error {
    /// Runtime overflowed its data array.
    ///
    /// Occurs when the program attempts to move the pointer to or past the end of the data.
    Overflow,
    /// Runtime underflowed its data array.
    ///
    /// Occurs when the program attempts to move the pointer before the start of the data (0).
    Underflow,
    /// The pointer was already overflowed when the runtime started.
    ///
    /// Occurs when the initial data pointer has been set at or above the length of the data array when using the [Builder].
    InitOverflow,
    /// The instruction limit was reached.
    NotEnoughInstructions,
    /// An IO error occurred while reading from the input.
    InputIo,
    /// An IO error occurred while writing to the output.
    OutputIo,
}

impl Error {
    /// The text of the error.
    pub fn message(&self) -> (r: &'static str)
        ensures
            r@ == (match *self {
                Error::Overflow => "runtime overflowed its data array"@,
                Error::Underflow => "runtime underflowed its data array"@,
                Error::InitOverflow => "the pointer was already overflowed when the runtime started"@,
                Error::NotEnoughInstructions => "instruction limit reached. not enough instructions to complete the task. task halted before completion."@,
                Error::InputIo => "IO error while reading from input"@,
                Error::OutputIo => "IO error while writing to output"@,
            }),
    {
        match self {
            Error::Overflow => "runtime overflowed its data array",
            Error::Underflow => "runtime underflowed its data array",
            Error::InitOverflow => "the pointer was already overflowed when the runtime started",
            Error::NotEnoughInstructions => "instruction limit reached. not enough instructions to complete the task. task halted before completion.",
            Error::InputIo => "IO error while reading from input",
            Error::OutputIo => "IO error while writing to output",
        }
    }
}

/// What the instruction about to run needs from outside the machine.
#[derive(Copy, Clone, Debug, PartialEq, Eq)]
pub enum Request {
    /// Nothing: the instruction works on the machine alone.
    Nothing,
    /// A byte of input.
    Read,
    /// This byte is to be written to the output.
    Write(u8),
}

/// What the outside answered to a [`Request`].
#[derive(Copy, Clone, Debug, PartialEq, Eq)]
pub enum Reply {
    /// Nothing was asked.
    Nothing,
    /// The byte that was read, or `None` at the end of the input.
    Read(Option<u8>),
    /// The byte was written.
    Written,
    /// Reading or writing failed.
    Failed,
}

/// The state of the machine between two instructions.
pub ghost struct Machine<T> {
    /// The data array.
    pub cells: Seq<T>,
    /// The index of the current cell.
    pub cursor: int,
    /// How many instructions may still run, where there is a limit.
    pub budget: Option<u64>,
}

impl<T: CellType> Machine<T> {
    /// The cursor is inside the data array.
    pub open spec fn in_bounds(self) -> bool {
        0 <= self.cursor < self.cells.len()
    }

    /// The limit has been reached.
    pub open spec fn exhausted(self) -> bool {
        self.budget == Some(0u64)
    }

    /// The value of the current cell.
    pub open spec fn current(self) -> int {
        self.cells[self.cursor].value()
    }

    /// The machine after one instruction has been paid for.
    pub open spec fn spent(self) -> Self {
        Machine {
            cells: self.cells,
            cursor: self.cursor,
            budget: match self.budget {
                Some(left) => Some((left - 1) as u64),
                None => None,
            },
        }
    }

    /// The machine with `value` in the current cell.
    pub open spec fn with_current(self, value: T) -> Self {
        Machine {
            cells: self.cells.update(self.cursor, value),
            cursor: self.cursor,
            budget: self.budget,
        }
    }

    /// The machine with the cursor at `cursor`.
    pub open spec fn with_cursor(self, cursor: int) -> Self {
        Machine { cells: self.cells, cursor, budget: self.budget }
    }
}

/// What `instruction`, run on `m`, needs from outside: a byte of input for
/// a read and the current cell's low byte written for a write, unless the
/// machine cannot run it at all.
pub open spec fn wanted<T: CellType>(m: Machine<T>, instruction: Instruction<T>) -> Request {
    if !m.in_bounds() || m.exhausted() {
        Request::Nothing
    } else {
        match instruction {
            Instruction::Read => Request::Read,
            Instruction::Write => Request::Write((m.current() % 0x100) as u8),
            _ => Request::Nothing,
        }
    }
}

/// The machine and the instruction index after the instruction at `ip` has
/// run on `m`, given what the outside answered; or why it could not run.
/// An instruction that fails leaves the machine as it was.
pub open spec fn stepped<T: CellType>(
    m: Machine<T>,
    stream: Seq<Instruction<T>>,
    ip: int,
    reply: Reply,
) -> Result<(Machine<T>, int), Error> {
    if !m.in_bounds() {
        Err(Error::InitOverflow)
    } else if m.exhausted() {
        Err(Error::NotEnoughInstructions)
    } else {
        match stream[ip] {
            Instruction::SetCell(value) => Ok((m.spent().with_current(value), ip + 1)),
            Instruction::Inc(by) => Ok(
                (m.spent().with_current(wrapped(m.current() + by.value())), ip + 1),
            ),
            Instruction::Dec(by) => Ok(
                (m.spent().with_current(wrapped(m.current() - by.value())), ip + 1),
            ),
            Instruction::IncPtr(by) => if m.cursor + by.value() >= m.cells.len() {
                Err(Error::Overflow)
            } else {
                Ok((m.spent().with_cursor(m.cursor + by.value()), ip + 1))
            },
            Instruction::DecPtr(by) => if m.cursor - by.value() < 0 {
                Err(Error::Underflow)
            } else {
                Ok((m.spent().with_cursor(m.cursor - by.value()), ip + 1))
            },
            Instruction::Write => if reply is Failed {
                Err(Error::OutputIo)
            } else {
                Ok((m.spent(), ip + 1))
            },
            Instruction::Read => match reply {
                Reply::Failed => Err(Error::InputIo),
                Reply::Read(Some(byte)) => Ok(
                    (m.spent().with_current(T::from_value(byte as int)), ip + 1),
                ),
                _ => Ok((m.spent().with_current(T::from_value(0)), ip + 1)),
            },
            Instruction::LoopStart(end) => Ok(
                (
                    m.spent(),
                    if m.current() == 0 {
                        end + 1
                    } else {
                        ip + 1
                    },
                ),
            ),
            Instruction::LoopEnd(start) => Ok(
                (
                    m.spent(),
                    if m.current() != 0 {
                        start + 1
                    } else {
                        ip + 1
                    },
                ),
            ),
        }
    }
}

/// A machine together with the input it has yet to read and the output it
/// has written, both held in memory.
pub ghost struct Session<T> {
    /// The machine.
    pub machine: Machine<T>,
    /// The input not read yet.
    pub unread: Seq<u8>,
    /// The output written so far.
    pub written: Seq<u8>,
}

/// What input held in memory answers to `request`: its next byte, or `None`
/// at its end; and a write always succeeds.
pub open spec fn served(unread: Seq<u8>, request: Request) -> Reply {
    match request {
        Request::Nothing => Reply::Nothing,
        Request::Read => if unread.len() > 0 {
            Reply::Read(Some(unread[0]))
        } else {
            Reply::Read(None)
        },
        Request::Write(_) => Reply::Written,
    }
}

/// The session and the instruction index after the instruction at `ip`
/// has run, reading from and writing to memory; or why it could not run.
#[verifier::opaque]
pub open spec fn advanced<T: CellType>(
    s: Session<T>,
    stream: Seq<Instruction<T>>,
    ip: int,
) -> Result<(Session<T>, int), Error> {
    let request = wanted(s.machine, stream[ip]);
    match stepped(s.machine, stream, ip, served(s.unread, request)) {
        Ok((machine, next)) => Ok(
            (
                Session {
                    machine,
                    unread: if request is Read && s.unread.len() > 0 {
                        s.unread.skip(1)
                    } else {
                        s.unread
                    },
                    written: match request {
                        Request::Write(byte) => s.written.push(byte),
                        _ => s.written,
                    },
                },
                next,
            ),
        ),
        Err(error) => Err(error),
    }
}

/// The session after running `stream` from `ip` for at most `fuel`
/// instructions, and how the run ended: `Some(Ok)` where it reached the end
/// of the stream, `Some(Err)` where an instruction failed, which leaves the
/// session as it was before that instruction, and `None` where it was
/// still running after `fuel` instructions.
#[verifier::opaque]
pub open spec fn ran<T: CellType>(
    s: Session<T>,
    stream: Seq<Instruction<T>>,
    ip: int,
    fuel: nat,
) -> (Session<T>, Option<Result<(), Error>>)
    decreases fuel,
{
    if ip >= stream.len() {
        (s, Some(Ok(())))
    } else if fuel == 0 {
        (s, None)
    } else {
        match advanced(s, stream, ip) {
            Ok((next, next_ip)) => ran(next, stream, next_ip, (fuel - 1) as nat),
            Err(error) => (s, Some(Err(error))),
        }
    }
}

/// A run that has instructions and fuel left runs one instruction and goes
/// on from there, or ends with that instruction's failure.
pub proof fn lemma_ran_step<T: CellType>(
    s: Session<T>,
    stream: Seq<Instruction<T>>,
    ip: int,
    fuel: nat,
)
    requires
        ip < stream.len(),
        fuel > 0,
    ensures
        ran(s, stream, ip, fuel) == (match advanced(s, stream, ip) {
            Ok((next, next_ip)) => ran(next, stream, next_ip, (fuel - 1) as nat),
            Err(error) => (s, Some(Err(error))),
        }),
{
    reveal(ran);
}

/// A run that has instructions left and no fuel has not ended.
pub proof fn lemma_ran_out<T: CellType>(s: Session<T>, stream: Seq<Instruction<T>>, ip: int)
    requires
        ip < stream.len(),
    ensures
        ran(s, stream, ip, 0) == (s, None::<Result<(), Error>>),
{
    reveal(ran);
}

/// A run without fuel stays in the session it is in.
pub proof fn lemma_ran_nowhere<T: CellType>(s: Session<T>, stream: Seq<Instruction<T>>, ip: int)
    ensures
        ran(s, stream, ip, 0).0 == s,
{
    reveal(ran);
}

/// A run that has come to the end of the stream has ended well.
pub proof fn lemma_ran_done<T: CellType>(
    s: Session<T>,
    stream: Seq<Instruction<T>>,
    ip: int,
    fuel: nat,
)
    requires
        ip >= stream.len(),
    ensures
        ran(s, stream, ip, fuel) == (s, Some(Ok::<(), Error>(()))),
{
    reveal(ran);
}

/// The session after a whole run of `stream`, and how it ended. A run
/// whose cursor starts outside the data array fails at once; a run with a
/// limit of `n` instructions has ended after `n + 1` steps at the latest.
pub open spec fn run_of<T: CellType>(s: Session<T>, stream: Seq<Instruction<T>>, fuel: nat) -> (
    Session<T>,
    Option<Result<(), Error>>,
) {
    if !s.machine.in_bounds() {
        (s, Some(Err(Error::InitOverflow)))
    } else {
        ran(s, stream, 0, fuel)
    }
}

/// How many instructions a whole run can take: one more than its limit
/// allows, which is where it fails by the limit, and where there is no
/// limit, as many as 64 bits count.
pub open spec fn fuel_of(budget: Option<u64>) -> nat {
    match budget {
        Some(limit) => (limit + 1) as nat,
        None => u64::MAX as nat,
    }
}

/// The session that a whole run of `stream` ends in, and how it ends. A
/// run without a limit that is still running after as many instructions as
/// 64 bits count is given up as one that has reached its limit.
pub open spec fn outcome<T: CellType>(s: Session<T>, stream: Seq<Instruction<T>>) -> (
    Session<T>,
    Result<(), Error>,
) {
    let end = run_of(s, stream, fuel_of(s.machine.budget));
    match end.1 {
        Some(result) => (end.0, result),
        None => (end.0, Err(Error::NotEnoughInstructions)),
    }
}

/// The session that a run on the default configuration starts from: `size`
/// cells of zero, the cursor on the first, the limit `limit` where there
/// is one, all of `input` unread and nothing written.
pub open spec fn fresh<T: CellType>(size: nat, input: Seq<u8>, limit: Option<u64>) -> Session<T> {
    Session {
        machine: Machine {
            cells: Seq::new(size, |i: int| T::from_value(0)),
            cursor: 0,
            budget: limit,
        },
        unread: input,
        written: Seq::empty(),
    }
}

/// Whether so much time has passed since the output was last flushed that
/// it is to be flushed again: more than 16 milliseconds, for about sixty
/// updates a second.
pub fn flush_due(elapsed_millis: u128) -> (r: bool)
    ensures
        r == (elapsed_millis > 16),
{
    elapsed_millis > 16
}

/// A Brainfuck interpreter.
///
/// Many parameters can be customized; see [Builder] for the options that can be configured.
#[derive(Debug)]
pub struct Interpreter<T: CellType> {
    output: Vec<u8>,
    input: Vec<u8>,
    consumed: usize,
    data: Vec<T>,
    ptr: usize,
    instructions_left: Option<u64>,
}

impl<T: CellType> Interpreter<T> {
    /// The machine that the interpreter holds.
    pub closed spec fn machine(&self) -> Machine<T> {
        Machine { cells: self.data@, cursor: self.ptr as int, budget: self.instructions_left }
    }

    /// The input that has not been read yet.
    pub closed spec fn unread(&self) -> Seq<u8> {
        if self.consumed <= self.input@.len() {
            self.input@.skip(self.consumed as int)
        } else {
            Seq::empty()
        }
    }

    /// The output written so far.
    pub closed spec fn written(&self) -> Seq<u8> {
        self.output@
    }

    /// Start building a new interpreter.
    #[must_use]
    pub fn build(input: Vec<u8>, output: Vec<u8>) -> (r: Builder<T>)
        ensures
            r == Builder::<T>::start(input, output),
    {
        Builder::new(input, output)
    }

    /// An interpreter made of its parts.
    pub(crate) fn assemble(
        input: Vec<u8>,
        output: Vec<u8>,
        data: Vec<T>,
        ptr: usize,
        instructions_left: Option<u64>,
    ) -> (r: Self)
        ensures
            r.machine() == (Machine { cells: data@, cursor: ptr as int, budget: instructions_left }),
            r.unread() == input@,
            r.written() == output@,
    {
        Interpreter { output, input, consumed: 0, data, ptr, instructions_left }
    }

    /// Get the number of instructions remaining.
    ///
    /// Returns `None` if there is no instruction limit.
    #[must_use]
    pub fn instructions_left(&self) -> (r: Option<u64>)
        ensures
            r == self.machine().budget,
    {
        self.instructions_left
    }

    /// Set the instruction limit.
    ///
    /// Enables the limit if it was not already enabled.
    pub fn set_instruction_limit(&mut self, left: u64)
        ensures
            final(self).machine() == (Machine {
                cells: old(self).machine().cells,
                cursor: old(self).machine().cursor,
                budget: Some(left),
            }),
            final(self).unread() == old(self).unread(),
            final(self).written() == old(self).written(),
    {
        self.instructions_left = Some(left);
    }

    /// Remove the instruction limit if one existed.
    pub fn remove_instruction_limit(&mut self)
        ensures
            final(self).machine() == (Machine {
                cells: old(self).machine().cells,
                cursor: old(self).machine().cursor,
                budget: None,
            }),
            final(self).unread() == old(self).unread(),
            final(self).written() == old(self).written(),
    {
        self.instructions_left = None;
    }

    /// The output written so far.
    #[must_use]
    pub fn output(&self) -> (r: &[u8])
        ensures
            r@ == self.written(),
    {
        self.output.as_slice()
    }

    /// The output written so far, taken out of the interpreter.
    #[must_use]
    pub fn into_output(self) -> (r: Vec<u8>)
        ensures
            r@ == self.written(),
    {
        self.output
    }

    /// The data array.
    #[must_use]
    pub fn data(&self) -> (r: &[T])
        ensures
            r@ == self.machine().cells,
    {
        self.data.as_slice()
    }

    /// The index of the current cell.
    #[must_use]
    pub fn data_pointer(&self) -> (r: usize)
        ensures
            r == self.machine().cursor,
    {
        self.ptr
    }
}

impl<T: CellType> Interpreter<T> {
    /// The interpreter's machine, unread input and written output.
    pub open spec fn session(&self) -> Session<T> {
        Session { machine: self.machine(), unread: self.unread(), written: self.written() }
    }

    /// Moves the pointer `v` cells to the right, unless that leaves the
    /// data array.
    pub fn inc_ptr_by(&mut self, v: usize) -> (r: Result<(), Error>)
        ensures
            r is Ok <==> old(self).machine().cursor + v < old(self).machine().cells.len(),
            r is Err ==> r == Err::<(), Error>(Error::Overflow) && *final(self) == *old(self),
            r is Ok ==> final(self).machine() == old(self).machine().with_cursor(
                old(self).machine().cursor + v,
            ),
            final(self).unread() == old(self).unread(),
            final(self).written() == old(self).written(),
    {
        if self.ptr >= self.data.len() || v >= self.data.len() - self.ptr {
            return Err(Error::Overflow);
        }
        self.ptr = self.ptr + v;
        Ok(())
    }

    /// Moves the pointer `v` cells to the left, unless that leaves the
    /// data array.
    pub fn dec_ptr_by(&mut self, v: usize) -> (r: Result<(), Error>)
        ensures
            r is Ok <==> old(self).machine().cursor - v >= 0,
            r is Err ==> r == Err::<(), Error>(Error::Underflow) && *final(self) == *old(self),
            r is Ok ==> final(self).machine() == old(self).machine().with_cursor(
                old(self).machine().cursor - v,
            ),
            final(self).unread() == old(self).unread(),
            final(self).written() == old(self).written(),
    {
        if v > self.ptr {
            return Err(Error::Underflow);
        }
        self.ptr = self.ptr - v;
        Ok(())
    }

    /// Appends `v` to the output held in memory.
    pub fn write(&mut self, v: u8) -> (r: Reply)
        ensures
            r == Reply::Written,
            final(self).written() == old(self).written().push(v),
            final(self).machine() == old(self).machine(),
            final(self).unread() == old(self).unread(),
    {
        self.output.push(v);
        Reply::Written
    }

    /// Takes the next byte of the input held in memory; at its end there
    /// is none.
    pub fn read(&mut self) -> (r: Reply)
        ensures
            r == served(old(self).unread(), Request::Read),
            final(self).unread() == (if old(self).unread().len() > 0 {
                old(self).unread().skip(1)
            } else {
                old(self).unread()
            }),
            final(self).machine() == old(self).machine(),
            final(self).written() == old(self).written(),
    {
        if self.consumed < self.input.len() {
            let byte = self.input[self.consumed];
            proof {
                assert(self.input@.skip(self.consumed as int).skip(1) =~= self.input@.skip(
                    self.consumed + 1,
                ));
            }
            self.consumed = self.consumed + 1;
            Reply::Read(Some(byte))
        } else {
            Reply::Read(None)
        }
    }

    /// What the instruction at `ip` needs from outside before it can run.
    pub fn request(&self, stream: &[Instruction<T>], ip: usize) -> (r: Request)
        requires
            ip < stream@.len(),
        ensures
            r == wanted(self.machine(), stream@[ip as int]),
    {
        if self.ptr >= self.data.len() {
            return Request::Nothing;
        }
        if let Some(0) = self.instructions_left {
            return Request::Nothing;
        }
        match stream[ip] {
            Instruction::Read => Request::Read,
            Instruction::Write => Request::Write(self.data[self.ptr].truncate_to_byte()),
            _ => Request::Nothing,
        }
    }

    /// Runs the instruction at `ip`, given what the outside answered to its
    /// request, and returns the index of the instruction to run next.
    pub fn step(&mut self, stream: &[Instruction<T>], ip: usize, reply: Reply) -> (r: Result<
        usize,
        Error,
    >)
        requires
            ip < stream@.len(),
            linked(stream@),
        ensures
            match stepped(old(self).machine(), stream@, ip as int, reply) {
                Ok((machine, next)) => r == Ok::<usize, Error>(next as usize) && 0 <= next
                    <= stream@.len() && final(self).machine() == machine,
                Err(error) => r == Err::<usize, Error>(error) && final(self).machine() == old(
                    self,
                ).machine(),
            },
            final(self).unread() == old(self).unread(),
            final(self).written() == old(self).written(),
    {
        if self.ptr >= self.data.len() {
            return Err(Error::InitOverflow);
        }
        if let Some(0) = self.instructions_left {
            return Err(Error::NotEnoughInstructions);
        }
        proof {
            lemma_linked_at(stream@, ip as int);
        }
        let instruction = stream[ip];
        let mut next = ip + 1;
        match instruction {
            Instruction::SetCell(value) => {
                self.store(value);
            },
            Instruction::Inc(amount) => {
                let value = self.current().wrapping_add(amount.get());
                proof {
                    value.lemma_from_value();
                }
                self.store(value);
            },
            Instruction::Dec(amount) => {
                let value = self.current().wrapping_sub(amount.get());
                proof {
                    value.lemma_from_value();
                }
                self.store(value);
            },
            Instruction::IncPtr(by) => {
                let by = by.get();
                if by as u64 > usize::MAX as u64 {
                    return Err(Error::Overflow);
                }
                match self.inc_ptr_by(by as usize) {
                    Ok(()) => {},
                    Err(error) => {
                        return Err(error);
                    },
                }
            },
            Instruction::DecPtr(by) => {
                let by = by.get();
                if by as u64 > usize::MAX as u64 {
                    return Err(Error::Underflow);
                }
                match self.dec_ptr_by(by as usize) {
                    Ok(()) => {},
                    Err(error) => {
                        return Err(error);
                    },
                }
            },
            Instruction::Write => {
                if let Reply::Failed = reply {
                    return Err(Error::OutputIo);
                }
            },
            Instruction::Read => {
                let value = match reply {
                    Reply::Failed => {
                        return Err(Error::InputIo);
                    },
                    Reply::Read(Some(byte)) => T::from_byte(byte),
                    _ => T::zero(),
                };
                proof {
                    value.lemma_from_value();
                }
                self.store(value);
            },
            Instruction::LoopStart(end) => {
                assert(end < stream@.len());
                if self.current().into_u32() == 0 {
                    next = end as usize + 1;
                }
            },
            Instruction::LoopEnd(start) => {
                assert(start < stream@.len());
                if self.current().into_u32() != 0 {
                    next = start as usize + 1;
                }
            },
        }
        self.pay();
        Ok(next)
    }

    /// Runs the instruction at `ip`, reading from the input and writing to
    /// the output that the interpreter holds, and returns the index of the
    /// instruction to run next.
    pub fn advance(&mut self, stream: &[Instruction<T>], ip: usize) -> (r: Result<usize, Error>)
        requires
            ip < stream@.len(),
            linked(stream@),
        ensures
            match advanced(old(self).session(), stream@, ip as int) {
                Ok((session, next)) => r == Ok::<usize, Error>(next as usize) && 0 <= next
                    <= stream@.len() && final(self).session() == session,
                Err(error) => r == Err::<usize, Error>(error) && final(self).session() == old(
                    self,
                ).session(),
            },
            r is Ok ==> final(self).machine().in_bounds() && !old(self).machine().exhausted()
                && final(self).machine().budget == old(self).machine().spent().budget,
    {
        proof {
            reveal(advanced);
        }
        let request = self.request(stream, ip);
        let reply = match request {
            Request::Nothing => Reply::Nothing,
            Request::Read => self.read(),
            Request::Write(byte) => self.write(byte),
        };
        self.step(stream, ip, reply)
    }

    /// Whether a run can start: the cursor must be inside the data array.
    ///
    /// # Errors
    ///
    /// Returns `InitOverflow` where it is not.
    pub fn start(&self) -> (r: Result<(), Error>)
        ensures
            r == (if self.machine().in_bounds() {
                Ok::<(), Error>(())
            } else {
                Err::<(), Error>(Error::InitOverflow)
            }),
    {
        if self.ptr >= self.data.len() {
            Err(Error::InitOverflow)
        } else {
            Ok(())
        }
    }

    /// Run the interpreter on the given instruction stream, reading the
    /// input and writing the output that the interpreter holds.
    ///
    /// With an instruction limit the run takes no more instructions than
    /// the limit allows. Without one it runs until the program ends or
    /// fails.
    ///
    /// # Errors
    ///
    /// See the variants of [Error]. A run without a limit that is still
    /// running after as many instructions as 64 bits count is given up with
    /// `NotEnoughInstructions`.
    pub fn run(&mut self, stream: &[Instruction<T>]) -> (r: Result<(), Error>)
        requires
            linked(stream@),
        ensures
            outcome(old(self).session(), stream@) == (final(self).session(), r),
            old(self).machine().budget is Some ==> run_of(
                old(self).session(),
                stream@,
                (old(self).machine().budget.unwrap() + 1) as nat,
            ) == (final(self).session(), Some(r)),
            old(self).machine().budget is None ==> ({
                let end = run_of(old(self).session(), stream@, u64::MAX as nat);
                if end.1 is Some {
                    end == (final(self).session(), Some(r))
                } else {
                    r == Err::<(), Error>(Error::NotEnoughInstructions) && final(self).session()
                        == end.0
                }
            }),
    {
        match self.start() {
            Ok(()) => {},
            Err(error) => {
                return Err(error);
            },
        }
        let ghost whole = ran(self.session(), stream@, 0, fuel_of(self.machine().budget));
        let limited = self.instructions_left.is_some();
        let mut unlimited_left: u64 = u64::MAX;
        let mut ip: usize = 0;
        while ip < stream.len()
            invariant
                linked(stream@),
                ip <= stream@.len(),
                limited == (self.machine().budget is Some),
                limited == (old(self).machine().budget is Some),
                self.machine().in_bounds(),
                old(self).machine().in_bounds(),
                whole == ran(old(self).session(), stream@, 0, fuel_of(old(self).machine().budget)),
                limited ==> ran(
                    self.session(),
                    stream@,
                    ip as int,
                    (self.machine().budget.unwrap() + 1) as nat,
                ) == whole,
                !limited ==> ran(self.session(), stream@, ip as int, unlimited_left as nat)
                    == whole,
            decreases
                    (if limited {
                        self.machine().budget.unwrap()
                    } else {
                        unlimited_left
                    }),
        {
            if !limited {
                if unlimited_left == 0 {
                    proof {
                        lemma_ran_out(self.session(), stream@, ip as int);
                    }
                    return Err(Error::NotEnoughInstructions);
                }
                proof {
                    lemma_ran_step(self.session(), stream@, ip as int, unlimited_left as nat);
                }
                unlimited_left = unlimited_left - 1;
            } else {
                proof {
                    lemma_ran_step(
                        self.session(),
                        stream@,
                        ip as int,
                        (self.machine().budget.unwrap() + 1) as nat,
                    );
                }
            }
            match self.advance(stream, ip) {
                Ok(next) => {
                    ip = next;
                },
                Err(error) => {
                    return Err(error);
                },
            }
        }
        proof {
            if limited {
                lemma_ran_done(
                    self.session(),
                    stream@,
                    ip as int,
                    (self.machine().budget.unwrap() + 1) as nat,
                );
            } else {
                lemma_ran_done(self.session(), stream@, ip as int, unlimited_left as nat);
            }
        }
        Ok(())
    }

    /// The current cell.
    fn current(&self) -> (r: T)
        requires
            self.machine().in_bounds(),
        ensures
            r == self.machine().cells[self.machine().cursor],
            r.value() == self.machine().current(),
    {
        self.data[self.ptr]
    }

    /// Puts `value` into the current cell.
    fn store(&mut self, value: T)
        requires
            old(self).machine().in_bounds(),
        ensures
            final(self).machine() == old(self).machine().with_current(value),
            final(self).unread() == old(self).unread(),
            final(self).written() == old(self).written(),
    {
        self.data.set(self.ptr, value);
    }

    /// Counts one instruction against the limit, where there is one.
    fn pay(&mut self)
        requires
            !old(self).machine().exhausted(),
        ensures
            final(self).machine() == old(self).machine().spent(),
            final(self).unread() == old(self).unread(),
            final(self).written() == old(self).written(),
    {
        if let Some(left) = self.instructions_left {
            self.instructions_left = Some(left - 1);
        }
    }
}

} // verus!
