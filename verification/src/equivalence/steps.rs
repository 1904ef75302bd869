//! What one step of a run does, told for the proofs of equivalence.

use vstd::prelude::*;
use crate::cell_type::{CellType, Sealed};
use crate::compile::jumps::lemma_resolved_keeps_brackets;
use crate::compile::{first_unmatched_end, resolved};
use crate::equivalence::effects::{acted, is_plain, lemma_acted_in_bounds, same_memory};
use crate::instruction::Instruction;
use crate::interpret::{advanced, Error, Machine, Session};

verus! {

/// Two sessions that hold the same memory, have the same input left and
/// have written the same output; their budgets may differ.
pub open spec fn alike<T: CellType>(a: Session<T>, b: Session<T>) -> bool {
    same_memory(a.machine, b.machine) && a.unread == b.unread && a.written == b.written
}

/// The budget `ours` allows at least `extra` instructions more than the
/// budget `theirs`; two budgets without a limit allow the same.
pub open spec fn richer(ours: Option<u64>, theirs: Option<u64>, extra: int) -> bool {
    match (ours, theirs) {
        (None, None) => true,
        (Some(left), Some(other)) => left >= other + extra,
        _ => false,
    }
}

/// `s` with the cells and the cursor of `m`, one instruction paid for.
pub open spec fn moved_on<T: CellType>(s: Session<T>, m: Machine<T>) -> Session<T> {
    Session {
        machine: Machine { cells: m.cells, cursor: m.cursor, budget: s.machine.spent().budget },
        unread: s.unread,
        written: s.written,
    }
}

/// Two instructions that do the same but for where they jump to.
pub open spec fn same_op<T: CellType>(a: Instruction<T>, b: Instruction<T>) -> bool {
    match a {
        Instruction::LoopStart(_) => b is LoopStart,
        Instruction::LoopEnd(_) => b is LoopEnd,
        _ => a == b,
    }
}

/// Where a run goes on after the instruction `x` at `ip`, which found
/// `current` in the current cell.
pub open spec fn next_ip<T: CellType>(x: Instruction<T>, ip: int, current: int) -> int {
    match x {
        Instruction::LoopStart(end) => if current == 0 {
            end + 1
        } else {
            ip + 1
        },
        Instruction::LoopEnd(start) => if current != 0 {
            start + 1
        } else {
            ip + 1
        },
        _ => ip + 1,
    }
}

/// A step that succeeds starts inside the data array with budget left,
/// ends inside the data array, and pays for one instruction.
pub proof fn lemma_step_ok<T: CellType>(s: Session<T>, stream: Seq<Instruction<T>>, ip: int)
    requires
        advanced(s, stream, ip) is Ok,
    ensures
        s.machine.in_bounds(),
        !s.machine.exhausted(),
        advanced(s, stream, ip).unwrap().0.machine.in_bounds(),
        advanced(s, stream, ip).unwrap().0.machine.cells.len() == s.machine.cells.len(),
        advanced(s, stream, ip).unwrap().0.machine.budget == s.machine.spent().budget,
        advanced(s, stream, ip).unwrap().1 == next_ip(stream[ip], ip, s.machine.current()),
{
    reveal(advanced);
    match stream[ip] {
        Instruction::IncPtr(by) => by.cell().lemma_value_range(),
        Instruction::DecPtr(by) => by.cell().lemma_value_range(),
        _ => {},
    }
}

/// A step over a plain instruction does to the memory what the
/// instruction does, and fails where the instruction cannot act.
pub proof fn lemma_step_acts<T: CellType>(s: Session<T>, stream: Seq<Instruction<T>>, ip: int)
    requires
        is_plain(stream[ip]),
        s.machine.in_bounds(),
        !s.machine.exhausted(),
    ensures
        match acted(s.machine, stream[ip]) {
            Some(m) => advanced(s, stream, ip) == Ok::<(Session<T>, int), Error>(
                (moved_on(s, m), ip + 1),
            ),
            None => advanced(s, stream, ip) is Err,
        },
{
    reveal(acted);
    reveal(advanced);
    match stream[ip] {
        Instruction::SetCell(value) => value.lemma_from_value(),
        Instruction::IncPtr(by) => by.cell().lemma_value_range(),
        Instruction::DecPtr(by) => by.cell().lemma_value_range(),
        _ => {},
    }
}

/// Two steps over instructions that do the same, from sessions that are
/// alike, end in sessions that are alike.
pub proof fn lemma_step_same<T: CellType>(
    s: Session<T>,
    stream: Seq<Instruction<T>>,
    ip: int,
    other: Session<T>,
    other_stream: Seq<Instruction<T>>,
    other_ip: int,
)
    requires
        alike(s, other),
        same_op(stream[ip], other_stream[other_ip]),
        advanced(s, stream, ip) is Ok,
        !other.machine.exhausted(),
    ensures
        advanced(other, other_stream, other_ip) is Ok,
        alike(advanced(s, stream, ip).unwrap().0, advanced(other, other_stream, other_ip).unwrap().0),
        advanced(other, other_stream, other_ip).unwrap().0.machine.budget == other.machine.spent().budget,
        advanced(other, other_stream, other_ip).unwrap().1 == next_ip(
            other_stream[other_ip],
            other_ip,
            s.machine.current(),
        ),
{
    reveal(advanced);
}

/// A step over a loop start or a loop end leaves the memory, the input and
/// the output as they are.
pub proof fn lemma_step_jump<T: CellType>(s: Session<T>, stream: Seq<Instruction<T>>, ip: int)
    requires
        stream[ip] is LoopStart || stream[ip] is LoopEnd,
        advanced(s, stream, ip) is Ok,
    ensures
        advanced(s, stream, ip).unwrap().0 == moved_on(s, s.machine),
{
    reveal(advanced);
}

/// A step from a session inside the data array, with its input and output
/// in memory, fails only by leaving the data array or by its limit.
pub proof fn lemma_step_fails<T: CellType>(s: Session<T>, stream: Seq<Instruction<T>>, ip: int)
    requires
        s.machine.in_bounds(),
        advanced(s, stream, ip) is Err,
    ensures
        ({
            let error = advanced(s, stream, ip)->Err_0;
            error == Error::Overflow || error == Error::Underflow || error
                == Error::NotEnoughInstructions
        }),
{
    reveal(advanced);
}

/// A step of the run of `s` over a plain instruction that succeeds does
/// what the instruction does.
pub proof fn lemma_plain_step<T: CellType>(s: Seq<Instruction<T>>, p: int, a: Session<T>)
    requires
        0 <= p < s.len(),
        is_plain(s[p]),
        advanced(a, resolved(s), p) is Ok,
    ensures
        a.machine.in_bounds(),
        !a.machine.exhausted(),
        acted(a.machine, s[p]) is Some,
        acted(a.machine, s[p]).unwrap().in_bounds(),
        advanced(a, resolved(s), p).unwrap() == (
            moved_on(a, acted(a.machine, s[p]).unwrap()),
            p + 1,
        ),
{
    let pp = resolved(s);
    lemma_resolved_keeps_brackets(s, first_unmatched_end(s, 0));
    assert(pp[p] == s[p]);
    lemma_step_ok(a, pp, p);
    lemma_step_acts(a, pp, p);
    lemma_acted_in_bounds(a.machine, s[p]);
}

/// A step takes nothing back of what has been written.
pub proof fn lemma_step_writes<T: CellType>(s: Session<T>, stream: Seq<Instruction<T>>, ip: int)
    requires
        advanced(s, stream, ip) is Ok,
    ensures
        s.written.is_prefix_of(advanced(s, stream, ip).unwrap().0.written),
{
    reveal(advanced);
}

/// The two ways of leaving the data array.
pub open spec fn is_pointer_error(error: Error) -> bool {
    error == Error::Overflow || error == Error::Underflow
}

/// The index of the instruction at which a run from `ip` stands when it
/// has ended or has taken `fuel` instructions: behind the last instruction
/// where it has ended well, and at the instruction that failed where it
/// has failed.
#[verifier::opaque]
pub open spec fn stopped_at<T: CellType>(
    s: Session<T>,
    stream: Seq<Instruction<T>>,
    ip: int,
    fuel: nat,
) -> int
    decreases fuel,
{
    if ip >= stream.len() || fuel == 0 {
        ip
    } else {
        match advanced(s, stream, ip) {
            Ok((next, next_ip)) => stopped_at(next, stream, next_ip, (fuel - 1) as nat),
            Err(_) => ip,
        }
    }
}

/// A run that has instructions and fuel left stands where it stands after
/// one more instruction, or at the instruction that fails.
pub proof fn lemma_stopped_step<T: CellType>(
    s: Session<T>,
    stream: Seq<Instruction<T>>,
    ip: int,
    fuel: nat,
)
    requires
        ip < stream.len(),
        fuel > 0,
    ensures
        stopped_at(s, stream, ip, fuel) == (match advanced(s, stream, ip) {
            Ok((next, next_ip)) => stopped_at(next, stream, next_ip, (fuel - 1) as nat),
            Err(_) => ip,
        }),
{
    reveal(stopped_at);
}

/// Only a move fails by leaving the data array, and it fails on a machine
/// that stands inside it and has budget left.
pub proof fn lemma_step_leaves<T: CellType>(s: Session<T>, stream: Seq<Instruction<T>>, ip: int)
    requires
        advanced(s, stream, ip) is Err,
        is_pointer_error(advanced(s, stream, ip)->Err_0),
    ensures
        stream[ip] is IncPtr || stream[ip] is DecPtr,
        s.machine.in_bounds(),
        !s.machine.exhausted(),
{
    reveal(advanced);
}

/// A move that leaves the data array from one session leaves it in the
/// same way from a session that is alike.
pub proof fn lemma_step_same_fails<T: CellType>(
    s: Session<T>,
    stream: Seq<Instruction<T>>,
    ip: int,
    other: Session<T>,
    other_stream: Seq<Instruction<T>>,
    other_ip: int,
)
    requires
        alike(s, other),
        stream[ip] == other_stream[other_ip],
        advanced(s, stream, ip) is Err,
        is_pointer_error(advanced(s, stream, ip)->Err_0),
        !other.machine.exhausted(),
    ensures
        advanced(other, other_stream, other_ip) == advanced(s, stream, ip),
{
    reveal(advanced);
}

} // verus!
