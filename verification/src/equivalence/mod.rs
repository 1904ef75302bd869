//! The optimizer keeps what a program does.
//!
//! A program that ends well ends well after optimization too, with the
//! same output and the same memory, and in no more instructions. A program
//! that leaves the data array on a move that the optimizer folds with no
//! other fails in the same way once it is optimized. Any other program
//! that fails may fail later, otherwise or not at all once it is
//! optimized, but what it has written by then the optimized program
//! writes first. And a program with unmatched loops has them after
//! optimization too.

use vstd::prelude::*;
use crate::cell_type::CellType;
use crate::compile::optimize::{
    folded, lemma_folded_len, lemma_zeroings_recognized_len, optimized, round,
    zeroings_recognized,
};
use crate::compile::{resolved, verdict};
use crate::instruction::Instruction;
use crate::interpret::{
    advanced, fuel_of, lemma_ran_done, lemma_ran_nowhere, lemma_ran_out, lemma_ran_step, outcome,
    ran, run_of, Error, Session,
};

pub mod effects;
pub mod folding;
pub mod steps;
pub mod zeroing;

use folding::{
    lemma_fold_keeps_verdict, lemma_fold_same_verdict, lemma_fold_simulates, stands_alone,
};
use steps::{alike, is_pointer_error, lemma_step_ok, richer, stopped_at};
use zeroing::{lemma_zero_keeps_verdict, lemma_zero_same_verdict, lemma_zero_simulates};

verus! {

/// The run of `stream` from its first instruction in the session `start`
/// ends well after at most `n` instructions, in the session `end`.
pub open spec fn ends_well<T: CellType>(
    start: Session<T>,
    stream: Seq<Instruction<T>>,
    n: nat,
    end: Session<T>,
) -> bool {
    start.machine.in_bounds() && ran(start, stream, 0, n) == (end, Some(Ok::<(), Error>(())))
}

/// The session `ours` holds what the session `theirs` holds, has read and
/// written the same, and has no less of its budget left.
pub open spec fn as_good<T: CellType>(ours: Session<T>, theirs: Session<T>) -> bool {
    alike(theirs, ours) && richer(ours.machine.budget, theirs.machine.budget, 0)
}

/// A run that has ended within some number of instructions has ended in
/// the same way within any larger number.
pub proof fn lemma_ran_longer<T: CellType>(
    s: Session<T>,
    stream: Seq<Instruction<T>>,
    ip: int,
    n: nat,
    more: nat,
)
    requires
        ran(s, stream, ip, n).1 is Some,
        n <= more,
    ensures
        ran(s, stream, ip, more) == ran(s, stream, ip, n),
    decreases n,
{
    if ip >= stream.len() {
        lemma_ran_done(s, stream, ip, n);
        lemma_ran_done(s, stream, ip, more);
    } else {
        if n == 0 {
            lemma_ran_out(s, stream, ip);
        }
        lemma_ran_step(s, stream, ip, n);
        lemma_ran_step(s, stream, ip, more);
        match advanced(s, stream, ip) {
            Ok((next, next_ip)) => {
                lemma_ran_longer(next, stream, next_ip, (n - 1) as nat, (more - 1) as nat);
            },
            Err(_) => {},
        }
    }
}

/// Optimization keeps what is right or wrong with the loops of a program:
/// the optimized program has matched loops where the program has, and
/// else the same is wrong with it.
pub proof fn lemma_optimized_verdict<T: CellType>(s: Seq<Instruction<T>>)
    ensures
        verdict(optimized(s)) == verdict(s),
    decreases s.len(),
{
    lemma_fold_same_verdict(s);
    lemma_zero_same_verdict(folded(s));
    lemma_fold_same_verdict(zeroings_recognized(folded(s)));
    if round(s).len() < s.len() {
        lemma_optimized_verdict(round(s));
    }
}

/// A folding pass keeps the runs that end well: the folded program ends
/// well too, in no more instructions, with the same memory, input and
/// output.
pub proof fn lemma_folding_keeps_runs<T: CellType>(
    s: Seq<Instruction<T>>,
    start: Session<T>,
    n: nat,
    end: Session<T>,
) -> (r: (nat, Session<T>))
    requires
        verdict(s) is Ok,
        s.len() <= u32::MAX,
        ends_well(start, resolved(s), n, end),
    ensures
        verdict(folded(s)) is Ok,
        folded(s).len() <= s.len(),
        ends_well(start, resolved(folded(s)), r.0, r.1),
        as_good(r.1, end),
        r.0 <= n,
{
    lemma_fold_keeps_verdict(s);
    lemma_folded_len(s, 0, None);
    lemma_fold_simulates(s, 0, start, start, n, end)
}

/// The recognition of zeroing loops keeps the runs that end well: the
/// program with the assignments ends well too, in no more instructions,
/// with the same memory, input and output.
pub proof fn lemma_recognition_keeps_runs<T: CellType>(
    s: Seq<Instruction<T>>,
    start: Session<T>,
    n: nat,
    end: Session<T>,
) -> (r: (nat, Session<T>))
    requires
        verdict(s) is Ok,
        s.len() <= u32::MAX,
        ends_well(start, resolved(s), n, end),
    ensures
        verdict(zeroings_recognized(s)) is Ok,
        zeroings_recognized(s).len() <= s.len(),
        ends_well(start, resolved(zeroings_recognized(s)), r.0, r.1),
        as_good(r.1, end),
        r.0 <= n,
{
    lemma_zero_keeps_verdict(s);
    lemma_zeroings_recognized_len(s, 0);
    lemma_zero_simulates(s, 0, start, start, n, end)
}

/// A round of optimization keeps the runs that end well.
pub proof fn lemma_round_keeps_runs<T: CellType>(
    s: Seq<Instruction<T>>,
    start: Session<T>,
    n: nat,
    end: Session<T>,
) -> (r: (nat, Session<T>))
    requires
        verdict(s) is Ok,
        s.len() <= u32::MAX,
        ends_well(start, resolved(s), n, end),
    ensures
        verdict(round(s)) is Ok,
        round(s).len() <= s.len(),
        ends_well(start, resolved(round(s)), r.0, r.1),
        as_good(r.1, end),
        r.0 <= n,
{
    let first = lemma_folding_keeps_runs(s, start, n, end);
    let second = lemma_recognition_keeps_runs(folded(s), start, first.0, first.1);
    lemma_folding_keeps_runs(zeroings_recognized(folded(s)), start, second.0, second.1)
}

/// Optimization keeps the runs that end well: where the run of a program
/// ends well, the run of the optimized program from the same session ends
/// well too, in no more instructions, with the same memory, the same
/// input left and the same output.
pub proof fn lemma_optimization_keeps_runs<T: CellType>(
    s: Seq<Instruction<T>>,
    start: Session<T>,
    n: nat,
    end: Session<T>,
) -> (r: (nat, Session<T>))
    requires
        verdict(s) is Ok,
        s.len() <= u32::MAX,
        ends_well(start, resolved(s), n, end),
    ensures
        verdict(optimized(s)) is Ok,
        ends_well(start, resolved(optimized(s)), r.0, r.1),
        as_good(r.1, end),
        r.0 <= n,
    decreases s.len(),
{
    let once = lemma_round_keeps_runs(s, start, n, end);
    if round(s).len() < s.len() {
        lemma_optimization_keeps_runs(round(s), start, once.0, once.1)
    } else {
        once
    }
}

/// A whole run that ends well with the unoptimized program ends well with
/// the optimized program: on the same memory and input and with the same
/// limit, it writes the same output, leaves the same memory and the same
/// input, and has no less of its budget left.
pub proof fn lemma_optimized_run<T: CellType>(s: Seq<Instruction<T>>, start: Session<T>, fuel: nat)
    requires
        verdict(s) is Ok,
        s.len() <= u32::MAX,
        run_of(start, resolved(s), fuel).1 == Some(Ok::<(), Error>(())),
    ensures
        verdict(optimized(s)) is Ok,
        run_of(start, resolved(optimized(s)), fuel).1 == Some(Ok::<(), Error>(())),
        as_good(
            run_of(start, resolved(optimized(s)), fuel).0,
            run_of(start, resolved(s), fuel).0,
        ),
{
    let end = run_of(start, resolved(s), fuel).0;
    let r = lemma_optimization_keeps_runs(s, start, fuel, end);
    lemma_ran_longer(start, resolved(optimized(s)), 0, r.0, fuel);
}

/// What [`crate::Interpreter::run`] returns well for a program it returns
/// well for the optimized program: on the same memory and input and with
/// the same limit, or with none, the run of the optimized program ends
/// well too, writes the same output and leaves the same memory and input.
pub proof fn lemma_optimized_outcome<T: CellType>(s: Seq<Instruction<T>>, start: Session<T>)
    requires
        verdict(s) is Ok,
        s.len() <= u32::MAX,
        outcome(start, resolved(s)).1 is Ok,
    ensures
        outcome(start, resolved(optimized(s))).1 is Ok,
        as_good(outcome(start, resolved(optimized(s))).0, outcome(start, resolved(s)).0),
{
    let fuel = fuel_of(start.machine.budget);
    let plain = run_of(start, resolved(s), fuel).1;
    assert(plain =~= Some(Ok::<(), Error>(()))) by {
        assert(plain is Some);
        assert(plain.unwrap()->Ok_0 == ());
    }
    lemma_optimized_run(s, start, fuel);
}

/// A run from a session inside the data array, with its input and output
/// in memory, fails only by leaving the data array or by its limit.
pub proof fn lemma_ran_fails<T: CellType>(
    s: Session<T>,
    stream: Seq<Instruction<T>>,
    ip: int,
    n: nat,
)
    requires
        s.machine.in_bounds(),
        ran(s, stream, ip, n).1 is Some,
        ran(s, stream, ip, n).1.unwrap() is Err,
    ensures
        ({
            let error = ran(s, stream, ip, n).1.unwrap()->Err_0;
            error == Error::Overflow || error == Error::Underflow || error
                == Error::NotEnoughInstructions
        }),
    decreases n,
{
    if ip >= stream.len() {
        lemma_ran_done(s, stream, ip, n);
    } else {
        if n == 0 {
            lemma_ran_out(s, stream, ip);
        }
        lemma_ran_step(s, stream, ip, n);
        match advanced(s, stream, ip) {
            Ok((next, next_ip)) => {
                lemma_step_ok(s, stream, ip);
                lemma_ran_fails(next, stream, next_ip, (n - 1) as nat);
            },
            Err(_) => {
                steps::lemma_step_fails(s, stream, ip);
            },
        }
    }
}

/// The optimized program and the unoptimized program differ in no other
/// way: where the whole run of the optimized program ends well and the run
/// of the unoptimized program has ended, that run has ended well too, in a
/// session with the same memory, input and output, or it has failed by
/// leaving the data array on the way or by reaching its limit.
pub proof fn lemma_no_other_divergence<T: CellType>(
    s: Seq<Instruction<T>>,
    start: Session<T>,
    fuel: nat,
)
    requires
        verdict(s) is Ok,
        s.len() <= u32::MAX,
        run_of(start, resolved(optimized(s)), fuel).1 == Some(Ok::<(), Error>(())),
        run_of(start, resolved(s), fuel).1 is Some,
    ensures
        match run_of(start, resolved(s), fuel).1.unwrap() {
            Ok(()) => as_good(
                run_of(start, resolved(optimized(s)), fuel).0,
                run_of(start, resolved(s), fuel).0,
            ),
            Err(error) => error == Error::Overflow || error == Error::Underflow || error
                == Error::NotEnoughInstructions,
        },
{
    match run_of(start, resolved(s), fuel).1.unwrap() {
        Ok(unit) => {
            assert(unit == ());
            assert(run_of(start, resolved(s), fuel).1 =~= Some(Ok::<(), Error>(())));
            lemma_optimized_run(s, start, fuel);
        },
        Err(_) => {
            lemma_ran_fails(start, resolved(s), 0, fuel);
        },
    }
}

/// A run takes nothing back of what it has written: what it has written
/// after `n` instructions stands at the start of what it has written after
/// more.
pub proof fn lemma_written_grows<T: CellType>(
    s: Session<T>,
    stream: Seq<Instruction<T>>,
    ip: int,
    n: nat,
    more: nat,
)
    requires
        n <= more,
    ensures
        ran(s, stream, ip, n).0.written.is_prefix_of(ran(s, stream, ip, more).0.written),
    decreases more,
{
    if ip >= stream.len() {
        lemma_ran_done(s, stream, ip, n);
        lemma_ran_done(s, stream, ip, more);
    } else if more == 0 {
    } else {
        lemma_ran_step(s, stream, ip, more);
        match advanced(s, stream, ip) {
            Ok((next, next_ip)) => {
                steps::lemma_step_writes(s, stream, ip);
                let end = ran(next, stream, next_ip, (more - 1) as nat).0.written;
                if n == 0 {
                    lemma_ran_nowhere(s, stream, ip);
                    lemma_ran_nowhere(next, stream, next_ip);
                    lemma_written_grows(next, stream, next_ip, 0, (more - 1) as nat);
                    assert(s.written.is_prefix_of(end)) by {
                        assert(s.written =~= end.subrange(0, s.written.len() as int));
                    }
                } else {
                    lemma_ran_step(s, stream, ip, n);
                    lemma_written_grows(next, stream, next_ip, (n - 1) as nat, (more - 1) as nat);
                }
            },
            Err(_) => {
                if n == 0 {
                    lemma_ran_nowhere(s, stream, ip);
                } else {
                    lemma_ran_step(s, stream, ip, n);
                }
            },
        }
    }
}

/// What the run of a program has written after `n` instructions, the run
/// of the folded program has written after no more instructions.
pub proof fn lemma_folding_follows<T: CellType>(
    s: Seq<Instruction<T>>,
    start: Session<T>,
    n: nat,
) -> (m: nat)
    requires
        verdict(s) is Ok,
        s.len() <= u32::MAX,
        start.machine.in_bounds(),
    ensures
        m <= n,
        ran(start, resolved(folded(s)), 0, m).0.written == ran(start, resolved(s), 0, n).0.written,
{
    folding::lemma_fold_follows(s, 0, start, start, n)
}

/// What the run of a program has written after `n` instructions, the run
/// of the program with the assignments of zero has written after no more
/// instructions.
pub proof fn lemma_recognition_follows<T: CellType>(
    s: Seq<Instruction<T>>,
    start: Session<T>,
    n: nat,
) -> (m: nat)
    requires
        verdict(s) is Ok,
        s.len() <= u32::MAX,
        start.machine.in_bounds(),
    ensures
        m <= n,
        ran(start, resolved(zeroings_recognized(s)), 0, m).0.written == ran(
            start,
            resolved(s),
            0,
            n,
        ).0.written,
{
    zeroing::lemma_zero_follows(s, 0, start, start, n)
}

/// What the run of a program has written after `n` instructions, the run
/// of the optimized program has written after no more instructions.
pub proof fn lemma_optimization_follows<T: CellType>(
    s: Seq<Instruction<T>>,
    start: Session<T>,
    n: nat,
) -> (m: nat)
    requires
        verdict(s) is Ok,
        s.len() <= u32::MAX,
        start.machine.in_bounds(),
    ensures
        m <= n,
        ran(start, resolved(optimized(s)), 0, m).0.written == ran(start, resolved(s), 0, n).0.written,
    decreases s.len(),
{
    lemma_fold_keeps_verdict(s);
    lemma_folded_len(s, 0, None);
    let first = lemma_folding_follows(s, start, n);
    let once = folded(s);
    lemma_zero_keeps_verdict(once);
    lemma_zeroings_recognized_len(once, 0);
    let second = lemma_recognition_follows(once, start, first);
    let twice = zeroings_recognized(once);
    lemma_fold_keeps_verdict(twice);
    lemma_folded_len(twice, 0, None);
    let third = lemma_folding_follows(twice, start, second);
    if round(s).len() < s.len() {
        lemma_optimization_follows(round(s), start, third)
    } else {
        third
    }
}

/// Whatever the run of a program writes within a limit, and however it
/// ends, the run of the optimized program writes the same first: on the
/// same memory and input and with the same limit, the output of the
/// program stands at the start of the output of the optimized program.
pub proof fn lemma_optimized_output<T: CellType>(
    s: Seq<Instruction<T>>,
    start: Session<T>,
    fuel: nat,
)
    requires
        verdict(s) is Ok,
        s.len() <= u32::MAX,
    ensures
        run_of(start, resolved(s), fuel).0.written.is_prefix_of(
            run_of(start, resolved(optimized(s)), fuel).0.written,
        ),
{
    if start.machine.in_bounds() {
        let m = lemma_optimization_follows(s, start, fuel);
        lemma_written_grows(start, resolved(optimized(s)), 0, m, fuel);
    }
}

/// The run of `stream` from its first instruction has failed within `n`
/// instructions by leaving the data array.
pub open spec fn fails_by_leaving<T: CellType>(
    start: Session<T>,
    stream: Seq<Instruction<T>>,
    n: nat,
) -> bool {
    let end = ran(start, stream, 0, n);
    end.1 is Some && end.1.unwrap() is Err && is_pointer_error(end.1.unwrap()->Err_0)
}

/// The move at which the run of `s` stands after `n` instructions stands
/// alone: a folding pass folds no other move with it.
pub open spec fn fails_alone<T: CellType>(s: Seq<Instruction<T>>, start: Session<T>, n: nat) -> bool {
    stands_alone(s, stopped_at(start, resolved(s), 0, n))
}

/// The move on which the run fails stands alone in every folding pass of
/// the optimization: the optimizer folds no other move with it, so that it
/// is no part of an excursion that the optimizer shortens or cancels.
pub open spec fn kept_alone<T: CellType>(s: Seq<Instruction<T>>, start: Session<T>, n: nat) -> bool
    decreases s.len(),
{
    &&& fails_alone(s, start, n)
    &&& fails_alone(zeroings_recognized(folded(s)), start, n)
    &&& if round(s).len() < s.len() {
        kept_alone(round(s), start, n)
    } else {
        true
    }
}

/// A folding pass keeps the failure of a run that leaves the data array on
/// a move that stands alone: the folded program fails in the same way,
/// with the same memory, input and output.
pub proof fn lemma_folding_keeps_failure<T: CellType>(
    s: Seq<Instruction<T>>,
    start: Session<T>,
    n: nat,
)
    requires
        verdict(s) is Ok,
        s.len() <= u32::MAX,
        start.machine.in_bounds(),
        fails_by_leaving(start, resolved(s), n),
        fails_alone(s, start, n),
    ensures
        verdict(folded(s)) is Ok,
        folded(s).len() <= s.len(),
        ran(start, resolved(folded(s)), 0, n).1 == ran(start, resolved(s), 0, n).1,
        as_good(ran(start, resolved(folded(s)), 0, n).0, ran(start, resolved(s), 0, n).0),
{
    lemma_fold_keeps_verdict(s);
    lemma_folded_len(s, 0, None);
    let r = folding::lemma_fold_fails(s, 0, start, start, n);
    lemma_ran_longer(start, resolved(folded(s)), 0, r.0, n);
}

/// The recognition of zeroing loops keeps the failure of a run that leaves
/// the data array: the program with the assignments fails in the same way,
/// with the same memory, input and output.
pub proof fn lemma_recognition_keeps_failure<T: CellType>(
    s: Seq<Instruction<T>>,
    start: Session<T>,
    n: nat,
)
    requires
        verdict(s) is Ok,
        s.len() <= u32::MAX,
        start.machine.in_bounds(),
        fails_by_leaving(start, resolved(s), n),
    ensures
        verdict(zeroings_recognized(s)) is Ok,
        zeroings_recognized(s).len() <= s.len(),
        ran(start, resolved(zeroings_recognized(s)), 0, n).1 == ran(start, resolved(s), 0, n).1,
        as_good(
            ran(start, resolved(zeroings_recognized(s)), 0, n).0,
            ran(start, resolved(s), 0, n).0,
        ),
{
    lemma_zero_keeps_verdict(s);
    lemma_zeroings_recognized_len(s, 0);
    let r = zeroing::lemma_zero_fails(s, 0, start, start, n);
    lemma_ran_longer(start, resolved(zeroings_recognized(s)), 0, r.0, n);
}

/// Optimization keeps the failure of a run that leaves the data array on a
/// move that the optimizer folds with no other: the optimized program
/// fails in the same way, with the same memory, input and output.
pub proof fn lemma_optimization_keeps_failure<T: CellType>(
    s: Seq<Instruction<T>>,
    start: Session<T>,
    n: nat,
)
    requires
        verdict(s) is Ok,
        s.len() <= u32::MAX,
        start.machine.in_bounds(),
        fails_by_leaving(start, resolved(s), n),
        kept_alone(s, start, n),
    ensures
        ran(start, resolved(optimized(s)), 0, n).1 == ran(start, resolved(s), 0, n).1,
        as_good(ran(start, resolved(optimized(s)), 0, n).0, ran(start, resolved(s), 0, n).0),
    decreases s.len(),
{
    lemma_folding_keeps_failure(s, start, n);
    let once = folded(s);
    lemma_recognition_keeps_failure(once, start, n);
    let twice = zeroings_recognized(once);
    lemma_folding_keeps_failure(twice, start, n);
    if round(s).len() < s.len() {
        lemma_optimization_keeps_failure(round(s), start, n);
    }
}

/// The optimized program and the program end in the same way but for
/// three things. Where the whole run of a program has ended within a
/// limit, the run of the optimized program, on the same memory and input
/// and with the same limit, ends in the same way with the same memory,
/// input and output; or the run of the program has failed by leaving the
/// data array on a move that the optimizer has folded with another; or it
/// has failed by reaching its limit.
pub proof fn lemma_optimized_or_diverged<T: CellType>(
    s: Seq<Instruction<T>>,
    start: Session<T>,
    fuel: nat,
)
    requires
        verdict(s) is Ok,
        s.len() <= u32::MAX,
        run_of(start, resolved(s), fuel).1 is Some,
    ensures
        ({
            let plain = run_of(start, resolved(s), fuel);
            let optimized = run_of(start, resolved(optimized(s)), fuel);
            ||| (optimized.1 == plain.1 && as_good(optimized.0, plain.0))
            ||| (plain.1.unwrap() is Err && is_pointer_error(plain.1.unwrap()->Err_0)
                && !kept_alone(s, start, fuel))
            ||| plain.1 == Some(Err::<(), Error>(Error::NotEnoughInstructions))
        }),
{
    if start.machine.in_bounds() {
        match run_of(start, resolved(s), fuel).1.unwrap() {
            Ok(unit) => {
                assert(unit == ());
                assert(run_of(start, resolved(s), fuel).1 =~= Some(Ok::<(), Error>(())));
                lemma_optimized_run(s, start, fuel);
            },
            Err(error) => {
                lemma_ran_fails(start, resolved(s), 0, fuel);
                if is_pointer_error(error) && kept_alone(s, start, fuel) {
                    lemma_optimization_keeps_failure(s, start, fuel);
                }
            },
        }
    }
}

} // verus!
