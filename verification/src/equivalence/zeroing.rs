//! Replacing the loops that zero a cell keeps what a program does.

use vstd::prelude::*;
use crate::cell_type::{CellType, Sealed};
use crate::compile::jumps::{
    lemma_partner, lemma_resolved_keeps_brackets, lemma_resolved_pair, lemma_verdict,
};
use crate::compile::optimize::{
    is_zero_loop, lemma_zeroings_recognized_len, zeroings_recognized, zeroings_recognized_from,
};
use crate::compile::{
    closes, first_unmatched_end, lemma_one_end, lemma_one_start, nesting, resolved, verdict,
};
use crate::equivalence::effects::{acted, lemma_cell_op_acts, lemma_set_acts};
use crate::equivalence::steps::{
    alike, is_pointer_error, lemma_plain_step, lemma_step_acts, lemma_step_jump,
    lemma_step_leaves, lemma_step_ok, lemma_step_same, lemma_step_same_fails, moved_on, next_ip,
    richer, same_op,
};
use crate::instruction::Instruction;
use crate::interpret::{
    advanced, lemma_ran_done, lemma_ran_nowhere, lemma_ran_out, lemma_ran_step, ran, Error,
    Session,
};

verus! {

/// `p` lies inside a zeroing loop: behind its start or behind its step.
pub open spec fn inside<T: CellType>(s: Seq<Instruction<T>>, p: int) -> bool {
    is_zero_loop(s, p - 1) || is_zero_loop(s, p - 2)
}

/// The assignment that stands for a zeroing loop.
pub open spec fn set_zero<T: CellType>() -> Instruction<T> {
    Instruction::SetCell(T::from_value(0))
}

/// What the recognition has made of the first `p` instructions of `s`.
/// Inside a zeroing loop that is what it had made when it came to the loop.
pub open spec fn recognized_upto<T: CellType>(s: Seq<Instruction<T>>, p: int) -> Seq<
    Instruction<T>,
>
    decreases p,
{
    if p <= 0 {
        Seq::empty()
    } else if inside(s, p) {
        recognized_upto(s, p - 1)
    } else if is_zero_loop(s, p - 3) {
        recognized_upto(s, p - 3).push(set_zero())
    } else {
        recognized_upto(s, p - 1).push(s[p - 1])
    }
}

/// How many instructions the recognition has made of the first `p`.
pub open spec fn shrunk<T: CellType>(s: Seq<Instruction<T>>, p: int) -> int {
    recognized_upto(s, p).len() as int
}

/// Zeroing loops do not overlap: nothing inside one starts another, and
/// none starts right behind another's start or step.
pub proof fn lemma_loops_apart<T: CellType>(s: Seq<Instruction<T>>, i: int)
    requires
        is_zero_loop(s, i),
    ensures
        !inside(s, i),
        !is_zero_loop(s, i + 1),
        !is_zero_loop(s, i + 2),
        !inside(s, i + 3),
        i + 3 <= s.len(),
{
}

/// The start and the end of a zeroing loop are the start and the end of a
/// loop.
pub proof fn lemma_zero_loop_closes<T: CellType>(s: Seq<Instruction<T>>, i: int)
    requires
        is_zero_loop(s, i),
    ensures
        closes(s, i, i + 2),
{
    assert(nesting(s, i + 1) == nesting(s, i) + 1);
    assert(nesting(s, i + 2) == nesting(s, i + 1));
    assert(nesting(s, i + 3) == nesting(s, i + 2) - 1);
    assert forall|k: int| i < k <= i + 2 implies #[trigger] nesting(s, k) > nesting(s, i) by {
        assert(k == i + 1 || k == i + 2);
    }
}

/// What the recognition has made of the instructions before `p`, and what
/// it makes of the rest, is the whole result.
pub proof fn lemma_recognized_upto<T: CellType>(s: Seq<Instruction<T>>, p: int)
    requires
        0 <= p <= s.len(),
        !inside(s, p),
    ensures
        recognized_upto(s, p) + zeroings_recognized_from(s, p) == zeroings_recognized(s),
    decreases p,
{
    if p == 0 {
        assert(Seq::<Instruction<T>>::empty() + zeroings_recognized(s) =~= zeroings_recognized(s));
    } else if is_zero_loop(s, p - 3) {
        lemma_loops_apart(s, p - 3);
        lemma_recognized_upto(s, p - 3);
        let before = recognized_upto(s, p - 3);
        let rest = zeroings_recognized_from(s, p);
        assert(before + (seq![set_zero::<T>()] + rest) =~= before.push(set_zero()) + rest);
    } else {
        lemma_recognized_upto(s, p - 1);
        let before = recognized_upto(s, p - 1);
        let rest = zeroings_recognized_from(s, p);
        assert(before + (seq![s[p - 1]] + rest) =~= before.push(s[p - 1]) + rest);
    }
}

/// What the recognition has made of the instructions before `p` stays.
pub proof fn lemma_recognized_grows<T: CellType>(s: Seq<Instruction<T>>, p: int, q: int)
    requires
        0 <= p <= q <= s.len(),
    ensures
        shrunk(s, p) <= shrunk(s, q),
        forall|k: int| 0 <= k < shrunk(s, p) ==> recognized_upto(s, p)[k] == recognized_upto(s, q)[k],
    decreases q - p,
{
    if p < q {
        if inside(s, q) {
            lemma_recognized_grows(s, p, q - 1);
        } else if is_zero_loop(s, q - 3) {
            if p <= q - 3 {
                lemma_recognized_grows(s, p, q - 3);
            } else {
                assert(inside(s, q - 2));
                assert(inside(s, q - 1));
                assert(recognized_upto(s, q - 2) == recognized_upto(s, q - 3));
                assert(recognized_upto(s, q - 1) == recognized_upto(s, q - 2));
            }
        } else {
            lemma_recognized_grows(s, p, q - 1);
        }
    }
}

/// The whole result is what the recognition has made of all instructions.
pub proof fn lemma_recognized_whole<T: CellType>(s: Seq<Instruction<T>>)
    ensures
        zeroings_recognized(s) == recognized_upto(s, s.len() as int),
        !inside(s, s.len() as int),
{
    lemma_recognized_upto(s, s.len() as int);
    assert(recognized_upto(s, s.len() as int) + Seq::<Instruction<T>>::empty()
        =~= recognized_upto(s, s.len() as int));
}

/// The instruction that the result holds for the instruction at `k`: the
/// instruction itself, or the assignment of zero where a zeroing loop
/// starts at `k`.
pub proof fn lemma_recognized_place<T: CellType>(s: Seq<Instruction<T>>, k: int)
    requires
        0 <= k < s.len(),
        !inside(s, k),
    ensures
        shrunk(s, k) < zeroings_recognized(s).len(),
        zeroings_recognized(s)[shrunk(s, k)] == (if is_zero_loop(s, k) {
            set_zero()
        } else {
            s[k]
        }),
        is_zero_loop(s, k) ==> shrunk(s, k + 3) == shrunk(s, k) + 1 && shrunk(s, k + 1) == shrunk(
            s,
            k,
        ) && shrunk(s, k + 2) == shrunk(s, k),
        !is_zero_loop(s, k) ==> shrunk(s, k + 1) == shrunk(s, k) + 1 && !inside(s, k + 1),
{
    lemma_recognized_whole(s);
    if is_zero_loop(s, k) {
        lemma_loops_apart(s, k);
        assert(inside(s, k + 1));
        assert(inside(s, k + 2));
        assert(recognized_upto(s, k + 1) == recognized_upto(s, k));
        assert(recognized_upto(s, k + 2) == recognized_upto(s, k + 1));
        assert(recognized_upto(s, k + 3) == recognized_upto(s, k).push(set_zero()));
        lemma_recognized_grows(s, k + 3, s.len() as int);
    } else {
        assert(!inside(s, k + 1));
        assert(recognized_upto(s, k + 1) == recognized_upto(s, k).push(s[k]));
        lemma_recognized_grows(s, k + 1, s.len() as int);
    }
}

/// The nesting depth of the result after what the recognition has made of
/// the first `p` instructions is the depth of `s` after them.
pub proof fn lemma_zero_nesting<T: CellType>(s: Seq<Instruction<T>>, p: int)
    requires
        0 <= p <= s.len(),
        !inside(s, p),
    ensures
        nesting(zeroings_recognized(s), shrunk(s, p)) == nesting(s, p),
    decreases p,
{
    if p > 0 {
        if is_zero_loop(s, p - 3) {
            lemma_loops_apart(s, p - 3);
            lemma_zero_nesting(s, p - 3);
            lemma_recognized_place(s, p - 3);
            assert(nesting(s, p - 2) == nesting(s, p - 3) + 1);
            assert(nesting(s, p - 1) == nesting(s, p - 2));
            assert(nesting(s, p) == nesting(s, p - 1) - 1);
        } else {
            lemma_zero_nesting(s, p - 1);
            lemma_recognized_place(s, p - 1);
        }
    }
}

/// Every length up to that of what the recognition has made was the length
/// of what it had made when it stood between two instructions.
pub proof fn lemma_zero_cover<T: CellType>(s: Seq<Instruction<T>>, lo: int, hi: int, k: int) -> (p:
    int)
    requires
        0 <= lo <= hi <= s.len(),
        !inside(s, lo),
        !inside(s, hi),
        shrunk(s, lo) <= k <= shrunk(s, hi),
    ensures
        lo <= p <= hi,
        !inside(s, p),
        shrunk(s, p) == k,
    decreases hi - lo,
{
    if shrunk(s, hi) == k {
        hi
    } else if is_zero_loop(s, hi - 3) {
        lemma_loops_apart(s, hi - 3);
        assert(lo <= hi - 3) by {
            if lo > hi - 3 {
                assert(lo == hi);
            }
        }
        lemma_zero_cover(s, lo, hi - 3, k)
    } else {
        lemma_zero_cover(s, lo, hi - 1, k)
    }
}

/// The recognition keeps the loops that it does not replace: their start
/// and their end are the start and the end of a loop afterwards.
pub proof fn lemma_zero_keeps_closes<T: CellType>(s: Seq<Instruction<T>>, i: int, j: int)
    requires
        closes(s, i, j),
        !is_zero_loop(s, i),
    ensures
        !inside(s, i),
        !inside(s, j),
        !inside(s, i + 1),
        !inside(s, j + 1),
        shrunk(s, i + 1) == shrunk(s, i) + 1,
        shrunk(s, j + 1) == shrunk(s, j) + 1,
        closes(zeroings_recognized(s), shrunk(s, i), shrunk(s, j)),
{
    let t = zeroings_recognized(s);
    if is_zero_loop(s, j - 2) {
        lemma_zero_loop_closes(s, j - 2);
        lemma_one_start(s, i, j - 2, j);
    }
    lemma_recognized_place(s, i);
    lemma_recognized_place(s, j);
    lemma_recognized_grows(s, i + 1, j);
    lemma_zero_nesting(s, i);
    lemma_zero_nesting(s, j + 1);
    assert forall|k: int| shrunk(s, i) < k <= shrunk(s, j) implies #[trigger] nesting(t, k)
        > nesting(t, shrunk(s, i)) by {
        let p = lemma_zero_cover(s, i + 1, j, k);
        lemma_zero_nesting(s, p);
        assert(nesting(s, p) > nesting(s, i));
    }
}

/// The recognition takes nothing from the nesting depths and adds nothing
/// to them: where the depth of `s` is negative somewhere so is that of
/// the result, and the other way round, and the depths at the end are the
/// same.
pub proof fn lemma_zero_depths<T: CellType>(s: Seq<Instruction<T>>)
    ensures
        nesting(zeroings_recognized(s), zeroings_recognized(s).len() as int) == nesting(
            s,
            s.len() as int,
        ),
        (exists|k: int| 0 <= k <= s.len() && #[trigger] nesting(s, k) < 0) <==> (exists|k: int|
            0 <= k <= zeroings_recognized(s).len() && #[trigger] nesting(
                zeroings_recognized(s),
                k,
            ) < 0),
{
    let t = zeroings_recognized(s);
    let n = s.len() as int;
    lemma_recognized_whole(s);
    lemma_zero_nesting(s, n);
    if exists|k: int| 0 <= k <= s.len() && #[trigger] nesting(s, k) < 0 {
        let k = choose|k: int| 0 <= k <= s.len() && #[trigger] nesting(s, k) < 0;
        let at = if is_zero_loop(s, k - 1) {
            k - 1
        } else if is_zero_loop(s, k - 2) {
            k - 2
        } else {
            k
        };
        if at != k {
            lemma_loops_apart(s, at);
            assert(nesting(s, at + 1) == nesting(s, at) + 1);
            assert(nesting(s, at + 2) == nesting(s, at + 1));
        }
        lemma_zero_nesting(s, at);
        lemma_recognized_grows(s, at, n);
        assert(nesting(t, shrunk(s, at)) < 0);
    }
    if exists|k: int| 0 <= k <= t.len() && #[trigger] nesting(t, k) < 0 {
        let k = choose|k: int| 0 <= k <= t.len() && #[trigger] nesting(t, k) < 0;
        let p = lemma_zero_cover(s, 0, n, k);
        lemma_zero_nesting(s, p);
        assert(nesting(s, p) < 0);
    }
}

/// The recognition keeps what is right or wrong with the loops.
pub proof fn lemma_zero_same_verdict<T: CellType>(s: Seq<Instruction<T>>)
    ensures
        verdict(zeroings_recognized(s)) == verdict(s),
{
    lemma_zero_depths(s);
    lemma_verdict(s);
    lemma_verdict(zeroings_recognized(s));
}

/// The recognition leaves matched loops matched.
pub proof fn lemma_zero_keeps_verdict<T: CellType>(s: Seq<Instruction<T>>)
    requires
        verdict(s) is Ok,
    ensures
        verdict(zeroings_recognized(s)) is Ok,
{
    lemma_zero_same_verdict(s);
}

/// How many instructions the run of the result is behind: one inside a
/// zeroing loop, where it has yet to run the assignment.
pub open spec fn zero_lag<T: CellType>(s: Seq<Instruction<T>>, p: int) -> nat {
    if inside(s, p) {
        1
    } else {
        0
    }
}

/// The session `a` of a run of `s` that stands at `p` and the session `b`
/// of the run of the result belong together: they hold the same, but for
/// the current cell while `a` is inside a zeroing loop, and `b` has the
/// budget for what it has yet to run.
pub open spec fn zero_related<T: CellType>(
    s: Seq<Instruction<T>>,
    p: int,
    a: Session<T>,
    b: Session<T>,
) -> bool {
    &&& a.machine.in_bounds()
    &&& b.machine.in_bounds()
    &&& a.unread == b.unread
    &&& a.written == b.written
    &&& richer(b.machine.budget, a.machine.budget, zero_lag(s, p) as int)
    &&& a.machine.cursor == b.machine.cursor
    &&& a.machine.cells.len() == b.machine.cells.len()
    &&& forall|k: int|
        0 <= k < a.machine.cells.len() && (k != a.machine.cursor || !inside(s, p))
            ==> a.machine.cells[k] == b.machine.cells[k]
}

/// Outside the zeroing loops, sessions that belong together are alike.
proof fn lemma_zero_related_alike<T: CellType>(
    s: Seq<Instruction<T>>,
    p: int,
    a: Session<T>,
    b: Session<T>,
)
    requires
        !inside(s, p),
    ensures
        zero_related(s, p, a, b) <==> (alike(a, b) && a.machine.in_bounds() && richer(
            b.machine.budget,
            a.machine.budget,
            0,
        )),
{
    if zero_related(s, p, a, b) {
        assert(a.machine.cells =~= b.machine.cells);
    }
}

/// The run of the result runs the assignment of zero when the run of `s`
/// leaves the zeroing loop at `i` with zero in the current cell.
proof fn lemma_zero_leave<T: CellType>(
    s: Seq<Instruction<T>>,
    i: int,
    p: int,
    a: Session<T>,
    b: Session<T>,
    a_next: Session<T>,
) -> (b_next: Session<T>)
    requires
        is_zero_loop(s, i),
        p == i || p == i + 2,
        zero_related(s, p, a, b),
        !a.machine.exhausted(),
        a.machine.current() == 0,
        a_next == moved_on(a, a.machine),
    ensures
        shrunk(s, p) < zeroings_recognized(s).len(),
        advanced(b, resolved(zeroings_recognized(s)), shrunk(s, p)) == Ok::<
            (Session<T>, int),
            Error,
        >((b_next, shrunk(s, i + 3))),
        zero_related(s, i + 3, a_next, b_next),
{
    let t = zeroings_recognized(s);
    let q = resolved(t);
    lemma_loops_apart(s, i);
    lemma_recognized_place(s, i);
    assert(shrunk(s, p) == shrunk(s, i));
    lemma_resolved_keeps_brackets(t, first_unmatched_end(t, 0));
    assert(q[shrunk(s, i)] == set_zero::<T>());
    lemma_set_acts(b.machine, T::from_value(0));
    lemma_step_acts(b, q, shrunk(s, i));
    a.machine.cells[a.machine.cursor].lemma_from_value();
    let b_next = moved_on(b, b.machine.with_current(T::from_value(0)));
    b_next
}

/// What one step of the run of `s` asks of the run of the result: no
/// step, where `steps` is zero, or the one step that `b_next` is the outcome
/// of; and the sessions belong together afterwards.
pub open spec fn zero_stepped<T: CellType>(
    s: Seq<Instruction<T>>,
    p: int,
    a: Session<T>,
    b: Session<T>,
    steps: nat,
    b_next: Session<T>,
) -> bool {
    let a_next = advanced(a, resolved(s), p).unwrap().0;
    let p_next = advanced(a, resolved(s), p).unwrap().1;
    &&& 0 <= p_next <= s.len()
    &&& zero_related(s, p_next, a_next, b_next)
    &&& steps == 0 ==> b_next == b && shrunk(s, p_next) == shrunk(s, p)
    &&& steps != 0 ==> steps == 1 && shrunk(s, p) < zeroings_recognized(s).len() && advanced(
        b,
        resolved(zeroings_recognized(s)),
        shrunk(s, p),
    ) == Ok::<(Session<T>, int), Error>((b_next, shrunk(s, p_next)))
    &&& steps + zero_lag(s, p_next) <= 1 + zero_lag(s, p)
}

/// A step over the start of a zeroing loop.
proof fn lemma_zero_step_enter<T: CellType>(
    s: Seq<Instruction<T>>,
    p: int,
    a: Session<T>,
    b: Session<T>,
) -> (r: (nat, Session<T>))
    requires
        verdict(s) is Ok,
        s.len() <= u32::MAX,
        is_zero_loop(s, p),
        zero_related(s, p, a, b),
        advanced(a, resolved(s), p) is Ok,
    ensures
        zero_stepped(s, p, a, b, r.0, r.1),
{
    let pp = resolved(s);
    lemma_loops_apart(s, p);
    lemma_zero_loop_closes(s, p);
    lemma_resolved_pair(s, p, p + 2);
    lemma_step_ok(a, pp, p);
    lemma_step_jump(a, pp, p);
    lemma_recognized_place(s, p);
    if a.machine.current() == 0 {
        let b_next = lemma_zero_leave(s, p, p, a, b, advanced(a, pp, p).unwrap().0);
        (1, b_next)
    } else {
        assert(inside(s, p + 1));
        (0, b)
    }
}

/// A step over the step of a zeroing loop.
proof fn lemma_zero_step_body<T: CellType>(
    s: Seq<Instruction<T>>,
    p: int,
    a: Session<T>,
    b: Session<T>,
) -> (r: (nat, Session<T>))
    requires
        verdict(s) is Ok,
        s.len() <= u32::MAX,
        is_zero_loop(s, p - 1),
        zero_related(s, p, a, b),
        advanced(a, resolved(s), p) is Ok,
    ensures
        zero_stepped(s, p, a, b, r.0, r.1),
{
    let pp = resolved(s);
    lemma_plain_step(s, p, a);
    lemma_cell_op_acts(a.machine, s[p]);
    let a_next = advanced(a, pp, p).unwrap().0;
    assert(a_next == moved_on(a, acted(a.machine, s[p]).unwrap()));
    assert(inside(s, p));
    assert(inside(s, p + 1));
    assert(recognized_upto(s, p + 1) == recognized_upto(s, p));
    assert(zero_related(s, p + 1, a_next, b));
    (0, b)
}

/// A step over the end of a zeroing loop.
proof fn lemma_zero_step_exit<T: CellType>(
    s: Seq<Instruction<T>>,
    p: int,
    a: Session<T>,
    b: Session<T>,
) -> (r: (nat, Session<T>))
    requires
        verdict(s) is Ok,
        s.len() <= u32::MAX,
        is_zero_loop(s, p - 2),
        zero_related(s, p, a, b),
        advanced(a, resolved(s), p) is Ok,
    ensures
        zero_stepped(s, p, a, b, r.0, r.1),
{
    let pp = resolved(s);
    lemma_loops_apart(s, p - 2);
    lemma_zero_loop_closes(s, p - 2);
    lemma_resolved_pair(s, p - 2, p);
    lemma_step_ok(a, pp, p);
    lemma_step_jump(a, pp, p);
    lemma_recognized_place(s, p - 2);
    assert(inside(s, p));
    if a.machine.current() == 0 {
        let b_next = lemma_zero_leave(s, p - 2, p, a, b, advanced(a, pp, p).unwrap().0);
        (1, b_next)
    } else {
        assert(inside(s, p - 1));
        (0, b)
    }
}

/// Where the run of `s` goes on after an instruction outside the zeroing
/// loops, the run of the result goes on at the place that belongs to it.
proof fn lemma_zero_jump<T: CellType>(s: Seq<Instruction<T>>, p: int, current: int)
    requires
        verdict(s) is Ok,
        s.len() <= u32::MAX,
        0 <= p < s.len(),
        !inside(s, p),
        !is_zero_loop(s, p),
    ensures
        shrunk(s, p) < zeroings_recognized(s).len(),
        same_op(resolved(s)[p], resolved(zeroings_recognized(s))[shrunk(s, p)]),
        0 <= next_ip(resolved(s)[p], p, current) <= s.len(),
        !inside(s, next_ip(resolved(s)[p], p, current)),
        next_ip(resolved(zeroings_recognized(s))[shrunk(s, p)], shrunk(s, p), current) == shrunk(
            s,
            next_ip(resolved(s)[p], p, current),
        ),
{
    let t = zeroings_recognized(s);
    let pp = resolved(s);
    let qq = resolved(t);
    lemma_zero_keeps_verdict(s);
    lemma_zeroings_recognized_len(s, 0);
    lemma_recognized_place(s, p);
    lemma_resolved_keeps_brackets(s, first_unmatched_end(s, 0));
    lemma_resolved_keeps_brackets(t, first_unmatched_end(t, 0));
    if s[p] is LoopStart {
        let j = lemma_partner(s, p);
        lemma_resolved_pair(s, p, j);
        lemma_zero_keeps_closes(s, p, j);
        lemma_resolved_pair(t, shrunk(s, p), shrunk(s, j));
    } else if s[p] is LoopEnd {
        let i = lemma_partner(s, p);
        if is_zero_loop(s, i) {
            lemma_zero_loop_closes(s, i);
            lemma_one_end(s, i, i + 2, p);
        }
        lemma_resolved_pair(s, i, p);
        lemma_zero_keeps_closes(s, i, p);
        lemma_resolved_pair(t, shrunk(s, i), shrunk(s, p));
    } else {
        assert(pp[p] == s[p]);
        assert(qq[shrunk(s, p)] == s[p]);
    }
}

/// A step over an instruction outside the zeroing loops.
proof fn lemma_zero_step_same<T: CellType>(
    s: Seq<Instruction<T>>,
    p: int,
    a: Session<T>,
    b: Session<T>,
) -> (r: (nat, Session<T>))
    requires
        verdict(s) is Ok,
        s.len() <= u32::MAX,
        0 <= p < s.len(),
        !inside(s, p),
        !is_zero_loop(s, p),
        zero_related(s, p, a, b),
        advanced(a, resolved(s), p) is Ok,
    ensures
        zero_stepped(s, p, a, b, r.0, r.1),
{
    let pp = resolved(s);
    let qq = resolved(zeroings_recognized(s));
    lemma_step_ok(a, pp, p);
    lemma_zero_jump(s, p, a.machine.current());
    lemma_zero_related_alike(s, p, a, b);
    lemma_step_same(a, pp, p, b, qq, shrunk(s, p));
    let a_next = advanced(a, pp, p).unwrap().0;
    let p_next = advanced(a, pp, p).unwrap().1;
    let b_next = advanced(b, qq, shrunk(s, p)).unwrap().0;
    lemma_zero_related_alike(s, p_next, a_next, b_next);
    (1, b_next)
}

/// A run of `s` from `p` that ends well is matched by a run of the result
/// from the place that belongs to `p`: it ends well too, in a session that
/// is alike, and takes no more instructions than the run of `s` and what
/// it was behind.
pub proof fn lemma_zero_simulates<T: CellType>(
    s: Seq<Instruction<T>>,
    p: int,
    a: Session<T>,
    b: Session<T>,
    n: nat,
    e: Session<T>,
) -> (r: (nat, Session<T>))
    requires
        verdict(s) is Ok,
        s.len() <= u32::MAX,
        0 <= p <= s.len(),
        zero_related(s, p, a, b),
        ran(a, resolved(s), p, n) == (e, Some(Ok::<(), Error>(()))),
    ensures
        ran(b, resolved(zeroings_recognized(s)), shrunk(s, p), r.0) == (
            r.1,
            Some(Ok::<(), Error>(())),
        ),
        alike(e, r.1),
        richer(r.1.machine.budget, e.machine.budget, 0),
        r.0 <= n + zero_lag(s, p),
    decreases n,
{
    let t = zeroings_recognized(s);
    let pp = resolved(s);
    let qq = resolved(t);
    assert(qq.len() == t.len());
    if p == s.len() {
        lemma_ran_done(a, pp, p, n);
        lemma_recognized_whole(s);
        lemma_zero_related_alike(s, p, a, b);
        lemma_ran_done(b, qq, shrunk(s, p), 0);
        (0, b)
    } else {
        if n == 0 {
            lemma_ran_out(a, pp, p);
        }
        lemma_ran_step(a, pp, p, n);
        let a_next = advanced(a, pp, p).unwrap().0;
        let p_next = advanced(a, pp, p).unwrap().1;
        let step = if is_zero_loop(s, p) {
            lemma_zero_step_enter(s, p, a, b)
        } else if is_zero_loop(s, p - 1) {
            lemma_zero_step_body(s, p, a, b)
        } else if is_zero_loop(s, p - 2) {
            lemma_zero_step_exit(s, p, a, b)
        } else {
            lemma_zero_step_same(s, p, a, b)
        };
        let rest = lemma_zero_simulates(s, p_next, a_next, step.1, (n - 1) as nat, e);
        if step.0 == 0 {
            rest
        } else {
            lemma_ran_step(b, qq, shrunk(s, p), rest.0 + 1);
            ((rest.0 + 1) as nat, rest.1)
        }
    }
}

/// Whatever a run of `s` from `p` has written after `n` instructions, the
/// run of the result from the place that belongs to `p` has written the
/// same after some number of instructions that is no larger than `n` and
/// what it was behind; whether the run of `s` has ended by then, and how,
/// does not matter.
pub proof fn lemma_zero_follows<T: CellType>(
    s: Seq<Instruction<T>>,
    p: int,
    a: Session<T>,
    b: Session<T>,
    n: nat,
) -> (m: nat)
    requires
        verdict(s) is Ok,
        s.len() <= u32::MAX,
        0 <= p <= s.len(),
        zero_related(s, p, a, b),
    ensures
        ran(b, resolved(zeroings_recognized(s)), shrunk(s, p), m).0.written == ran(
            a,
            resolved(s),
            p,
            n,
        ).0.written,
        m <= n + zero_lag(s, p),
    decreases n,
{
    let t = zeroings_recognized(s);
    let pp = resolved(s);
    let qq = resolved(t);
    assert(qq.len() == t.len());
    lemma_ran_nowhere(b, qq, shrunk(s, p));
    if p == s.len() {
        lemma_ran_done(a, pp, p, n);
        0
    } else if n == 0 {
        lemma_ran_nowhere(a, pp, p);
        0
    } else {
        lemma_ran_step(a, pp, p, n);
        if advanced(a, pp, p) is Err {
            0
        } else {
            let a_next = advanced(a, pp, p).unwrap().0;
            let p_next = advanced(a, pp, p).unwrap().1;
            let step = if is_zero_loop(s, p) {
                lemma_zero_step_enter(s, p, a, b)
            } else if is_zero_loop(s, p - 1) {
                lemma_zero_step_body(s, p, a, b)
            } else if is_zero_loop(s, p - 2) {
                lemma_zero_step_exit(s, p, a, b)
            } else {
                lemma_zero_step_same(s, p, a, b)
            };
            let rest = lemma_zero_follows(s, p_next, a_next, step.1, (n - 1) as nat);
            if step.0 == 0 {
                rest
            } else {
                lemma_ran_step(b, qq, shrunk(s, p), rest + 1);
                (rest + 1) as nat
            }
        }
    }
}

/// Where a move leaves the data array, the run of the result fails on the
/// same move in the same way: the recognition keeps every move, and no
/// move stands inside a zeroing loop.
proof fn lemma_zero_failing_step<T: CellType>(
    s: Seq<Instruction<T>>,
    p: int,
    a: Session<T>,
    b: Session<T>,
)
    requires
        verdict(s) is Ok,
        s.len() <= u32::MAX,
        0 <= p < s.len(),
        zero_related(s, p, a, b),
        advanced(a, resolved(s), p) is Err,
        is_pointer_error(advanced(a, resolved(s), p)->Err_0),
    ensures
        ran(b, resolved(zeroings_recognized(s)), shrunk(s, p), 1) == (
            b,
            Some(Err::<(), Error>(advanced(a, resolved(s), p)->Err_0)),
        ),
        alike(a, b),
        richer(b.machine.budget, a.machine.budget, 0),
{
    let t = zeroings_recognized(s);
    let pp = resolved(s);
    let qq = resolved(t);
    assert(qq.len() == t.len());
    lemma_step_leaves(a, pp, p);
    lemma_resolved_keeps_brackets(s, first_unmatched_end(s, 0));
    assert(pp[p] == s[p]);
    assert(!is_zero_loop(s, p));
    assert(!inside(s, p));
    lemma_zero_jump(s, p, 0);
    lemma_zero_related_alike(s, p, a, b);
    lemma_step_same_fails(a, pp, p, b, qq, shrunk(s, p));
    lemma_ran_step(b, qq, shrunk(s, p), 1);
}

/// A run of `s` from `p` that fails by leaving the data array is matched
/// by a run of the result from the place that belongs to `p`: it fails in
/// the same way, in a session that is alike.
pub proof fn lemma_zero_fails<T: CellType>(
    s: Seq<Instruction<T>>,
    p: int,
    a: Session<T>,
    b: Session<T>,
    n: nat,
) -> (r: (nat, Session<T>))
    requires
        verdict(s) is Ok,
        s.len() <= u32::MAX,
        0 <= p <= s.len(),
        zero_related(s, p, a, b),
        ran(a, resolved(s), p, n).1 is Some,
        ran(a, resolved(s), p, n).1.unwrap() is Err,
        is_pointer_error(ran(a, resolved(s), p, n).1.unwrap()->Err_0),
    ensures
        ran(b, resolved(zeroings_recognized(s)), shrunk(s, p), r.0) == (
            r.1,
            ran(a, resolved(s), p, n).1,
        ),
        alike(ran(a, resolved(s), p, n).0, r.1),
        richer(r.1.machine.budget, ran(a, resolved(s), p, n).0.machine.budget, 0),
        r.0 <= n + zero_lag(s, p),
    decreases n,
{
    let t = zeroings_recognized(s);
    let pp = resolved(s);
    let qq = resolved(t);
    assert(qq.len() == t.len());
    if p == s.len() {
        lemma_ran_done(a, pp, p, n);
        (0, b)
    } else if n == 0 {
        lemma_ran_out(a, pp, p);
        (0, b)
    } else {
        lemma_ran_step(a, pp, p, n);
        if advanced(a, pp, p) is Err {
            lemma_zero_failing_step(s, p, a, b);
            (1, b)
        } else {
            let a_next = advanced(a, pp, p).unwrap().0;
            let p_next = advanced(a, pp, p).unwrap().1;
            let step = if is_zero_loop(s, p) {
                lemma_zero_step_enter(s, p, a, b)
            } else if is_zero_loop(s, p - 1) {
                lemma_zero_step_body(s, p, a, b)
            } else if is_zero_loop(s, p - 2) {
                lemma_zero_step_exit(s, p, a, b)
            } else {
                lemma_zero_step_same(s, p, a, b)
            };
            let rest = lemma_zero_fails(s, p_next, a_next, step.1, (n - 1) as nat);
            if step.0 == 0 {
                rest
            } else {
                lemma_ran_step(b, qq, shrunk(s, p), rest.0 + 1);
                ((rest.0 + 1) as nat, rest.1)
            }
        }
    }
}

} // verus!
