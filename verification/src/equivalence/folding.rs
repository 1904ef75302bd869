//! A folding pass keeps what a program does.

use vstd::prelude::*;
use crate::cell_type::CellType;
use crate::compile::jumps::{
    lemma_partner, lemma_resolved_keeps_brackets, lemma_resolved_pair, lemma_verdict,
};
use crate::compile::optimize::{folded, folded_from, lemma_folded_len, FoldResult};
use crate::compile::{closes, depth_change, first_unmatched_end, nesting, resolved, verdict};
use crate::equivalence::effects::{
    acted, is_cell_op, is_move, is_plain, lemma_acted_in_bounds, lemma_acted_same,
    lemma_fold_cell_ops, lemma_fold_moves, lemma_folded_acts, lemma_mixed_never_fold,
    same_memory,
};
use crate::equivalence::steps::{
    alike, is_pointer_error, lemma_plain_step, lemma_step_acts, lemma_step_leaves, lemma_step_ok,
    lemma_step_same, lemma_step_same_fails, lemma_stopped_step, moved_on, next_ip, richer,
    same_op, stopped_at,
};
use crate::instruction::Instruction;
use crate::interpret::{
    advanced, lemma_ran_done, lemma_ran_nowhere, lemma_ran_out, lemma_ran_step, ran, Error,
    Session,
};

verus! {

/// What a folding pass has put out after it has read the first `p`
/// instructions of `s`, and what it still holds to fold with the next.
pub open spec fn fold_state<T: CellType>(s: Seq<Instruction<T>>, p: int) -> (
    Seq<Instruction<T>>,
    Option<Instruction<T>>,
)
    decreases p,
{
    if p <= 0 {
        (Seq::empty(), None)
    } else {
        let (out, held) = fold_state(s, p - 1);
        match held {
            None => (out, Some(s[p - 1])),
            Some(before) => match before.folded_with(s[p - 1]) {
                FoldResult::Folded(both) => (out, Some(both)),
                FoldResult::NoOp => (out, None),
                FoldResult::CantFold => (out.push(before), Some(s[p - 1])),
            },
        }
    }
}

/// What the pass has put out after `p` instructions.
pub open spec fn put_out<T: CellType>(s: Seq<Instruction<T>>, p: int) -> Seq<Instruction<T>> {
    fold_state(s, p).0
}

/// What the pass holds after `p` instructions.
pub open spec fn held<T: CellType>(s: Seq<Instruction<T>>, p: int) -> Option<Instruction<T>> {
    fold_state(s, p).1
}

/// What the pass holds, as a sequence.
pub open spec fn held_seq<T: CellType>(s: Seq<Instruction<T>>, p: int) -> Seq<Instruction<T>> {
    match held(s, p) {
        Some(instruction) => seq![instruction],
        None => Seq::empty(),
    }
}

/// By how much what the pass holds changes the nesting depth.
pub open spec fn held_depth<T: CellType>(s: Seq<Instruction<T>>, p: int) -> int {
    match held(s, p) {
        Some(instruction) => depth_change(instruction),
        None => 0,
    }
}

/// Only plain instructions fold or cancel, and what they fold into is plain.
pub proof fn lemma_folds_are_plain<T: CellType>(first: Instruction<T>, second: Instruction<T>)
    ensures
        !(first.folded_with(second) is CantFold) ==> is_plain(first) && is_plain(second),
        first.folded_with(second) matches FoldResult::Folded(both) ==> is_plain(both),
{
    if is_cell_op(first) && is_cell_op(second) {
        T::lemma_modulus();
        lemma_fold_cell_ops(first, second, 0);
    } else if is_move(first) && is_move(second) {
        lemma_fold_moves(first, second, 0);
    } else {
        lemma_mixed_never_fold(first, second);
    }
}

/// What the pass has put out and what it will make of the rest is the
/// whole folded sequence.
pub proof fn lemma_fold_state<T: CellType>(s: Seq<Instruction<T>>, p: int)
    requires
        0 <= p <= s.len(),
    ensures
        put_out(s, p) + folded_from(s, p, held(s, p)) == folded(s),
    decreases p,
{
    if p == 0 {
        assert(Seq::<Instruction<T>>::empty() + folded(s) =~= folded(s));
    } else {
        lemma_fold_state(s, p - 1);
        let out = put_out(s, p - 1);
        match held(s, p - 1) {
            None => {},
            Some(before) => match before.folded_with(s[p - 1]) {
                FoldResult::CantFold => {
                    let rest = folded_from(s, p, Some(s[p - 1]));
                    assert(out + (seq![before] + rest) =~= out.push(before) + rest);
                },
                _ => {},
            },
        }
    }
}

/// The folded sequence is what the pass has put out at the end and what
/// it still holds.
pub proof fn lemma_folded_whole<T: CellType>(s: Seq<Instruction<T>>)
    ensures
        folded(s) == put_out(s, s.len() as int) + held_seq(s, s.len() as int),
{
    lemma_fold_state(s, s.len() as int);
}

/// What the pass has put out stays, and each instruction it reads adds at
/// most one instruction to it.
pub proof fn lemma_put_out_grows<T: CellType>(s: Seq<Instruction<T>>, p: int, q: int)
    requires
        0 <= p <= q <= s.len(),
    ensures
        put_out(s, p).len() <= put_out(s, q).len() <= put_out(s, p).len() + (q - p),
        forall|k: int| 0 <= k < put_out(s, p).len() ==> put_out(s, p)[k] == put_out(s, q)[k],
    decreases q - p,
{
    if p < q {
        lemma_put_out_grows(s, p, q - 1);
    }
}

/// What the pass has put out is the start of the folded sequence.
pub proof fn lemma_put_out_stays<T: CellType>(s: Seq<Instruction<T>>, p: int)
    requires
        0 <= p <= s.len(),
    ensures
        put_out(s, p).len() <= folded(s).len(),
        forall|k: int| 0 <= k < put_out(s, p).len() ==> put_out(s, p)[k] == folded(s)[k],
{
    lemma_folded_whole(s);
    lemma_put_out_grows(s, p, s.len() as int);
}

/// An instruction that is not plain is held as it is once it is read, and
/// what was held before it is put out.
pub proof fn lemma_fixed_is_held<T: CellType>(s: Seq<Instruction<T>>, k: int)
    requires
        0 <= k < s.len(),
        !is_plain(s[k]),
    ensures
        held(s, k + 1) == Some(s[k]),
        put_out(s, k + 1) == put_out(s, k) + held_seq(s, k),
{
    match held(s, k) {
        None => {
            assert(put_out(s, k) + held_seq(s, k) =~= put_out(s, k));
        },
        Some(before) => {
            lemma_folds_are_plain(before, s[k]);
            assert(put_out(s, k) + held_seq(s, k) =~= put_out(s, k).push(before));
        },
    }
}

/// What is held and is not plain is the instruction that was read last.
pub proof fn lemma_held_fixed<T: CellType>(s: Seq<Instruction<T>>, p: int)
    requires
        0 <= p <= s.len(),
        held(s, p) is Some,
        !is_plain(held(s, p).unwrap()),
    ensures
        p >= 1,
        held(s, p) == Some(s[p - 1]),
{
    if p >= 1 {
        match held(s, p - 1) {
            None => {},
            Some(before) => {
                lemma_folds_are_plain(before, s[p - 1]);
            },
        }
    }
}

/// What is held stands in the folded sequence right after what has been
/// put out, once nothing more can fold into it.
pub proof fn lemma_held_place<T: CellType>(s: Seq<Instruction<T>>, p: int)
    requires
        0 <= p <= s.len(),
        held(s, p) is Some,
        p < s.len() ==> held(s, p).unwrap().folded_with(s[p]) is CantFold,
    ensures
        put_out(s, p).len() < folded(s).len(),
        folded(s)[put_out(s, p).len() as int] == held(s, p).unwrap(),
        p < s.len() ==> put_out(s, p + 1) == put_out(s, p).push(held(s, p).unwrap()),
        p == s.len() ==> folded(s).len() == put_out(s, p).len() + 1,
{
    if p < s.len() {
        lemma_put_out_stays(s, p + 1);
    } else {
        lemma_folded_whole(s);
    }
}

/// An instruction that is not plain stands in the folded sequence right
/// after what has been put out when it is read.
pub proof fn lemma_fixed_place<T: CellType>(s: Seq<Instruction<T>>, k: int)
    requires
        0 <= k < s.len(),
        !is_plain(s[k]),
    ensures
        put_out(s, k + 1).len() < folded(s).len(),
        folded(s)[put_out(s, k + 1).len() as int] == s[k],
        k + 1 < s.len() ==> put_out(s, k + 2).len() == put_out(s, k + 1).len() + 1,
{
    lemma_fixed_is_held(s, k);
    if k + 1 < s.len() {
        lemma_folds_are_plain(s[k], s[k + 1]);
    }
    lemma_held_place(s, k + 1);
}

/// The nesting depth of the folded sequence after what has been put out,
/// and of what is held, is that of the instructions read.
pub proof fn lemma_fold_nesting<T: CellType>(s: Seq<Instruction<T>>, p: int)
    requires
        0 <= p <= s.len(),
    ensures
        nesting(folded(s), put_out(s, p).len() as int) + held_depth(s, p) == nesting(s, p),
    decreases p,
{
    if p > 0 {
        lemma_fold_nesting(s, p - 1);
        match held(s, p - 1) {
            None => {},
            Some(before) => {
                lemma_folds_are_plain(before, s[p - 1]);
                if before.folded_with(s[p - 1]) is CantFold {
                    lemma_held_place(s, p - 1);
                }
            },
        }
    }
}

/// Every length up to that of what has been put out was the length of
/// what had been put out at some time.
pub proof fn lemma_cover<T: CellType>(s: Seq<Instruction<T>>, lo: int, hi: int, k: int) -> (p: int)
    requires
        0 <= lo <= hi <= s.len(),
        put_out(s, lo).len() <= k <= put_out(s, hi).len(),
    ensures
        lo <= p <= hi,
        put_out(s, p).len() == k,
    decreases hi - lo,
{
    if put_out(s, hi).len() == k {
        hi
    } else {
        lemma_put_out_grows(s, lo, lo);
        lemma_put_out_grows(s, hi - 1, hi);
        lemma_cover(s, lo, hi - 1, k)
    }
}

/// The nesting depth of the folded sequence at a length that what has been
/// put out had after `p` instructions is the depth of `s` at `p`, or at
/// `p - 1` where a loop start or end is held.
pub proof fn lemma_fold_depth_at<T: CellType>(s: Seq<Instruction<T>>, p: int)
    requires
        0 <= p <= s.len(),
    ensures
        nesting(folded(s), put_out(s, p).len() as int) == (if held_depth(s, p) != 0 {
            nesting(s, p - 1)
        } else {
            nesting(s, p)
        }),
        held_depth(s, p) != 0 ==> p >= 1,
{
    lemma_fold_nesting(s, p);
    if held_depth(s, p) != 0 {
        lemma_held_fixed(s, p);
    }
}

/// A folding pass keeps the loops: the instructions that were the start
/// and the end of a loop are the start and the end of a loop afterwards.
pub proof fn lemma_fold_keeps_closes<T: CellType>(s: Seq<Instruction<T>>, i: int, j: int)
    requires
        closes(s, i, j),
    ensures
        closes(folded(s), put_out(s, i + 1).len() as int, put_out(s, j + 1).len() as int),
{
    let t = folded(s);
    let a = put_out(s, i + 1).len() as int;
    let b = put_out(s, j + 1).len() as int;
    lemma_fixed_place(s, i);
    lemma_fixed_place(s, j);
    lemma_fixed_is_held(s, i);
    lemma_fixed_is_held(s, j);
    lemma_put_out_grows(s, i + 2, j + 1);
    lemma_fold_nesting(s, i + 1);
    lemma_fold_nesting(s, j + 1);
    assert forall|k: int| a < k <= b implies #[trigger] nesting(t, k) > nesting(t, a) by {
        let p = lemma_cover(s, i + 2, j + 1, k);
        lemma_fold_depth_at(s, p);
        if held_depth(s, p) != 0 {
            assert(nesting(s, p - 1) > nesting(s, i));
        } else {
            assert(p <= j);
            assert(nesting(s, p) > nesting(s, i));
        }
    }
}

/// A folding pass takes nothing from the nesting depths and adds nothing
/// to them: where the depth of `s` is negative somewhere so is that of
/// the folded sequence, and the other way round, and the depths at the
/// end are the same.
pub proof fn lemma_fold_depths<T: CellType>(s: Seq<Instruction<T>>)
    ensures
        nesting(folded(s), folded(s).len() as int) == nesting(s, s.len() as int),
        (exists|k: int| 0 <= k <= s.len() && #[trigger] nesting(s, k) < 0) <==> (exists|k: int|
            0 <= k <= folded(s).len() && #[trigger] nesting(folded(s), k) < 0),
{
    let t = folded(s);
    let n = s.len() as int;
    lemma_folded_whole(s);
    lemma_fold_nesting(s, n);
    if exists|k: int| 0 <= k <= s.len() && #[trigger] nesting(s, k) < 0 {
        let k = choose|k: int| 0 <= k <= s.len() && #[trigger] nesting(s, k) < 0;
        lemma_fold_nesting(s, k);
        lemma_put_out_stays(s, k);
        if held_depth(s, k) != 0 {
            lemma_held_fixed(s, k);
            lemma_fixed_place(s, k - 1);
            let behind = put_out(s, k).len() as int;
            assert(nesting(t, behind + 1) == nesting(t, behind) + depth_change(t[behind]));
            assert(nesting(t, behind) < 0 || nesting(t, behind + 1) < 0);
        } else {
            assert(nesting(t, put_out(s, k).len() as int) < 0);
        }
    }
    if exists|k: int| 0 <= k <= t.len() && #[trigger] nesting(t, k) < 0 {
        let k = choose|k: int| 0 <= k <= t.len() && #[trigger] nesting(t, k) < 0;
        if k <= put_out(s, n).len() {
            let p = lemma_cover(s, 0, n, k);
            lemma_fold_depth_at(s, p);
            assert(nesting(s, p) < 0 || nesting(s, p - 1) < 0);
        } else {
            assert(nesting(s, n) < 0);
        }
    }
}

/// A folding pass keeps what is right or wrong with the loops.
pub proof fn lemma_fold_same_verdict<T: CellType>(s: Seq<Instruction<T>>)
    ensures
        verdict(folded(s)) == verdict(s),
{
    lemma_fold_depths(s);
    lemma_verdict(s);
    lemma_verdict(folded(s));
}

/// A folding pass leaves matched loops matched.
pub proof fn lemma_fold_keeps_verdict<T: CellType>(s: Seq<Instruction<T>>)
    requires
        verdict(s) is Ok,
    ensures
        verdict(folded(s)) is Ok,
{
    lemma_fold_same_verdict(s);
}

/// The plain instruction that the pass holds after `p` instructions: the
/// run of the folded program has yet to run what becomes of it.
pub open spec fn lagging<T: CellType>(s: Seq<Instruction<T>>, p: int) -> Option<Instruction<T>> {
    match held(s, p) {
        Some(instruction) => if is_plain(instruction) {
            Some(instruction)
        } else {
            None
        },
        None => None,
    }
}

/// How many instructions the run of the folded program is behind: one
/// where a plain instruction is held.
pub open spec fn lag<T: CellType>(s: Seq<Instruction<T>>, p: int) -> nat {
    if lagging(s, p) is Some {
        1
    } else {
        0
    }
}

/// Where the run of the folded program stands when the run of `s` stands
/// at `p`: after what has been put out, and after what is held where that
/// is not plain.
pub open spec fn reached<T: CellType>(s: Seq<Instruction<T>>, p: int) -> int {
    put_out(s, p).len() + (if held(s, p) is Some && lagging(s, p) is None {
        1int
    } else {
        0int
    })
}

/// The session `a` of a run of `s` that stands at `p` and the session `b`
/// of the run of the folded program belong together: `a` is what `b`
/// becomes by the plain instruction that is held, `b` has the budget for
/// it, and they have read and written the same.
pub open spec fn related<T: CellType>(
    s: Seq<Instruction<T>>,
    p: int,
    a: Session<T>,
    b: Session<T>,
) -> bool {
    &&& a.machine.in_bounds()
    &&& b.machine.in_bounds()
    &&& a.unread == b.unread
    &&& a.written == b.written
    &&& richer(b.machine.budget, a.machine.budget, lag(s, p) as int)
    &&& match lagging(s, p) {
        Some(instruction) => acted(b.machine, instruction) is Some && same_memory(
            acted(b.machine, instruction).unwrap(),
            a.machine,
        ),
        None => same_memory(a.machine, b.machine),
    }
}

/// The run of the folded program runs the plain instruction that is held,
/// once nothing more can fold into it, and the two sessions are alike.
proof fn lemma_catch_up<T: CellType>(
    s: Seq<Instruction<T>>,
    p: int,
    a: Session<T>,
    b: Session<T>,
) -> (b1: Session<T>)
    requires
        verdict(s) is Ok,
        0 <= p <= s.len(),
        related(s, p, a, b),
        lagging(s, p) is Some,
        p < s.len() ==> lagging(s, p).unwrap().folded_with(s[p]) is CantFold,
        !a.machine.exhausted() || p == s.len(),
    ensures
        advanced(b, resolved(folded(s)), reached(s, p)) == Ok::<(Session<T>, int), Error>(
            (b1, reached(s, p) + 1),
        ),
        reached(s, p) + 1 <= folded(s).len(),
        p < s.len() ==> put_out(s, p + 1).len() == reached(s, p) + 1,
        p == s.len() ==> folded(s).len() == reached(s, p) + 1,
        alike(a, b1),
        b1.machine.in_bounds(),
        richer(b1.machine.budget, a.machine.budget, 0),
{
    let t = folded(s);
    let q = resolved(t);
    let c = lagging(s, p).unwrap();
    lemma_held_place(s, p);
    lemma_resolved_keeps_brackets(t, first_unmatched_end(t, 0));
    assert(q[reached(s, p)] == c);
    lemma_step_acts(b, q, reached(s, p));
    lemma_acted_in_bounds(b.machine, c);
    moved_on(b, acted(b.machine, c).unwrap())
}

/// One step of the run of `s` over a plain instruction: the run of the
/// folded program stays where it is, or runs what was held where the
/// instruction does not fold into it.
proof fn lemma_fold_step_plain<T: CellType>(
    s: Seq<Instruction<T>>,
    p: int,
    a: Session<T>,
    b: Session<T>,
) -> (r: (nat, Session<T>))
    requires
        verdict(s) is Ok,
        0 <= p < s.len(),
        is_plain(s[p]),
        related(s, p, a, b),
        advanced(a, resolved(s), p) is Ok,
    ensures
        related(s, p + 1, advanced(a, resolved(s), p).unwrap().0, r.1),
        advanced(a, resolved(s), p).unwrap().1 == p + 1,
        r.0 == 0 ==> r.1 == b && reached(s, p + 1) == reached(s, p),
        r.0 != 0 ==> r.0 == 1 && advanced(b, resolved(folded(s)), reached(s, p)) == Ok::<
            (Session<T>, int),
            Error,
        >((r.1, reached(s, p + 1))),
        r.0 + lag(s, p + 1) <= 1 + lag(s, p),
        r.0 != 0 ==> reached(s, p) < folded(s).len(),
{
    let x = s[p];
    let pp = resolved(s);
    lemma_plain_step(s, p, a);
    let m = acted(a.machine, x).unwrap();
    let a_next = advanced(a, pp, p).unwrap().0;
    match lagging(s, p) {
        None => {
            if held(s, p) is Some {
                lemma_folds_are_plain(held(s, p).unwrap(), x);
            }
            lemma_acted_same(a.machine, b.machine, x);
            (0, b)
        },
        Some(c) => {
            let mc = acted(b.machine, c).unwrap();
            lemma_acted_in_bounds(b.machine, c);
            lemma_acted_same(a.machine, mc, x);
            lemma_folds_are_plain(c, x);
            match c.folded_with(x) {
                FoldResult::Folded(both) => {
                    lemma_folded_acts(b.machine, c, x);
                    (0, b)
                },
                FoldResult::NoOp => {
                    lemma_folded_acts(b.machine, c, x);
                    (0, b)
                },
                FoldResult::CantFold => {
                    let b1 = lemma_catch_up(s, p, a, b);
                    lemma_acted_same(a.machine, b1.machine, x);
                    (1, b1)
                },
            }
        },
    }
}

/// Where the run of `s` goes on after an instruction at `p` that is not
/// plain, the run of the folded program goes on at the place that belongs
/// to it, with nothing held that it has yet to run.
proof fn lemma_fold_jump<T: CellType>(s: Seq<Instruction<T>>, p: int, current: int)
    requires
        verdict(s) is Ok,
        s.len() <= u32::MAX,
        0 <= p < s.len(),
        !is_plain(s[p]),
    ensures
        put_out(s, p + 1).len() < folded(s).len(),
        same_op(resolved(s)[p], resolved(folded(s))[put_out(s, p + 1).len() as int]),
        0 <= next_ip(resolved(s)[p], p, current) <= s.len(),
        lagging(s, next_ip(resolved(s)[p], p, current)) is None,
        next_ip(
            resolved(folded(s))[put_out(s, p + 1).len() as int],
            put_out(s, p + 1).len() as int,
            current,
        ) == reached(s, next_ip(resolved(s)[p], p, current)),
{
    let t = folded(s);
    let pp = resolved(s);
    let qq = resolved(t);
    let q1 = put_out(s, p + 1).len() as int;
    lemma_fold_keeps_verdict(s);
    lemma_folded_len(s, 0, None);
    lemma_fixed_place(s, p);
    lemma_fixed_is_held(s, p);
    lemma_resolved_keeps_brackets(s, first_unmatched_end(s, 0));
    lemma_resolved_keeps_brackets(t, first_unmatched_end(t, 0));
    if s[p] is LoopStart {
        let j = lemma_partner(s, p);
        lemma_resolved_pair(s, p, j);
        lemma_fold_keeps_closes(s, p, j);
        lemma_resolved_pair(t, q1, put_out(s, j + 1).len() as int);
        lemma_fixed_is_held(s, j);
    } else if s[p] is LoopEnd {
        let i = lemma_partner(s, p);
        lemma_resolved_pair(s, i, p);
        lemma_fold_keeps_closes(s, i, p);
        lemma_resolved_pair(t, put_out(s, i + 1).len() as int, q1);
        lemma_fixed_is_held(s, i);
    } else {
        assert(pp[p] == s[p]);
        assert(qq[q1] == s[p]);
    }
}

/// One step of the run of `s` over an instruction that is not plain: the
/// run of the folded program first runs what was held, where that is
/// plain, and then the same instruction.
proof fn lemma_fold_step_fixed<T: CellType>(
    s: Seq<Instruction<T>>,
    p: int,
    a: Session<T>,
    b: Session<T>,
) -> (r: (Session<T>, Session<T>))
    requires
        verdict(s) is Ok,
        s.len() <= u32::MAX,
        0 <= p < s.len(),
        !is_plain(s[p]),
        related(s, p, a, b),
        advanced(a, resolved(s), p) is Ok,
    ensures
        0 <= advanced(a, resolved(s), p).unwrap().1 <= s.len(),
        related(
            s,
            advanced(a, resolved(s), p).unwrap().1,
            advanced(a, resolved(s), p).unwrap().0,
            r.1,
        ),
        lag(s, advanced(a, resolved(s), p).unwrap().1) == 0,
        lag(s, p) == 0 ==> r.0 == b,
        reached(s, p) + lag(s, p) < folded(s).len(),
        lag(s, p) != 0 ==> advanced(b, resolved(folded(s)), reached(s, p)) == Ok::<
            (Session<T>, int),
            Error,
        >((r.0, reached(s, p) + 1)),
        advanced(r.0, resolved(folded(s)), reached(s, p) + lag(s, p)) == Ok::<
            (Session<T>, int),
            Error,
        >((r.1, reached(s, advanced(a, resolved(s), p).unwrap().1))),
{
    let t = folded(s);
    let pp = resolved(s);
    let qq = resolved(t);
    let q1 = put_out(s, p + 1).len() as int;
    lemma_step_ok(a, pp, p);
    lemma_fold_jump(s, p, a.machine.current());
    lemma_fixed_is_held(s, p);
    let b1 = if lagging(s, p) is Some {
        lemma_folds_are_plain(lagging(s, p).unwrap(), s[p]);
        lemma_catch_up(s, p, a, b)
    } else {
        b
    };
    assert(reached(s, p) + lag(s, p) == q1) by {
        if held(s, p) is Some {
            assert(put_out(s, p) + held_seq(s, p) =~= put_out(s, p).push(held(s, p).unwrap()));
        } else {
            assert(put_out(s, p) + held_seq(s, p) =~= put_out(s, p));
        }
    }
    lemma_step_same(a, pp, p, b1, qq, q1);
    let b_next = advanced(b1, qq, q1).unwrap().0;
    (b1, b_next)
}

/// A run of `s` from `p` that ends well is matched by a run of the folded
/// program from the place that belongs to `p`: it ends well too, in a
/// session that is alike, and takes no more instructions than the run of
/// `s` and what it was behind.
pub proof fn lemma_fold_simulates<T: CellType>(
    s: Seq<Instruction<T>>,
    p: int,
    a: Session<T>,
    b: Session<T>,
    n: nat,
    e: Session<T>,
) -> (r: (nat, Session<T>))
    requires
        verdict(s) is Ok,
        s.len() <= u32::MAX,
        0 <= p <= s.len(),
        related(s, p, a, b),
        ran(a, resolved(s), p, n) == (e, Some(Ok::<(), Error>(()))),
    ensures
        ran(b, resolved(folded(s)), reached(s, p), r.0) == (r.1, Some(Ok::<(), Error>(()))),
        alike(e, r.1),
        richer(r.1.machine.budget, e.machine.budget, 0),
        r.0 <= n + lag(s, p),
    decreases n,
{
    let t = folded(s);
    let pp = resolved(s);
    let qq = resolved(t);
    assert(qq.len() == t.len());
    if p == s.len() {
        lemma_ran_done(a, pp, p, n);
        if lagging(s, p) is Some {
            let b1 = lemma_catch_up(s, p, a, b);
            lemma_ran_step(b, qq, reached(s, p), 1);
            lemma_ran_done(b1, qq, reached(s, p) + 1, 0);
            (1, b1)
        } else {
            lemma_folded_whole(s);
            lemma_ran_done(b, qq, reached(s, p), 0);
            (0, b)
        }
    } else {
        if n == 0 {
            lemma_ran_out(a, pp, p);
        }
        lemma_ran_step(a, pp, p, n);
        let a_next = advanced(a, pp, p).unwrap().0;
        let p_next = advanced(a, pp, p).unwrap().1;
        if is_plain(s[p]) {
            let step = lemma_fold_step_plain(s, p, a, b);
            let rest = lemma_fold_simulates(s, p + 1, a_next, step.1, (n - 1) as nat, e);
            if step.0 == 0 {
                rest
            } else {
                lemma_ran_step(b, qq, reached(s, p), rest.0 + 1);
                ((rest.0 + 1) as nat, rest.1)
            }
        } else {
            let step = lemma_fold_step_fixed(s, p, a, b);
            let rest = lemma_fold_simulates(s, p_next, a_next, step.1, (n - 1) as nat, e);
            lemma_ran_step(step.0, qq, reached(s, p) + lag(s, p), rest.0 + 1);
            if lag(s, p) == 0 {
                ((rest.0 + 1) as nat, rest.1)
            } else {
                lemma_ran_step(b, qq, reached(s, p), rest.0 + 2);
                ((rest.0 + 2) as nat, rest.1)
            }
        }
    }
}

/// Whatever a run of `s` from `p` has written after `n` instructions, the
/// run of the folded program from the place that belongs to `p` has
/// written the same after some number of instructions that is no larger
/// than `n` and what it was behind; whether the run of `s` has ended by
/// then, and how, does not matter.
pub proof fn lemma_fold_follows<T: CellType>(
    s: Seq<Instruction<T>>,
    p: int,
    a: Session<T>,
    b: Session<T>,
    n: nat,
) -> (m: nat)
    requires
        verdict(s) is Ok,
        s.len() <= u32::MAX,
        0 <= p <= s.len(),
        related(s, p, a, b),
    ensures
        ran(b, resolved(folded(s)), reached(s, p), m).0.written == ran(a, resolved(s), p, n).0.written,
        m <= n + lag(s, p),
    decreases n,
{
    let t = folded(s);
    let pp = resolved(s);
    let qq = resolved(t);
    assert(qq.len() == t.len());
    lemma_ran_nowhere(b, qq, reached(s, p));
    if p == s.len() {
        lemma_ran_done(a, pp, p, n);
        0
    } else if n == 0 {
        lemma_ran_nowhere(a, pp, p);
        0
    } else {
        lemma_ran_step(a, pp, p, n);
        if advanced(a, pp, p) is Err {
            0
        } else {
            let a_next = advanced(a, pp, p).unwrap().0;
            let p_next = advanced(a, pp, p).unwrap().1;
            if is_plain(s[p]) {
                let step = lemma_fold_step_plain(s, p, a, b);
                let rest = lemma_fold_follows(s, p + 1, a_next, step.1, (n - 1) as nat);
                if step.0 == 0 {
                    rest
                } else {
                    lemma_ran_step(b, qq, reached(s, p), rest + 1);
                    (rest + 1) as nat
                }
            } else {
                let step = lemma_fold_step_fixed(s, p, a, b);
                let rest = lemma_fold_follows(s, p_next, a_next, step.1, (n - 1) as nat);
                lemma_ran_step(step.0, qq, reached(s, p) + lag(s, p), rest + 1);
                if lag(s, p) == 0 {
                    (rest + 1) as nat
                } else {
                    lemma_ran_step(b, qq, reached(s, p), rest + 2);
                    (rest + 2) as nat
                }
            }
        }
    }
}

/// The move at `p` stands alone: the folding pass holds no move when it
/// reads it and no move follows it, so that no other move is folded with
/// it.
pub open spec fn stands_alone<T: CellType>(s: Seq<Instruction<T>>, p: int) -> bool {
    &&& 0 <= p < s.len()
    &&& is_move(s[p])
    &&& !(held(s, p) is Some && is_move(held(s, p).unwrap()))
    &&& !(p + 1 < s.len() && is_move(s[p + 1]))
}

/// A move that stands alone is held as it is once it is read, and stands
/// in the folded sequence as it is, right after what has been put out by
/// then.
proof fn lemma_alone_place<T: CellType>(s: Seq<Instruction<T>>, p: int)
    requires
        stands_alone(s, p),
    ensures
        lagging(s, p) is Some ==> lagging(s, p).unwrap().folded_with(s[p]) is CantFold,
        put_out(s, p + 1).len() == reached(s, p) + lag(s, p),
        put_out(s, p + 1).len() < folded(s).len(),
        folded(s)[put_out(s, p + 1).len() as int] == s[p],
{
    let x = s[p];
    if held(s, p) is Some {
        lemma_mixed_never_fold(held(s, p).unwrap(), x);
        assert(put_out(s, p + 1) == put_out(s, p).push(held(s, p).unwrap()));
    } else {
        assert(put_out(s, p + 1) == put_out(s, p));
    }
    assert(held(s, p + 1) == Some(x));
    if p + 1 < s.len() {
        lemma_mixed_never_fold(x, s[p + 1]);
    }
    lemma_held_place(s, p + 1);
}

/// Where a move that stands alone leaves the data array, the run of the
/// folded program, once it has run what was held, fails on the same move
/// in the same way.
proof fn lemma_fold_failing_step<T: CellType>(
    s: Seq<Instruction<T>>,
    p: int,
    a: Session<T>,
    b: Session<T>,
) -> (r: (nat, Session<T>))
    requires
        verdict(s) is Ok,
        s.len() <= u32::MAX,
        related(s, p, a, b),
        stands_alone(s, p),
        advanced(a, resolved(s), p) is Err,
        is_pointer_error(advanced(a, resolved(s), p)->Err_0),
    ensures
        ran(b, resolved(folded(s)), reached(s, p), r.0) == (
            r.1,
            Some(Err::<(), Error>(advanced(a, resolved(s), p)->Err_0)),
        ),
        alike(a, r.1),
        richer(r.1.machine.budget, a.machine.budget, 0),
        1 <= r.0 <= 1 + lag(s, p),
{
    let t = folded(s);
    let pp = resolved(s);
    let qq = resolved(t);
    let place = put_out(s, p + 1).len() as int;
    assert(qq.len() == t.len());
    lemma_step_leaves(a, pp, p);
    lemma_alone_place(s, p);
    lemma_resolved_keeps_brackets(s, first_unmatched_end(s, 0));
    lemma_resolved_keeps_brackets(t, first_unmatched_end(t, 0));
    assert(pp[p] == s[p]);
    assert(qq[place] == s[p]);
    let b_mid = if lagging(s, p) is Some {
        lemma_catch_up(s, p, a, b)
    } else {
        b
    };
    lemma_step_same_fails(a, pp, p, b_mid, qq, place);
    lemma_ran_step(b_mid, qq, place, 1);
    if lagging(s, p) is Some {
        lemma_ran_step(b, qq, reached(s, p), 2);
        (2, b_mid)
    } else {
        (1, b_mid)
    }
}

/// A run of `s` from `p` that fails by leaving the data array, on a move
/// that stands alone, is matched by a run of the folded program from the
/// place that belongs to `p`: it fails in the same way, in a session that
/// is alike.
pub proof fn lemma_fold_fails<T: CellType>(
    s: Seq<Instruction<T>>,
    p: int,
    a: Session<T>,
    b: Session<T>,
    n: nat,
) -> (r: (nat, Session<T>))
    requires
        verdict(s) is Ok,
        s.len() <= u32::MAX,
        0 <= p <= s.len(),
        related(s, p, a, b),
        ran(a, resolved(s), p, n).1 is Some,
        ran(a, resolved(s), p, n).1.unwrap() is Err,
        is_pointer_error(ran(a, resolved(s), p, n).1.unwrap()->Err_0),
        stands_alone(s, stopped_at(a, resolved(s), p, n)),
    ensures
        ran(b, resolved(folded(s)), reached(s, p), r.0) == (r.1, ran(a, resolved(s), p, n).1),
        alike(ran(a, resolved(s), p, n).0, r.1),
        richer(r.1.machine.budget, ran(a, resolved(s), p, n).0.machine.budget, 0),
        r.0 <= n + lag(s, p),
    decreases n,
{
    let t = folded(s);
    let pp = resolved(s);
    let qq = resolved(t);
    assert(qq.len() == t.len());
    if p == s.len() {
        lemma_ran_done(a, pp, p, n);
        (0, b)
    } else if n == 0 {
        lemma_ran_out(a, pp, p);
        (0, b)
    } else {
        lemma_ran_step(a, pp, p, n);
        lemma_stopped_step(a, pp, p, n);
        if advanced(a, pp, p) is Err {
            lemma_fold_failing_step(s, p, a, b)
        } else {
            let a_next = advanced(a, pp, p).unwrap().0;
            let p_next = advanced(a, pp, p).unwrap().1;
            if is_plain(s[p]) {
                let step = lemma_fold_step_plain(s, p, a, b);
                let rest = lemma_fold_fails(s, p + 1, a_next, step.1, (n - 1) as nat);
                if step.0 == 0 {
                    rest
                } else {
                    lemma_ran_step(b, qq, reached(s, p), rest.0 + 1);
                    ((rest.0 + 1) as nat, rest.1)
                }
            } else {
                let step = lemma_fold_step_fixed(s, p, a, b);
                let rest = lemma_fold_fails(s, p_next, a_next, step.1, (n - 1) as nat);
                lemma_ran_step(step.0, qq, reached(s, p) + lag(s, p), rest.0 + 1);
                if lag(s, p) == 0 {
                    ((rest.0 + 1) as nat, rest.1)
                } else {
                    lemma_ran_step(b, qq, reached(s, p), rest.0 + 2);
                    ((rest.0 + 2) as nat, rest.1)
                }
            }
        }
    }
}

} // verus!
