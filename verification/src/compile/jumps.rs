//! Laws of jump resolution.

use vstd::prelude::*;
use crate::cell_type::CellType;
use crate::instruction::Instruction;
use crate::compile::{
    closed_before, closes, depth_change, end_of, first_unmatched_end, lemma_one_end,
    lemma_one_start, nesting, opened, resolved, resolved_at, resolved_upto, start_of, verdict,
    Error,
};

verus! {

/// Two sequences with loop starts and loop ends at the same places.
pub open spec fn same_brackets<C: CellType>(a: Seq<Instruction<C>>, b: Seq<Instruction<C>>) -> bool {
    &&& a.len() == b.len()
    &&& forall|k: int| 0 <= k < a.len() ==> depth_change(#[trigger] a[k]) == depth_change(b[k])
}

/// What being linked asks of the instruction at `k`.
pub open spec fn linked_at<C: CellType>(r: Seq<Instruction<C>>, k: int) -> bool {
    match r[k] {
        Instruction::LoopStart(end) => k < end < r.len() && r[end as int]
            == Instruction::<C>::LoopEnd(k as u32),
        Instruction::LoopEnd(start) => 0 <= start < k && r[start as int]
            == Instruction::<C>::LoopStart(k as u32),
        _ => true,
    }
}

/// Every jump target of `r` is the index of the partner, which points back.
pub open spec fn linked<C: CellType>(r: Seq<Instruction<C>>) -> bool {
    forall|k: int| 0 <= k < r.len() ==> #[trigger] linked_at(r, k)
}

/// Whether every jump target of `stream` is the index of the partner,
/// which points back.
pub fn jumps_resolved<C: CellType>(stream: &[Instruction<C>]) -> (r: bool)
    requires
        stream@.len() <= u32::MAX,
    ensures
        r == linked(stream@),
{
    let mut k: usize = 0;
    while k < stream.len()
        invariant
            k <= stream@.len() <= u32::MAX,
            forall|j: int| 0 <= j < k ==> linked_at(stream@, j),
        decreases stream@.len() - k,
    {
        let points_back = match stream[k] {
            Instruction::LoopStart(end) => {
                let end = end as usize;
                k < end && end < stream.len() && match stream[end] {
                    Instruction::LoopEnd(start) => start as usize == k,
                    _ => false,
                }
            },
            Instruction::LoopEnd(start) => {
                let start = start as usize;
                start < k && match stream[start] {
                    Instruction::LoopStart(end) => end as usize == k,
                    _ => false,
                }
            },
            _ => true,
        };
        if !points_back {
            proof {
                assert(!linked_at(stream@, k as int));
            }
            return false;
        }
        k += 1;
    }
    true
}

/// What being linked says of the instruction at `k`.
pub proof fn lemma_linked_at<C: CellType>(r: Seq<Instruction<C>>, k: int)
    requires
        linked(r),
        0 <= k < r.len(),
    ensures
        linked_at(r, k),
{
}

/// The nesting depth depends only on where the brackets are.
pub proof fn lemma_same_nesting<C: CellType>(a: Seq<Instruction<C>>, b: Seq<Instruction<C>>, n: int)
    requires
        same_brackets(a, b),
        n <= a.len(),
    ensures
        nesting(a, n) == nesting(b, n),
    decreases n,
{
    if n > 0 {
        lemma_same_nesting(a, b, n - 1);
    }
}

/// Which loop start a loop end closes depends only on where the brackets are.
pub proof fn lemma_same_closes<C: CellType>(
    a: Seq<Instruction<C>>,
    b: Seq<Instruction<C>>,
    i: int,
    j: int,
)
    requires
        same_brackets(a, b),
        closes(a, i, j),
    ensures
        closes(b, i, j),
{
    lemma_same_nesting(a, b, i);
    lemma_same_nesting(a, b, j + 1);
    assert(depth_change(a[i]) == depth_change(b[i]));
    assert(depth_change(a[j]) == depth_change(b[j]));
    assert forall|k: int| i < k <= j implies #[trigger] nesting(b, k) > nesting(b, i) by {
        lemma_same_nesting(a, b, k);
    }
}

/// Where the scan stops depends only on where the brackets are.
pub proof fn lemma_same_stop<C: CellType>(a: Seq<Instruction<C>>, b: Seq<Instruction<C>>, from: int)
    requires
        same_brackets(a, b),
        0 <= from,
    ensures
        first_unmatched_end(a, from) == first_unmatched_end(b, from),
    decreases a.len() - from,
{
    if from < a.len() {
        lemma_same_nesting(a, b, from + 1);
        lemma_same_stop(a, b, from + 1);
    }
}

/// Resolution writes targets and nothing else.
pub proof fn lemma_resolved_keeps_brackets<C: CellType>(s: Seq<Instruction<C>>, n: int)
    ensures
        same_brackets(s, resolved_upto(s, n)),
        forall|k: int|
            0 <= k < s.len() && !(s[k] is LoopStart) && !(s[k] is LoopEnd) ==> #[trigger] resolved_upto(
                s,
                n,
            )[k] == s[k],
{
}

/// Resolving the targets that an earlier resolution wrote changes nothing.
pub proof fn lemma_resolved_again<C: CellType>(s: Seq<Instruction<C>>, n: int)
    ensures
        resolved_upto(resolved_upto(s, n), n) == resolved_upto(s, n),
{
    let r = resolved_upto(s, n);
    lemma_resolved_keeps_brackets(s, n);
    assert forall|k: int| 0 <= k < s.len() implies resolved_at(r, n, k) == r[k] by {
        match s[k] {
            Instruction::LoopStart(_) => {
                if closed_before(r, k, n) {
                    let j = choose|j: int| j < n && closes(r, k, j);
                    lemma_same_closes(r, s, k, j);
                    lemma_same_closes(r, s, k, end_of(r, k));
                    lemma_one_end(s, k, end_of(r, k), j);
                    assert(closed_before(s, k, n));
                    lemma_one_end(s, k, end_of(s, k), j);
                }
            },
            Instruction::LoopEnd(_) => {
                if k < n && opened(r, k) {
                    let i = start_of(r, k);
                    lemma_same_closes(r, s, i, k);
                    assert(opened(s, k));
                    lemma_one_start(s, start_of(s, k), i, k);
                }
            },
            _ => {},
        }
    }
    assert(resolved_upto(r, n) =~= r);
}

/// Jump resolution is idempotent: resolving a resolved sequence yields the
/// same targets.
pub proof fn lemma_resolution_idempotent<C: CellType>(s: Seq<Instruction<C>>)
    ensures
        resolved(resolved(s)) == resolved(s),
        verdict(resolved(s)) == verdict(s),
{
    let n = first_unmatched_end(s, 0);
    lemma_resolved_keeps_brackets(s, n);
    lemma_same_stop(s, resolved(s), 0);
    lemma_same_nesting(s, resolved(s), s.len() as int);
    lemma_resolved_again(s, n);
}

/// The scan stops at an index of the sequence or at its end.
pub proof fn lemma_stop_range<C: CellType>(s: Seq<Instruction<C>>, from: int)
    requires
        0 <= from <= s.len(),
    ensures
        from <= first_unmatched_end(s, from) <= s.len(),
    decreases s.len() - from,
{
    if from < s.len() {
        lemma_stop_range(s, from + 1);
    }
}

/// Where the scan runs to the end, the depth is never negative.
pub proof fn lemma_never_negative<C: CellType>(s: Seq<Instruction<C>>, from: int, m: int)
    requires
        0 <= from < m <= s.len(),
        first_unmatched_end(s, from) == s.len(),
    ensures
        nesting(s, m) >= 0,
    decreases s.len() - from,
{
    if from + 1 < m {
        lemma_never_negative(s, from + 1, m);
    }
}

/// A loop end that leaves the depth non-negative has a loop start.
pub proof fn lemma_find_start<C: CellType>(s: Seq<Instruction<C>>, j: int, k: int) -> (i: int)
    requires
        0 <= k <= j < s.len(),
        s[j] is LoopEnd,
        nesting(s, j + 1) >= 0,
        forall|m: int| k < m <= j ==> #[trigger] nesting(s, m) > nesting(s, j + 1),
    ensures
        closes(s, i, j),
    decreases k,
{
    if nesting(s, k) <= nesting(s, j + 1) {
        assert(k < j);
        assert(nesting(s, k + 1) > nesting(s, j + 1));
        k
    } else {
        lemma_find_start(s, j, k - 1)
    }
}

/// A loop start has a loop end where the depth comes back down.
pub proof fn lemma_find_end<C: CellType>(s: Seq<Instruction<C>>, i: int, k: int) -> (j: int)
    requires
        0 <= i < k <= s.len(),
        s[i] is LoopStart,
        nesting(s, s.len() as int) <= nesting(s, i),
        forall|m: int| i < m <= k ==> #[trigger] nesting(s, m) > nesting(s, i),
    ensures
        closes(s, i, j),
    decreases s.len() - k,
{
    assert(nesting(s, k) > nesting(s, i));
    if nesting(s, k + 1) <= nesting(s, i) {
        k
    } else {
        lemma_find_end(s, i, k + 1)
    }
}

/// After a successful resolution every loop start holds the index of its
/// loop end and every loop end the index of its loop start.
pub proof fn lemma_resolved_linked<C: CellType>(s: Seq<Instruction<C>>)
    requires
        verdict(s) is Ok,
        s.len() <= u32::MAX,
    ensures
        linked(resolved(s)),
{
    let n = s.len() as int;
    let r = resolved(s);
    lemma_stop_range(s, 0);
    assert forall|k: int| 0 <= k < r.len() implies #[trigger] linked_at(r, k) by {
        match s[k] {
            Instruction::LoopStart(_) => {
                if k > 0 {
                    lemma_never_negative(s, 0, k);
                }
                let j = lemma_find_end(s, k, k + 1);
                assert(closed_before(s, k, n));
                lemma_one_end(s, k, end_of(s, k), j);
                assert(opened(s, j));
                lemma_one_start(s, start_of(s, j), k, j);
            },
            Instruction::LoopEnd(_) => {
                lemma_never_negative(s, 0, k + 1);
                let i = lemma_find_start(s, k, k);
                assert(opened(s, k));
                lemma_one_start(s, start_of(s, k), i, k);
                assert(closed_before(s, i, n));
                lemma_one_end(s, i, end_of(s, i), k);
            },
            _ => {},
        }
    }
}

/// In a sequence whose loops are matched, resolution writes into the two
/// instructions of a loop the index of each other.
pub proof fn lemma_resolved_pair<C: CellType>(s: Seq<Instruction<C>>, i: int, j: int)
    requires
        verdict(s) is Ok,
        closes(s, i, j),
    ensures
        resolved(s)[i] == Instruction::<C>::LoopStart(j as u32),
        resolved(s)[j] == Instruction::<C>::LoopEnd(i as u32),
{
    lemma_stop_range(s, 0);
    assert(closed_before(s, i, s.len() as int));
    lemma_one_end(s, i, end_of(s, i), j);
    assert(opened(s, j));
    lemma_one_start(s, start_of(s, j), i, j);
}

/// In a sequence whose loops are matched, every loop start has its loop
/// end and every loop end its loop start.
pub proof fn lemma_partner<C: CellType>(s: Seq<Instruction<C>>, k: int) -> (partner: int)
    requires
        verdict(s) is Ok,
        0 <= k < s.len(),
        s[k] is LoopStart || s[k] is LoopEnd,
    ensures
        s[k] is LoopStart ==> closes(s, k, partner),
        s[k] is LoopEnd ==> closes(s, partner, k),
{
    lemma_stop_range(s, 0);
    if s[k] is LoopStart {
        if k > 0 {
            lemma_never_negative(s, 0, k);
        }
        lemma_find_end(s, k, k + 1)
    } else {
        lemma_never_negative(s, 0, k + 1);
        lemma_find_start(s, k, k)
    }
}

/// Where the depth is negative somewhere, the scan stops before the end.
pub proof fn lemma_stops_early<C: CellType>(s: Seq<Instruction<C>>, from: int, k: int)
    requires
        0 <= from < k <= s.len(),
        nesting(s, k) < 0,
    ensures
        first_unmatched_end(s, from) < s.len(),
    decreases s.len() - from,
{
    if nesting(s, from + 1) >= 0 {
        lemma_stops_early(s, from + 1, k);
    }
}

/// What is wrong with the loops of a sequence, told by its nesting depths:
/// a loop end is unmatched where the depth is negative somewhere, and
/// else a loop start is unmatched where the depth is not zero at the end.
pub proof fn lemma_verdict<C: CellType>(s: Seq<Instruction<C>>)
    ensures
        verdict(s) == Err::<(), Error>(Error::UnmatchedEnd) <==> exists|k: int|
            0 <= k <= s.len() && #[trigger] nesting(s, k) < 0,
        verdict(s) == Err::<(), Error>(Error::UnmatchedStart) <==> (forall|k: int|
            0 <= k <= s.len() ==> #[trigger] nesting(s, k) >= 0) && nesting(s, s.len() as int)
            > 0,
{
    lemma_stop_range(s, 0);
    if first_unmatched_end(s, 0) < s.len() {
        lemma_stop_is_negative(s, 0);
    } else {
        assert forall|k: int| 0 <= k <= s.len() implies #[trigger] nesting(s, k) >= 0 by {
            if k > 0 {
                lemma_never_negative(s, 0, k);
            }
        }
    }
    if exists|k: int| 0 <= k <= s.len() && #[trigger] nesting(s, k) < 0 {
        let k = choose|k: int| 0 <= k <= s.len() && #[trigger] nesting(s, k) < 0;
        lemma_stops_early(s, 0, k);
    }
}

/// Where the scan stops before the end, the depth behind the instruction
/// it stops at is negative.
pub proof fn lemma_stop_is_negative<C: CellType>(s: Seq<Instruction<C>>, from: int)
    requires
        0 <= from,
        first_unmatched_end(s, from) < s.len(),
    ensures
        nesting(s, first_unmatched_end(s, from) + 1) < 0,
        from <= first_unmatched_end(s, from),
    decreases s.len() - from,
{
    if from < s.len() && nesting(s, from + 1) >= 0 {
        lemma_stop_is_negative(s, from + 1);
    }
}

/// Two sequences that differ in nothing but the targets they hold.
pub open spec fn same_but_targets<C: CellType>(a: Seq<Instruction<C>>, b: Seq<Instruction<C>>) -> bool {
    &&& a.len() == b.len()
    &&& forall|k: int|
        0 <= k < a.len() ==> match #[trigger] a[k] {
            Instruction::LoopStart(_) => b[k] is LoopStart,
            Instruction::LoopEnd(_) => b[k] is LoopEnd,
            other => b[k] == other,
        }
}

/// Resolution does not depend on the targets that the instructions held:
/// where the loops are matched, all of them are written anew.
pub proof fn lemma_resolution_ignores_targets<C: CellType>(
    a: Seq<Instruction<C>>,
    b: Seq<Instruction<C>>,
)
    requires
        same_but_targets(a, b),
        verdict(a) is Ok,
    ensures
        verdict(b) is Ok,
        resolved(a) == resolved(b),
{
    assert(same_brackets(a, b)) by {
        assert forall|k: int| 0 <= k < a.len() implies depth_change(#[trigger] a[k])
            == depth_change(b[k]) by {
            assert(match a[k] {
                Instruction::LoopStart(_) => b[k] is LoopStart,
                Instruction::LoopEnd(_) => b[k] is LoopEnd,
                other => b[k] == other,
            });
        }
    }
    lemma_same_stop(a, b, 0);
    lemma_same_nesting(a, b, a.len() as int);
    lemma_resolved_keeps_brackets(a, first_unmatched_end(a, 0));
    lemma_resolved_keeps_brackets(b, first_unmatched_end(b, 0));
    assert forall|k: int| 0 <= k < a.len() implies resolved(a)[k] == resolved(b)[k] by {
        assert(depth_change(a[k]) == depth_change(b[k]));
        if a[k] is LoopStart {
            let j = lemma_partner(a, k);
            lemma_same_closes(a, b, k, j);
            lemma_resolved_pair(a, k, j);
            lemma_resolved_pair(b, k, j);
        } else if a[k] is LoopEnd {
            let i = lemma_partner(a, k);
            lemma_same_closes(a, b, i, k);
            lemma_resolved_pair(a, i, k);
            lemma_resolved_pair(b, i, k);
        } else {
            assert(match a[k] {
                Instruction::LoopStart(_) => b[k] is LoopStart,
                Instruction::LoopEnd(_) => b[k] is LoopEnd,
                other => b[k] == other,
            });
        }
    }
    assert(resolved(a) =~= resolved(b));
}

} // verus!
