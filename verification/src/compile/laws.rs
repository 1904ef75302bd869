//! Laws of the optimizer.

use vstd::prelude::*;
use vstd::arithmetic::div_mod::{
    lemma_add_mod_noop, lemma_mod_bound, lemma_small_mod, lemma_sub_mod_noop,
    lemma_sub_mod_noop_right,
};
use crate::cell_type::{amount, lemma_amount_of, lemma_amount_value, CellType};
use crate::compile::optimize::{
    folded, folded_from, is_zero_loop, optimized, round, zeroings_recognized,
    zeroings_recognized_from, FoldResult,
};
use crate::instruction::Instruction;

verus! {

/// A single step up or down.
pub open spec fn is_step<T: CellType>(instruction: Instruction<T>) -> bool {
    match instruction {
        Instruction::Inc(by) => by.value() == 1,
        Instruction::Dec(by) => by.value() == 1,
        _ => false,
    }
}

/// A loop whose whole body is one step up or down is optimized into a
/// single assignment of zero, whatever its jump targets hold.
pub proof fn lemma_zeroing_loop_optimized<T: CellType>(start: u32, step: Instruction<T>, end: u32)
    requires
        is_step(step),
    ensures
        optimized(seq![Instruction::LoopStart(start), step, Instruction::LoopEnd(end)])
            == seq![Instruction::<T>::SetCell(T::from_value(0))],
        optimized(seq![Instruction::LoopStart(start), step, Instruction::LoopEnd(end)]).len() == 1,
{
    let s = seq![Instruction::<T>::LoopStart(start), step, Instruction::LoopEnd(end)];
    let zero = seq![Instruction::<T>::SetCell(T::from_value(0))];
    reveal_with_fuel(folded_from, 5);
    reveal_with_fuel(zeroings_recognized_from, 3);
    assert(folded(s) =~= s);
    assert(is_zero_loop(s, 0));
    assert(zeroings_recognized(s) =~= zero);
    assert(folded(zero) =~= zero);
    assert(round(s) == zero);
    assert(!is_zero_loop(zero, 0));
    assert(zeroings_recognized(zero) =~= zero);
    assert(round(zero) == zero);
    reveal_with_fuel(optimized, 3);
}

/// The sum of `f` over the instructions of `s`.
pub open spec fn sum_of<T: CellType>(
    s: Seq<Instruction<T>>,
    f: spec_fn(Instruction<T>) -> int,
) -> int
    decreases s.len(),
{
    if s.len() == 0 {
        0
    } else {
        sum_of(s.drop_last(), f) + f(s.last())
    }
}

/// Taking one instruction out of a sequence takes its share out of the sum.
pub proof fn lemma_sum_remove<T: CellType>(
    s: Seq<Instruction<T>>,
    f: spec_fn(Instruction<T>) -> int,
    j: int,
)
    requires
        0 <= j < s.len(),
    ensures
        sum_of(s, f) == sum_of(s.remove(j), f) + f(s[j]),
    decreases s.len(),
{
    if j == s.len() - 1 {
        assert(s.remove(j) =~= s.drop_last());
    } else {
        lemma_sum_remove(s.drop_last(), f, j);
        assert(s.remove(j).drop_last() =~= s.drop_last().remove(j));
        assert(s.remove(j).last() == s.last());
    }
}

/// A sum is the share of the first instruction plus the sum of the rest.
pub proof fn lemma_sum_from<T: CellType>(
    s: Seq<Instruction<T>>,
    f: spec_fn(Instruction<T>) -> int,
    i: int,
)
    requires
        0 <= i < s.len(),
    ensures
        sum_of(s.skip(i), f) == f(s[i]) + sum_of(s.skip(i + 1), f),
{
    lemma_sum_remove(s.skip(i), f, 0);
    assert(s.skip(i).remove(0) =~= s.skip(i + 1));
}

/// A sum does not depend on the order of the instructions.
pub proof fn lemma_sum_permutation<T: CellType>(
    a: Seq<Instruction<T>>,
    b: Seq<Instruction<T>>,
    f: spec_fn(Instruction<T>) -> int,
)
    requires
        a.to_multiset() == b.to_multiset(),
    ensures
        sum_of(a, f) == sum_of(b, f),
    decreases a.len(),
{
    a.to_multiset_ensures();
    b.to_multiset_ensures();
    if a.len() == 0 {
        assert(b.len() == 0);
    } else {
        let x = a.last();
        let a1 = a.drop_last();
        a1.to_multiset_ensures();
        assert(a =~= a1.push(x));
        assert(a.to_multiset().count(x) > 0);
        assert(b.contains(x));
        let j = choose|j: int| 0 <= j < b.len() && b[j] == x;
        let b1 = b.remove(j);
        assert(a1.to_multiset() =~= b1.to_multiset());
        lemma_sum_permutation(a1, b1, f);
        lemma_sum_remove(b, f, j);
    }
}

/// By how much an instruction changes the current cell, where it is an
/// increment or a decrement.
pub open spec fn cell_change<T: CellType>(instruction: Instruction<T>) -> int {
    match instruction {
        Instruction::Inc(by) => by.value(),
        Instruction::Dec(by) => -by.value(),
        _ => 0,
    }
}

/// By how far an instruction moves the pointer to the right.
pub open spec fn pointer_change<T: CellType>(instruction: Instruction<T>) -> int {
    match instruction {
        Instruction::IncPtr(by) => by.value(),
        Instruction::DecPtr(by) => -by.value(),
        _ => 0,
    }
}

/// The amount that an instruction holds.
pub open spec fn magnitude<T: CellType>(instruction: Instruction<T>) -> int {
    match instruction {
        Instruction::Inc(by) => by.value(),
        Instruction::Dec(by) => by.value(),
        Instruction::IncPtr(by) => by.value(),
        Instruction::DecPtr(by) => by.value(),
        _ => 0,
    }
}

/// An increment or a decrement by an amount that is not zero.
pub open spec fn is_cell_change<T: CellType>(instruction: Instruction<T>) -> bool {
    (instruction is Inc || instruction is Dec) && 0 < magnitude(instruction) < T::modulus()
}

/// A move of the pointer by an amount that is not zero.
pub open spec fn is_pointer_change<T: CellType>(instruction: Instruction<T>) -> bool {
    (instruction is IncPtr || instruction is DecPtr) && 0 < magnitude(instruction) <= u32::MAX
}

/// Nothing but increments and decrements.
pub open spec fn is_cell_run<T: CellType>(s: Seq<Instruction<T>>) -> bool {
    forall|k: int| 0 <= k < s.len() ==> is_cell_change(#[trigger] s[k])
}

/// Nothing but moves of the pointer.
pub open spec fn is_pointer_run<T: CellType>(s: Seq<Instruction<T>>) -> bool {
    forall|k: int| 0 <= k < s.len() ==> is_pointer_change(#[trigger] s[k])
}

/// By how much the instructions of `s` change the current cell in all.
pub open spec fn net_cell_change<T: CellType>(s: Seq<Instruction<T>>) -> int {
    sum_of(s, |i: Instruction<T>| cell_change(i))
}

/// By how far the instructions of `s` move the pointer to the right in all.
pub open spec fn net_pointer_change<T: CellType>(s: Seq<Instruction<T>>) -> int {
    sum_of(s, |i: Instruction<T>| pointer_change(i))
}

/// The amount by which an instruction raises the cell or moves the
/// pointer to the right.
pub open spec fn raised<T: CellType>(instruction: Instruction<T>) -> int {
    match instruction {
        Instruction::Inc(by) => by.value(),
        Instruction::IncPtr(by) => by.value(),
        _ => 0,
    }
}

/// The amount by which an instruction lowers the cell or moves the
/// pointer to the left.
pub open spec fn lowered<T: CellType>(instruction: Instruction<T>) -> int {
    match instruction {
        Instruction::Dec(by) => by.value(),
        Instruction::DecPtr(by) => by.value(),
        _ => 0,
    }
}

/// The sum of the amounts of the increments of `s`, or of its moves to the
/// right.
pub open spec fn total_raised<T: CellType>(s: Seq<Instruction<T>>) -> int {
    sum_of(s, |i: Instruction<T>| raised(i))
}

/// The sum of the amounts of the decrements of `s`, or of its moves to the
/// left.
pub open spec fn total_lowered<T: CellType>(s: Seq<Instruction<T>>) -> int {
    sum_of(s, |i: Instruction<T>| lowered(i))
}

/// The one instruction, or none, that changes the current cell by `net`.
pub open spec fn one_cell_change<T: CellType>(net: int) -> Seq<Instruction<T>> {
    if net > 0 {
        seq![Instruction::Inc(amount(net))]
    } else if net < 0 {
        seq![Instruction::Dec(amount(-net))]
    } else {
        Seq::empty()
    }
}

/// The one instruction, or none, that moves the pointer by `net`.
pub open spec fn one_pointer_change<T: CellType>(net: int) -> Seq<Instruction<T>> {
    if net > 0 {
        seq![Instruction::IncPtr(amount(net))]
    } else if net < 0 {
        seq![Instruction::DecPtr(amount(-net))]
    } else {
        Seq::empty()
    }
}

/// What has been folded so far, as a sequence.
pub open spec fn pending<T: CellType>(current: Option<Instruction<T>>) -> Seq<Instruction<T>> {
    match current {
        Some(instruction) => seq![instruction],
        None => Seq::empty(),
    }
}

/// The two totals of a run are never negative, and the net change of the
/// run is what it raises less what it lowers.
pub proof fn lemma_totals<T: CellType>(s: Seq<Instruction<T>>)
    requires
        is_cell_run(s) || is_pointer_run(s),
    ensures
        total_raised(s) >= 0,
        total_lowered(s) >= 0,
        is_cell_run(s) ==> net_cell_change(s) == total_raised(s) - total_lowered(s),
        is_pointer_run(s) ==> net_pointer_change(s) == total_raised(s) - total_lowered(s),
    decreases s.len(),
{
    if s.len() > 0 {
        assert(is_cell_change(s.last()) || is_pointer_change(s.last()));
        assert forall|k: int| 0 <= k < s.drop_last().len() implies (is_cell_run(s)
            ==> is_cell_change(#[trigger] s.drop_last()[k])) && (is_pointer_run(s)
            ==> is_pointer_change(s.drop_last()[k])) by {
            assert(s.drop_last()[k] == s[k]);
        }
        lemma_totals(s.drop_last());
    }
}

/// Folding a run of increments and decrements leaves the one instruction
/// that changes the cell by their net sum, or nothing where that is zero,
/// where neither the increments nor the decrements add up to more than a
/// cell can hold.
pub proof fn lemma_cell_run_folds<T: CellType>(
    s: Seq<Instruction<T>>,
    i: int,
    current: Option<Instruction<T>>,
)
    requires
        0 <= i <= s.len(),
        is_cell_run(s.skip(i)),
        is_cell_run(pending(current)),
        total_raised(pending(current)) + total_raised(s.skip(i)) < T::modulus(),
        total_lowered(pending(current)) + total_lowered(s.skip(i)) < T::modulus(),
    ensures
        folded_from(s, i, current) == one_cell_change::<T>(
            net_cell_change(pending(current)) + net_cell_change(s.skip(i)),
        ),
    decreases s.len() - i,
{
    let change = |i: Instruction<T>| cell_change(i);
    let up = |i: Instruction<T>| raised(i);
    let down = |i: Instruction<T>| lowered(i);
    reveal_with_fuel(sum_of, 2);
    assert(pending(current).len() > 0 ==> pending(current).drop_last() =~= Seq::empty());
    if i >= s.len() {
        assert(s.skip(i) =~= Seq::empty());
        match current {
            Some(last) => {
                assert(is_cell_change(pending(current)[0]));
                match last {
                    Instruction::Inc(by) => lemma_amount_of(by),
                    Instruction::Dec(by) => lemma_amount_of(by),
                    _ => {},
                }
            },
            None => {},
        }
    } else {
        lemma_sum_from(s, change, i);
        lemma_sum_from(s, up, i);
        lemma_sum_from(s, down, i);
        assert(is_cell_change(s.skip(i)[0]));
        assert forall|k: int| 0 <= k < s.skip(i + 1).len() implies is_cell_change(
            #[trigger] s.skip(i + 1)[k],
        ) by {
            assert(s.skip(i + 1)[k] == s.skip(i)[k + 1]);
        }
        lemma_totals(s.skip(i + 1));
        match current {
            None => {
                assert(pending(Some(s[i]))[0] == s[i]);
                lemma_cell_run_folds(s, i + 1, Some(s[i]));
            },
            Some(before) => {
                assert(is_cell_change(pending(current)[0]));
                let net = cell_change(before) + cell_change(s[i]);
                T::lemma_modulus();
                if net != 0 {
                    lemma_amount_value::<T>(if net > 0 {
                        net
                    } else {
                        -net
                    });
                }
                if (before is Inc) == (s[i] is Inc) {
                    lemma_small_mod(
                        (magnitude(before) + magnitude(s[i])) as nat,
                        T::modulus() as nat,
                    );
                }
                match before.folded_with(s[i]) {
                    FoldResult::Folded(both) => {
                        assert(pending(Some(both))[0] == both);
                        assert(cell_change(both) == net);
                        lemma_cell_run_folds(s, i + 1, Some(both));
                    },
                    FoldResult::NoOp => {
                        assert(net == 0);
                        lemma_cell_run_folds(s, i + 1, None);
                    },
                    FoldResult::CantFold => {
                        assert(false);
                    },
                }
            },
        }
    }
}

/// Folding a run of pointer moves leaves the one instruction that moves
/// the pointer by their net sum, or nothing where that is zero, where
/// neither the moves to the right nor the moves to the left add up to more
/// than 32 bits hold.
pub proof fn lemma_pointer_run_folds<T: CellType>(
    s: Seq<Instruction<T>>,
    i: int,
    current: Option<Instruction<T>>,
)
    requires
        0 <= i <= s.len(),
        is_pointer_run(s.skip(i)),
        is_pointer_run(pending(current)),
        total_raised(pending(current)) + total_raised(s.skip(i)) <= u32::MAX,
        total_lowered(pending(current)) + total_lowered(s.skip(i)) <= u32::MAX,
    ensures
        folded_from(s, i, current) == one_pointer_change::<T>(
            net_pointer_change(pending(current)) + net_pointer_change(s.skip(i)),
        ),
    decreases s.len() - i,
{
    let change = |i: Instruction<T>| pointer_change(i);
    let up = |i: Instruction<T>| raised(i);
    let down = |i: Instruction<T>| lowered(i);
    reveal_with_fuel(sum_of, 2);
    assert(pending(current).len() > 0 ==> pending(current).drop_last() =~= Seq::empty());
    if i >= s.len() {
        assert(s.skip(i) =~= Seq::empty());
        match current {
            Some(last) => {
                assert(is_pointer_change(pending(current)[0]));
                match last {
                    Instruction::IncPtr(by) => lemma_amount_of(by),
                    Instruction::DecPtr(by) => lemma_amount_of(by),
                    _ => {},
                }
            },
            None => {},
        }
    } else {
        lemma_sum_from(s, change, i);
        lemma_sum_from(s, up, i);
        lemma_sum_from(s, down, i);
        assert(is_pointer_change(s.skip(i)[0]));
        assert forall|k: int| 0 <= k < s.skip(i + 1).len() implies is_pointer_change(
            #[trigger] s.skip(i + 1)[k],
        ) by {
            assert(s.skip(i + 1)[k] == s.skip(i)[k + 1]);
        }
        lemma_totals(s.skip(i + 1));
        match current {
            None => {
                assert(pending(Some(s[i]))[0] == s[i]);
                lemma_pointer_run_folds(s, i + 1, Some(s[i]));
            },
            Some(before) => {
                assert(is_pointer_change(pending(current)[0]));
                let net = pointer_change(before) + pointer_change(s[i]);
                if net != 0 {
                    lemma_amount_value::<u32>(if net > 0 {
                        net
                    } else {
                        -net
                    });
                }
                match before.folded_with(s[i]) {
                    FoldResult::Folded(both) => {
                        assert(pending(Some(both))[0] == both);
                        assert(pointer_change(both) == net);
                        lemma_pointer_run_folds(s, i + 1, Some(both));
                    },
                    FoldResult::NoOp => {
                        assert(net == 0);
                        lemma_pointer_run_folds(s, i + 1, None);
                    },
                    FoldResult::CantFold => {
                        assert(false);
                    },
                }
            },
        }
    }
}

/// What holds of every instruction of a sequence holds of every
/// instruction of a sequence with the same instructions in another order.
pub proof fn lemma_same_members<T: CellType>(
    a: Seq<Instruction<T>>,
    b: Seq<Instruction<T>>,
    k: int,
) -> (j: int)
    requires
        a.to_multiset() == b.to_multiset(),
        0 <= k < b.len(),
    ensures
        0 <= j < a.len(),
        a[j] == b[k],
{
    a.to_multiset_ensures();
    b.to_multiset_ensures();
    assert(b.contains(b[k]));
    assert(b.to_multiset().count(b[k]) > 0);
    assert(a.to_multiset().count(b[k]) > 0);
    assert(a.contains(b[k]));
    choose|j: int| 0 <= j < a.len() && a[j] == b[k]
}

/// Folding does not depend on the order of the instructions in a run of
/// increments and decrements, where neither the increments nor the
/// decrements add up to more than a cell can hold: two runs with the same
/// instructions fold to the same one instruction, or both to nothing. It is
/// the increment by what the increments add up to less what the decrements
/// add up to, or the decrement by as much the other way round.
pub proof fn lemma_cell_run_order<T: CellType>(a: Seq<Instruction<T>>, b: Seq<Instruction<T>>)
    requires
        is_cell_run(a),
        a.to_multiset() == b.to_multiset(),
        total_raised(a) < T::modulus(),
        total_lowered(a) < T::modulus(),
    ensures
        folded(a) == folded(b),
        folded(a) == one_cell_change::<T>(total_raised(a) - total_lowered(a)),
        folded(a) == one_cell_change::<T>(net_cell_change(a)),
        folded(a).len() <= 1,
{
    lemma_totals(a);
    assert forall|k: int| 0 <= k < b.len() implies is_cell_change(#[trigger] b[k]) by {
        let j = lemma_same_members(a, b, k);
        assert(is_cell_change(a[j]));
    }
    lemma_sum_permutation(a, b, |i: Instruction<T>| cell_change(i));
    lemma_sum_permutation(a, b, |i: Instruction<T>| raised(i));
    lemma_sum_permutation(a, b, |i: Instruction<T>| lowered(i));
    assert(a.skip(0) =~= a);
    assert(b.skip(0) =~= b);
    lemma_cell_run_folds(a, 0, None);
    lemma_cell_run_folds(b, 0, None);
}

/// Folding does not depend on the order of the instructions in a run of
/// pointer moves, where neither the moves to the right nor the moves to
/// the left add up to more than 32 bits hold: two runs with the same
/// instructions fold to the same one instruction, or both to nothing.
pub proof fn lemma_pointer_run_order<T: CellType>(a: Seq<Instruction<T>>, b: Seq<Instruction<T>>)
    requires
        is_pointer_run(a),
        a.to_multiset() == b.to_multiset(),
        total_raised(a) <= u32::MAX,
        total_lowered(a) <= u32::MAX,
    ensures
        folded(a) == folded(b),
        folded(a) == one_pointer_change::<T>(total_raised(a) - total_lowered(a)),
        folded(a) == one_pointer_change::<T>(net_pointer_change(a)),
        folded(a).len() <= 1,
{
    lemma_totals(a);
    assert forall|k: int| 0 <= k < b.len() implies is_pointer_change(#[trigger] b[k]) by {
        let j = lemma_same_members(a, b, k);
        assert(is_pointer_change(a[j]));
    }
    lemma_sum_permutation(a, b, |i: Instruction<T>| pointer_change(i));
    lemma_sum_permutation(a, b, |i: Instruction<T>| raised(i));
    lemma_sum_permutation(a, b, |i: Instruction<T>| lowered(i));
    assert(a.skip(0) =~= a);
    assert(b.skip(0) =~= b);
    lemma_pointer_run_folds(a, 0, None);
    lemma_pointer_run_folds(b, 0, None);
}

/// The difference and the sum of two multiples of `m` are multiples of `m`.
proof fn lemma_multiples(x: int, y: int, m: int)
    requires
        m > 0,
        x % m == 0,
        y % m == 0,
    ensures
        (x - y) % m == 0,
        (x + y) % m == 0,
{
    lemma_sub_mod_noop(x, y, m);
    lemma_add_mod_noop(x, y, m);
    lemma_small_mod(0, m as nat);
}

/// A number and what is left of it after division by `m` are a multiple
/// of `m` apart.
proof fn lemma_rest_apart(x: int, m: int)
    requires
        m > 0,
    ensures
        (x - x % m) % m == 0,
{
    lemma_sub_mod_noop_right(x, x, m);
    lemma_small_mod(0, m as nat);
}

/// Folding a run of increments and decrements leaves at most one of them,
/// which changes the cell as the whole run does: by the same amount, up to
/// a multiple of the number of values that a cell can hold.
pub proof fn lemma_cell_run_effect<T: CellType>(
    s: Seq<Instruction<T>>,
    i: int,
    current: Option<Instruction<T>>,
)
    requires
        0 <= i <= s.len(),
        is_cell_run(s.skip(i)),
        is_cell_run(pending(current)),
    ensures
        folded_from(s, i, current).len() <= 1,
        is_cell_run(folded_from(s, i, current)),
        (net_cell_change(folded_from(s, i, current)) - (net_cell_change(pending(current))
            + net_cell_change(s.skip(i)))) % T::modulus() == 0,
    decreases s.len() - i,
{
    let change = |i: Instruction<T>| cell_change(i);
    let m = T::modulus();
    T::lemma_modulus();
    lemma_small_mod(0, m as nat);
    reveal_with_fuel(sum_of, 2);
    assert(pending(current).len() > 0 ==> pending(current).drop_last() =~= Seq::empty());
    if i >= s.len() {
        assert(s.skip(i) =~= Seq::empty());
    } else {
        lemma_sum_from(s, change, i);
        assert(is_cell_change(s.skip(i)[0]));
        assert forall|k: int| 0 <= k < s.skip(i + 1).len() implies is_cell_change(
            #[trigger] s.skip(i + 1)[k],
        ) by {
            assert(s.skip(i + 1)[k] == s.skip(i)[k + 1]);
        }
        match current {
            None => {
                assert(pending(Some(s[i]))[0] == s[i]);
                assert(pending(Some(s[i])).drop_last() =~= Seq::empty());
                lemma_cell_run_effect(s, i + 1, Some(s[i]));
            },
            Some(before) => {
                assert(is_cell_change(pending(current)[0]));
                let net = cell_change(before) + cell_change(s[i]);
                let rest = net_cell_change(s.skip(i + 1));
                match before.folded_with(s[i]) {
                    FoldResult::Folded(both) => {
                        lemma_mod_bound(magnitude(before) + magnitude(s[i]), m);
                        if -m < net < m {
                            lemma_amount_value::<T>(
                                if net > 0 {
                                    net
                                } else {
                                    -net
                                },
                            );
                        }
                        lemma_amount_value::<T>((magnitude(before) + magnitude(s[i])) % m);
                        assert(pending(Some(both))[0] == both);
                        assert(pending(Some(both)).drop_last() =~= Seq::empty());
                        lemma_cell_run_effect(s, i + 1, Some(both));
                        let result = net_cell_change(folded_from(s, i + 1, Some(both)));
                        lemma_rest_apart(magnitude(before) + magnitude(s[i]), m);
                        assert((net - cell_change(both)) % m == 0) by {
                            if net != cell_change(both) {
                                let sum = magnitude(before) + magnitude(s[i]);
                                if before is Inc {
                                    assert(net - cell_change(both) == sum - sum % m);
                                } else {
                                    assert(cell_change(both) - net == sum - sum % m);
                                    lemma_multiples(0, cell_change(both) - net, m);
                                }
                            }
                        }
                        lemma_multiples(result - cell_change(both) - rest, net - cell_change(both), m);
                        assert(result - cell_change(both) - rest - (net - cell_change(both))
                            == result - (net + rest));
                    },
                    FoldResult::NoOp => {
                        assert(pending(None::<Instruction<T>>) =~= Seq::empty());
                        lemma_cell_run_effect(s, i + 1, None);
                        let result = net_cell_change(folded_from(s, i + 1, None));
                        assert(net % m == 0) by {
                            if net != 0 {
                                let sum = magnitude(before) + magnitude(s[i]);
                                if before is Inc {
                                    assert(net == sum);
                                } else {
                                    assert(-net == sum);
                                    lemma_multiples(0, sum, m);
                                }
                            }
                        }
                        lemma_multiples(result - rest, net, m);
                        assert(result - rest - net == result - (net + rest));
                    },
                    FoldResult::CantFold => {
                        assert(false);
                    },
                }
            },
        }
    }
}

/// Folding changes the cell in the same way whatever the order of the
/// instructions in a run of increments and decrements: two runs with the
/// same instructions fold to at most one instruction each, and the two
/// change the cell by the same amount, up to a multiple of the number of
/// values that a cell can hold.
pub proof fn lemma_cell_run_same_effect<T: CellType>(a: Seq<Instruction<T>>, b: Seq<Instruction<T>>)
    requires
        is_cell_run(a),
        a.to_multiset() == b.to_multiset(),
    ensures
        folded(a).len() <= 1,
        folded(b).len() <= 1,
        (net_cell_change(folded(a)) - net_cell_change(folded(b))) % T::modulus() == 0,
{
    assert forall|k: int| 0 <= k < b.len() implies is_cell_change(#[trigger] b[k]) by {
        let j = lemma_same_members(a, b, k);
        assert(is_cell_change(a[j]));
    }
    lemma_sum_permutation(a, b, |i: Instruction<T>| cell_change(i));
    assert(a.skip(0) =~= a);
    assert(b.skip(0) =~= b);
    reveal_with_fuel(sum_of, 1);
    lemma_cell_run_effect(a, 0, None);
    lemma_cell_run_effect(b, 0, None);
    T::lemma_modulus();
    lemma_multiples(
        net_cell_change(folded(a)) - net_cell_change(a),
        net_cell_change(folded(b)) - net_cell_change(b),
        T::modulus(),
    );
}

/// Folding a run of pointer moves leaves moves that take the pointer as
/// far as the whole run does.
pub proof fn lemma_pointer_run_effect<T: CellType>(
    s: Seq<Instruction<T>>,
    i: int,
    current: Option<Instruction<T>>,
)
    requires
        0 <= i <= s.len(),
        is_pointer_run(s.skip(i)),
        is_pointer_run(pending(current)),
    ensures
        net_pointer_change(folded_from(s, i, current)) == net_pointer_change(pending(current))
            + net_pointer_change(s.skip(i)),
    decreases s.len() - i,
{
    let change = |i: Instruction<T>| pointer_change(i);
    reveal_with_fuel(sum_of, 2);
    assert(pending(current).len() > 0 ==> pending(current).drop_last() =~= Seq::empty());
    if i >= s.len() {
        assert(s.skip(i) =~= Seq::empty());
    } else {
        lemma_sum_from(s, change, i);
        assert(is_pointer_change(s.skip(i)[0]));
        assert forall|k: int| 0 <= k < s.skip(i + 1).len() implies is_pointer_change(
            #[trigger] s.skip(i + 1)[k],
        ) by {
            assert(s.skip(i + 1)[k] == s.skip(i)[k + 1]);
        }
        assert(pending(Some(s[i]))[0] == s[i]);
        assert(pending(Some(s[i])).drop_last() =~= Seq::empty());
        match current {
            None => {
                lemma_pointer_run_effect(s, i + 1, Some(s[i]));
            },
            Some(before) => {
                assert(is_pointer_change(pending(current)[0]));
                let net = pointer_change(before) + pointer_change(s[i]);
                match before.folded_with(s[i]) {
                    FoldResult::Folded(both) => {
                        lemma_amount_value::<u32>(
                            if net > 0 {
                                net
                            } else {
                                -net
                            },
                        );
                        assert(pending(Some(both))[0] == both);
                        assert(pending(Some(both)).drop_last() =~= Seq::empty());
                        lemma_pointer_run_effect(s, i + 1, Some(both));
                    },
                    FoldResult::NoOp => {
                        assert(pending(None::<Instruction<T>>) =~= Seq::empty());
                        lemma_pointer_run_effect(s, i + 1, None);
                    },
                    FoldResult::CantFold => {
                        lemma_pointer_run_effect(s, i + 1, Some(s[i]));
                        let rest = folded_from(s, i + 1, Some(s[i]));
                        lemma_sum_remove(seq![before] + rest, change, 0);
                        assert((seq![before] + rest).remove(0) =~= rest);
                    },
                }
            },
        }
    }
}

/// Folding moves the pointer as far whatever the order of the moves in a
/// run of pointer moves: what two runs with the same moves fold to takes
/// the pointer equally far.
pub proof fn lemma_pointer_run_same_effect<T: CellType>(
    a: Seq<Instruction<T>>,
    b: Seq<Instruction<T>>,
)
    requires
        is_pointer_run(a),
        a.to_multiset() == b.to_multiset(),
    ensures
        net_pointer_change(folded(a)) == net_pointer_change(folded(b)),
{
    assert forall|k: int| 0 <= k < b.len() implies is_pointer_change(#[trigger] b[k]) by {
        let j = lemma_same_members(a, b, k);
        assert(is_pointer_change(a[j]));
    }
    lemma_sum_permutation(a, b, |i: Instruction<T>| pointer_change(i));
    assert(a.skip(0) =~= a);
    assert(b.skip(0) =~= b);
    reveal_with_fuel(sum_of, 1);
    lemma_pointer_run_effect(a, 0, None);
    lemma_pointer_run_effect(b, 0, None);
}

} // verus!
