//! What single instructions do to a machine, and why folding two of them
//! keeps what they do.

use vstd::prelude::*;
use vstd::arithmetic::div_mod::{
    lemma_add_mod_noop, lemma_add_mod_noop_right, lemma_mod_bound, lemma_small_mod,
    lemma_sub_mod_noop, lemma_sub_mod_noop_right,
};
use crate::cell_type::{amount, lemma_amount_value, CellType, Sealed};
use crate::compile::optimize::FoldResult;
use crate::instruction::Instruction;
use crate::interpret::Machine;

verus! {

/// An instruction that changes the current cell and nothing else.
pub open spec fn is_cell_op<T: CellType>(instruction: Instruction<T>) -> bool {
    instruction is SetCell || instruction is Inc || instruction is Dec
}

/// An instruction that moves the cursor and does nothing else.
pub open spec fn is_move<T: CellType>(instruction: Instruction<T>) -> bool {
    instruction is IncPtr || instruction is DecPtr
}

/// An instruction that works on the machine alone and never jumps: the
/// kinds that folding combines.
pub open spec fn is_plain<T: CellType>(instruction: Instruction<T>) -> bool {
    is_cell_op(instruction) || is_move(instruction)
}

/// The value of the current cell after `instruction`, where it was `v`.
pub open spec fn cell_after<T: CellType>(instruction: Instruction<T>, v: int) -> int {
    match instruction {
        Instruction::SetCell(value) => value.value(),
        Instruction::Inc(by) => (v + by.value()) % T::modulus(),
        Instruction::Dec(by) => (v - by.value()) % T::modulus(),
        _ => v,
    }
}

/// Where the cursor is after `instruction`, where it was at `cursor`.
pub open spec fn cursor_after<T: CellType>(instruction: Instruction<T>, cursor: int) -> int {
    match instruction {
        Instruction::IncPtr(by) => cursor + by.value(),
        Instruction::DecPtr(by) => cursor - by.value(),
        _ => cursor,
    }
}

/// The cells and the cursor after a plain instruction, or `None` where it
/// would move the cursor out of the data array. The budget is left as it is.
#[verifier::opaque]
pub open spec fn acted<T: CellType>(m: Machine<T>, instruction: Instruction<T>) -> Option<
    Machine<T>,
> {
    if is_cell_op(instruction) {
        Some(m.with_current(T::from_value(cell_after(instruction, m.current()))))
    } else if is_move(instruction) {
        let cursor = cursor_after(instruction, m.cursor);
        if 0 <= cursor < m.cells.len() {
            Some(m.with_cursor(cursor))
        } else {
            None
        }
    } else {
        None
    }
}

/// `((v mod m) + a) mod m` is `(v + a) mod m`.
pub proof fn lemma_add_wraps(v: int, a: int, m: int)
    requires
        m > 0,
    ensures
        ((v % m) + a) % m == (v + a) % m,
        (v + (a % m)) % m == (v + a) % m,
{
    lemma_add_mod_noop(v, a, m);
    lemma_add_mod_noop_right(v % m, a, m);
    lemma_add_mod_noop_right(v, a, m);
}

/// `((v mod m) - a) mod m` is `(v - a) mod m`.
pub proof fn lemma_sub_wraps(v: int, a: int, m: int)
    requires
        m > 0,
    ensures
        ((v % m) - a) % m == (v - a) % m,
        (v - (a % m)) % m == (v - a) % m,
{
    lemma_sub_mod_noop(v, a, m);
    lemma_sub_mod_noop_right(v % m, a, m);
    lemma_sub_mod_noop_right(v, a, m);
}

/// The amount that a fold computes holds the value it was computed from.
proof fn lemma_sum_amount<T: CellType>(v: int)
    ensures
        amount::<T>(v % T::modulus()).value() == v % T::modulus(),
{
    T::lemma_modulus();
    lemma_mod_bound(v, T::modulus());
    lemma_amount_value::<T>(v % T::modulus());
}

/// Two increments that fold do together what the fold does.
proof fn lemma_fold_inc_inc<T: CellType>(first: Instruction<T>, second: Instruction<T>, v: int)
    requires
        first is Inc,
        second is Inc,
    ensures
        first.folded_with(second) matches FoldResult::Folded(both)
            ==> is_cell_op(both) && cell_after(both, v) == cell_after(second, cell_after(first, v)),
        first.folded_with(second) is NoOp ==> cell_after(second, cell_after(first, v)) == v % T::modulus(),
        !(first.folded_with(second) is CantFold),
{
    let m = T::modulus();
    T::lemma_modulus();
    let a = first->Inc_0.value();
    let b = second->Inc_0.value();
    lemma_sum_amount::<T>(a + b);
    lemma_add_wraps(v + a, b, m);
    lemma_add_wraps(v, a + b, m);
    if (a + b) % m == 0 {
        assert((v + (a + b) % m) % m == v % m);
    }
}

/// Two decrements that fold do together what the fold does.
proof fn lemma_fold_dec_dec<T: CellType>(first: Instruction<T>, second: Instruction<T>, v: int)
    requires
        first is Dec,
        second is Dec,
    ensures
        first.folded_with(second) matches FoldResult::Folded(both)
            ==> is_cell_op(both) && cell_after(both, v) == cell_after(second, cell_after(first, v)),
        first.folded_with(second) is NoOp ==> cell_after(second, cell_after(first, v)) == v % T::modulus(),
        !(first.folded_with(second) is CantFold),
{
    let m = T::modulus();
    T::lemma_modulus();
    let a = first->Dec_0.value();
    let b = second->Dec_0.value();
    lemma_sum_amount::<T>(a + b);
    lemma_sub_wraps(v - a, b, m);
    lemma_sub_wraps(v, a + b, m);
    if (a + b) % m == 0 {
        assert((v - (a + b) % m) % m == v % m);
    }
}

/// An increment and a decrement, in either order, do together what their
/// fold does.
proof fn lemma_fold_opposite<T: CellType>(first: Instruction<T>, second: Instruction<T>, v: int)
    requires
        (first is Inc && second is Dec) || (first is Dec && second is Inc),
    ensures
        first.folded_with(second) matches FoldResult::Folded(both)
            ==> is_cell_op(both) && cell_after(both, v) == cell_after(second, cell_after(first, v)),
        first.folded_with(second) is NoOp ==> cell_after(second, cell_after(first, v)) == v % T::modulus(),
        !(first.folded_with(second) is CantFold),
{
    let m = T::modulus();
    T::lemma_modulus();
    let add = if first is Inc {
        first->Inc_0
    } else {
        second->Inc_0
    };
    let sub = if first is Dec {
        first->Dec_0
    } else {
        second->Dec_0
    };
    add.cell().lemma_value_range();
    sub.cell().lemma_value_range();
    let net = add.value() - sub.value();
    if net > 0 {
        lemma_amount_value::<T>(net);
    } else if net < 0 {
        lemma_amount_value::<T>(-net);
    }
    if first is Inc {
        lemma_sub_wraps(v + add.value(), sub.value(), m);
    } else {
        lemma_add_wraps(v - sub.value(), add.value(), m);
    }
    assert(v + add.value() - sub.value() == v + net);
    assert(v - sub.value() + add.value() == v + net);
    assert(v - (-net) == v + net);
}

/// A cell operation and an assignment, in either order, do together what
/// their fold does.
proof fn lemma_fold_set<T: CellType>(first: Instruction<T>, second: Instruction<T>, v: int)
    requires
        is_cell_op(first),
        is_cell_op(second),
        first is SetCell || second is SetCell,
    ensures
        first.folded_with(second) matches FoldResult::Folded(both)
            && is_cell_op(both) && cell_after(both, v) == cell_after(second, cell_after(first, v)),
{
    let m = T::modulus();
    T::lemma_modulus();
    if second is SetCell {
    } else {
        let start = first->SetCell_0.value();
        first->SetCell_0.lemma_value_range();
        match second {
            Instruction::Inc(by) => {
                lemma_mod_bound(start + by.value(), m);
                T::lemma_value_of((start + by.value()) % m);
            },
            Instruction::Dec(by) => {
                lemma_mod_bound(start - by.value(), m);
                T::lemma_value_of((start - by.value()) % m);
            },
            _ => {},
        }
    }
}

/// Two cell operations that fold do together to a cell that holds `v` what
/// the fold does, and two that cancel leave it as it was.
pub proof fn lemma_fold_cell_ops<T: CellType>(
    first: Instruction<T>,
    second: Instruction<T>,
    v: int,
)
    requires
        is_cell_op(first),
        is_cell_op(second),
        0 <= v < T::modulus(),
    ensures
        first.folded_with(second) matches FoldResult::Folded(both)
            ==> is_cell_op(both) && cell_after(both, v) == cell_after(second, cell_after(first, v)),
        first.folded_with(second) is NoOp ==> cell_after(second, cell_after(first, v)) == v,
        !(first.folded_with(second) is CantFold),
{
    lemma_small_mod(v as nat, T::modulus() as nat);
    if first is SetCell || second is SetCell {
        lemma_fold_set(first, second, v);
    } else if first is Inc && second is Inc {
        lemma_fold_inc_inc(first, second, v);
    } else if first is Dec && second is Dec {
        lemma_fold_dec_dec(first, second, v);
    } else {
        lemma_fold_opposite(first, second, v);
    }
}

/// Two moves that fold move the cursor together as far as the fold does,
/// and two that cancel leave it where it was.
pub proof fn lemma_fold_moves<T: CellType>(
    first: Instruction<T>,
    second: Instruction<T>,
    cursor: int,
)
    requires
        is_move(first),
        is_move(second),
    ensures
        first.folded_with(second) matches FoldResult::Folded(both)
            ==> is_move(both) && cursor_after(both, cursor) == cursor_after(
            second,
            cursor_after(first, cursor),
        ),
        first.folded_with(second) is NoOp ==> cursor_after(second, cursor_after(first, cursor))
            == cursor,
{
    let a = match first {
        Instruction::IncPtr(by) => by,
        Instruction::DecPtr(by) => by,
        _ => arbitrary(),
    };
    let b = match second {
        Instruction::IncPtr(by) => by,
        Instruction::DecPtr(by) => by,
        _ => arbitrary(),
    };
    a.cell().lemma_value_range();
    b.cell().lemma_value_range();
    let net = cursor_after(second, cursor_after(first, 0));
    if 0 < net <= u32::MAX {
        lemma_amount_value::<u32>(net);
    } else if 0 < -net <= u32::MAX {
        lemma_amount_value::<u32>(-net);
    }
}

/// A cell operation and a move never fold.
pub proof fn lemma_mixed_never_fold<T: CellType>(first: Instruction<T>, second: Instruction<T>)
    requires
        !(is_cell_op(first) && is_cell_op(second)),
        !(is_move(first) && is_move(second)),
    ensures
        first.folded_with(second) is CantFold,
{
}

/// What a machine holds, whatever is left of its budget.
pub open spec fn same_memory<T: CellType>(a: Machine<T>, b: Machine<T>) -> bool {
    a.cells == b.cells && a.cursor == b.cursor
}

/// What a plain instruction does depends on the cells and the cursor only.
pub proof fn lemma_acted_same<T: CellType>(a: Machine<T>, b: Machine<T>, instruction: Instruction<T>)
    requires
        same_memory(a, b),
    ensures
        acted(a, instruction) is Some <==> acted(b, instruction) is Some,
        acted(a, instruction) is Some ==> same_memory(
            acted(a, instruction).unwrap(),
            acted(b, instruction).unwrap(),
        ),
{
    reveal(acted);
}

/// A plain instruction keeps the cursor inside the data array and the
/// budget as it is.
pub proof fn lemma_acted_in_bounds<T: CellType>(m: Machine<T>, instruction: Instruction<T>)
    requires
        m.in_bounds(),
        acted(m, instruction) is Some,
    ensures
        acted(m, instruction).unwrap().in_bounds(),
        acted(m, instruction).unwrap().cells.len() == m.cells.len(),
        acted(m, instruction).unwrap().budget == m.budget,
{
    reveal(acted);
}

/// Two instructions that fold into one do together what that one does,
/// and two that cancel each other leave the cells and the cursor as they
/// were.
pub proof fn lemma_folded_acts<T: CellType>(
    m: Machine<T>,
    first: Instruction<T>,
    second: Instruction<T>,
)
    requires
        m.in_bounds(),
        acted(m, first) is Some,
        acted(acted(m, first).unwrap(), second) is Some,
    ensures
        first.folded_with(second) matches FoldResult::Folded(both)
            ==> is_plain(both) && acted(m, both) == acted(acted(m, first).unwrap(), second),
        first.folded_with(second) is NoOp ==> acted(acted(m, first).unwrap(), second).unwrap()
            == m,
{
    reveal(acted);
    let m1 = acted(m, first).unwrap();
    let m2 = acted(m1, second).unwrap();
    let v = m.current();
    m.cells[m.cursor].lemma_value_range();
    m.cells[m.cursor].lemma_from_value();
    if is_cell_op(first) && is_cell_op(second) {
        lemma_fold_cell_ops(first, second, v);
        T::lemma_modulus();
        if first is SetCell {
            first->SetCell_0.lemma_value_range();
        } else {
            lemma_mod_bound(
                if first is Inc {
                    v + first->Inc_0.value()
                } else {
                    v - first->Dec_0.value()
                },
                T::modulus(),
            );
        }
        T::lemma_value_of(cell_after(first, v));
        assert(m1.current() == cell_after(first, v));
        match first.folded_with(second) {
            FoldResult::Folded(both) => {
                assert(m2.cells =~= acted(m, both).unwrap().cells);
            },
            FoldResult::NoOp => {
                assert(m2.cells =~= m.cells);
            },
            _ => {},
        }
    } else if is_move(first) && is_move(second) {
        lemma_fold_moves(first, second, m.cursor);
    } else {
        lemma_mixed_never_fold(first, second);
    }
}

/// A cell operation changes the current cell and nothing else.
pub proof fn lemma_cell_op_acts<T: CellType>(m: Machine<T>, instruction: Instruction<T>)
    requires
        is_cell_op(instruction),
        m.in_bounds(),
    ensures
        acted(m, instruction) is Some,
        acted(m, instruction).unwrap().cursor == m.cursor,
        acted(m, instruction).unwrap().cells.len() == m.cells.len(),
        forall|k: int|
            0 <= k < m.cells.len() && k != m.cursor ==> acted(m, instruction).unwrap().cells[k]
                == m.cells[k],
{
    reveal(acted);
}

/// An assignment puts its value into the current cell.
pub proof fn lemma_set_acts<T: CellType>(m: Machine<T>, value: T)
    requires
        m.in_bounds(),
    ensures
        acted(m, Instruction::SetCell(value)) == Some(m.with_current(value)),
{
    reveal(acted);
    value.lemma_from_value();
}

} // verus!
