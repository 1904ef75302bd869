//! The peephole optimizer: folding of adjacent instructions and
//! recognition of loops that only zero a cell.

use vstd::prelude::*;
use vstd::arithmetic::div_mod::lemma_small_mod;
use crate::cell_type::{amount, wrapped, CellType, NonZero, Sealed};
use crate::instruction::Instruction;
use crate::compile::jumps::{lemma_resolved_linked, linked};
use crate::equivalence::lemma_optimized_verdict;
use crate::compile::{lemma_parsed_len, parsed, resolved, verdict, Error, InstructionStream};

verus! {

/// What became of two adjacent instructions.
#[derive(Debug, PartialEq, Eq)]
pub enum FoldResult<T> {
    /// The two do not combine.
    CantFold,
    /// The two cancel each other: together they do nothing.
    NoOp,
    /// The two combine into one.
    Folded(T),
}

impl<T: CellType> FoldResult<Instruction<T>> {
    /// `Folded` with the instruction that `variant` makes of `value`, or
    /// `or` where `value` is zero.
    pub fn try_from_or<A: CellType, F: FnOnce(NonZero<A>) -> Instruction<T>>(
        or: Self,
        value: A,
        variant: F,
    ) -> (r: Self)
        requires
            call_requires(variant, (NonZero::from_cell(value),)),
        ensures
            value.value() == 0 ==> r == or,
            value.value() != 0 ==> (r matches FoldResult::Folded(instruction) && call_ensures(
                variant,
                (NonZero::from_cell(value),),
                instruction,
            )),
    {
        match NonZero::new(value) {
            Some(amount) => FoldResult::Folded(variant(amount)),
            None => or,
        }
    }

    /// `Folded` with the instruction that `variant` makes of `value`, or
    /// `NoOp` where `value` is zero.
    pub fn try_from_or_noop<A: CellType, F: FnOnce(NonZero<A>) -> Instruction<T>>(
        value: A,
        variant: F,
    ) -> (r: Self)
        requires
            call_requires(variant, (NonZero::from_cell(value),)),
        ensures
            value.value() == 0 ==> r == FoldResult::<Instruction<T>>::NoOp,
            value.value() != 0 ==> (r matches FoldResult::Folded(instruction) && call_ensures(
                variant,
                (NonZero::from_cell(value),),
                instruction,
            )),
    {
        Self::try_from_or(FoldResult::NoOp, value, variant)
    }
}

/// An increment by `v`, or nothing where `v` is zero.
pub open spec fn inc_or_noop<T: CellType>(v: int) -> FoldResult<Instruction<T>> {
    if v == 0 {
        FoldResult::NoOp
    } else {
        FoldResult::Folded(Instruction::Inc(amount(v)))
    }
}

/// A decrement by `v`, or nothing where `v` is zero.
pub open spec fn dec_or_noop<T: CellType>(v: int) -> FoldResult<Instruction<T>> {
    if v == 0 {
        FoldResult::NoOp
    } else {
        FoldResult::Folded(Instruction::Dec(amount(v)))
    }
}

/// A move of the pointer by `v` to the right (to the left where `v` is
/// negative), nothing where `v` is zero, and no fold where the distance
/// does not fit in 32 bits.
pub open spec fn move_by<T: CellType>(v: int) -> FoldResult<Instruction<T>> {
    if v == 0 {
        FoldResult::NoOp
    } else if 0 < v <= u32::MAX {
        FoldResult::Folded(Instruction::IncPtr(amount(v)))
    } else if 0 < -v <= u32::MAX {
        FoldResult::Folded(Instruction::DecPtr(amount(-v)))
    } else {
        FoldResult::CantFold
    }
}

impl<T: CellType> Instruction<T> {
    /// What two adjacent instructions, `self` first, combine into.
    pub open spec fn folded_with(self, next: Self) -> FoldResult<Self> {
        match (self, next) {
            (Instruction::Inc(a), Instruction::Inc(b)) => inc_or_noop(
                (a.value() + b.value()) % T::modulus(),
            ),
            (Instruction::Dec(a), Instruction::Dec(b)) => dec_or_noop(
                (a.value() + b.value()) % T::modulus(),
            ),
            (Instruction::Dec(sub), Instruction::Inc(add)) => if sub.value() > add.value() {
                dec_or_noop(sub.value() - add.value())
            } else {
                inc_or_noop(add.value() - sub.value())
            },
            (Instruction::Inc(add), Instruction::Dec(sub)) => if sub.value() > add.value() {
                dec_or_noop(sub.value() - add.value())
            } else {
                inc_or_noop(add.value() - sub.value())
            },
            (Instruction::IncPtr(a), Instruction::IncPtr(b)) => move_by(a.value() + b.value()),
            (Instruction::DecPtr(a), Instruction::DecPtr(b)) => move_by(-(a.value() + b.value())),
            (Instruction::DecPtr(sub), Instruction::IncPtr(add)) => move_by(
                add.value() - sub.value(),
            ),
            (Instruction::IncPtr(add), Instruction::DecPtr(sub)) => move_by(
                add.value() - sub.value(),
            ),
            (Instruction::Inc(_), Instruction::SetCell(v)) => FoldResult::Folded(
                Instruction::SetCell(v),
            ),
            (Instruction::Dec(_), Instruction::SetCell(v)) => FoldResult::Folded(
                Instruction::SetCell(v),
            ),
            (Instruction::SetCell(_), Instruction::SetCell(v)) => FoldResult::Folded(
                Instruction::SetCell(v),
            ),
            (Instruction::SetCell(start), Instruction::Inc(add)) => FoldResult::Folded(
                Instruction::SetCell(wrapped(start.value() + add.value())),
            ),
            (Instruction::SetCell(start), Instruction::Dec(sub)) => FoldResult::Folded(
                Instruction::SetCell(wrapped(start.value() - sub.value())),
            ),
            _ => FoldResult::CantFold,
        }
    }
}

impl<T: CellType> Instruction<T> {
    /// An increment by `amount`.
    pub fn inc(amount: NonZero<T>) -> (r: Self)
        ensures
            r == Instruction::Inc(amount),
    {
        Instruction::Inc(amount)
    }

    /// A decrement by `amount`.
    pub fn dec(amount: NonZero<T>) -> (r: Self)
        ensures
            r == Instruction::Dec(amount),
    {
        Instruction::Dec(amount)
    }

    /// A move of the pointer to the right by `amount`.
    pub fn inc_ptr(amount: NonZero<u32>) -> (r: Self)
        ensures
            r == Instruction::<T>::IncPtr(amount),
    {
        Instruction::IncPtr(amount)
    }

    /// A move of the pointer to the left by `amount`.
    pub fn dec_ptr(amount: NonZero<u32>) -> (r: Self)
        ensures
            r == Instruction::<T>::DecPtr(amount),
    {
        Instruction::DecPtr(amount)
    }

    /// The net effect of an increment by `add` and a decrement by `sub`.
    fn fold_opposite(add: NonZero<T>, sub: NonZero<T>) -> (r: FoldResult<Self>)
        ensures
            r == (if sub.value() > add.value() {
                dec_or_noop::<T>(sub.value() - add.value())
            } else {
                inc_or_noop::<T>(add.value() - sub.value())
            }),
    {
        let up = add.get();
        let down = sub.get();
        proof {
            up.lemma_value_range();
            down.lemma_value_range();
        }
        if down.into_u32() > up.into_u32() {
            let net = down.wrapping_sub(up);
            proof {
                net.lemma_from_value();
                lemma_small_mod((down.value() - up.value()) as nat, T::modulus() as nat);
            }
            FoldResult::try_from_or_noop(net, Self::dec)
        } else {
            let net = up.wrapping_sub(down);
            proof {
                net.lemma_from_value();
                lemma_small_mod((up.value() - down.value()) as nat, T::modulus() as nat);
            }
            FoldResult::try_from_or_noop(net, Self::inc)
        }
    }

    /// The net effect of a move right by `add` and a move left by `sub`.
    fn fold_opposite_moves(add: NonZero<u32>, sub: NonZero<u32>) -> (r: FoldResult<Self>)
        ensures
            r == move_by::<T>(add.value() - sub.value()),
    {
        let add = add.get();
        let sub = sub.get();
        if sub > add {
            let net: u32 = sub - add;
            FoldResult::try_from_or_noop(
                net,
                Self::dec_ptr,
            )
        } else {
            let net: u32 = add - sub;
            FoldResult::try_from_or_noop(
                net,
                Self::inc_ptr,
            )
        }
    }

    /// Combines two adjacent instructions, `self` first, into one where a
    /// rule allows it.
    pub fn fold_with(self, next: Self) -> (r: FoldResult<Self>)
        ensures
            r == self.folded_with(next),
    {
        proof {
            T::lemma_modulus();
        }
        match (self, next) {
            (Instruction::Inc(amount1), Instruction::Inc(amount2)) => {
                let sum = amount1.get().wrapping_add(amount2.get());
                proof {
                    sum.lemma_from_value();
                }
                FoldResult::try_from_or_noop(
                    sum,
                    Self::inc,
                )
            },
            (Instruction::Dec(amount1), Instruction::Dec(amount2)) => {
                let sum = amount1.get().wrapping_add(amount2.get());
                proof {
                    sum.lemma_from_value();
                }
                FoldResult::try_from_or_noop(
                    sum,
                    Self::dec,
                )
            },
            (Instruction::Dec(sub), Instruction::Inc(add)) => Self::fold_opposite(add, sub),
            (Instruction::Inc(add), Instruction::Dec(sub)) => Self::fold_opposite(add, sub),
            (Instruction::IncPtr(amount1), Instruction::IncPtr(amount2)) => {
                match amount1.get().checked_add(amount2.get()) {
                    Some(sum) => FoldResult::try_from_or(
                        FoldResult::CantFold,
                        sum,
                        Self::inc_ptr,
                    ),
                    None => FoldResult::CantFold,
                }
            },
            (Instruction::DecPtr(amount1), Instruction::DecPtr(amount2)) => {
                match amount1.get().checked_add(amount2.get()) {
                    Some(sum) => FoldResult::try_from_or(
                        FoldResult::CantFold,
                        sum,
                        Self::dec_ptr,
                    ),
                    None => FoldResult::CantFold,
                }
            },
            (Instruction::DecPtr(sub), Instruction::IncPtr(add)) => Self::fold_opposite_moves(
                add,
                sub,
            ),
            (Instruction::IncPtr(add), Instruction::DecPtr(sub)) => Self::fold_opposite_moves(
                add,
                sub,
            ),
            (Instruction::Inc(_), Instruction::SetCell(value)) => FoldResult::Folded(
                Instruction::SetCell(value),
            ),
            (Instruction::Dec(_), Instruction::SetCell(value)) => FoldResult::Folded(
                Instruction::SetCell(value),
            ),
            (Instruction::SetCell(_), Instruction::SetCell(value)) => FoldResult::Folded(
                Instruction::SetCell(value),
            ),
            (Instruction::SetCell(start), Instruction::Inc(add)) => {
                let value = start.wrapping_add(add.get());
                proof {
                    value.lemma_from_value();
                }
                FoldResult::Folded(Instruction::SetCell(value))
            },
            (Instruction::SetCell(start), Instruction::Dec(sub)) => {
                let value = start.wrapping_sub(sub.get());
                proof {
                    value.lemma_from_value();
                }
                FoldResult::Folded(Instruction::SetCell(value))
            },
            _ => FoldResult::CantFold,
        }
    }
}

/// What a folding pass makes of the instructions of `s` from index `i`
/// on, where `current` is what the instructions just before `i` have been
/// folded into, if they have not cancelled out.
pub open spec fn folded_from<T: CellType>(
    s: Seq<Instruction<T>>,
    i: int,
    current: Option<Instruction<T>>,
) -> Seq<Instruction<T>>
    decreases s.len() - i,
{
    if i < 0 || i >= s.len() {
        match current {
            Some(last) => seq![last],
            None => Seq::empty(),
        }
    } else {
        match current {
            None => folded_from(s, i + 1, Some(s[i])),
            Some(before) => match before.folded_with(s[i]) {
                FoldResult::Folded(both) => folded_from(s, i + 1, Some(both)),
                FoldResult::NoOp => folded_from(s, i + 1, None),
                FoldResult::CantFold => seq![before] + folded_from(s, i + 1, Some(s[i])),
            },
        }
    }
}

/// What one folding pass makes of `s`: every run of instructions that
/// combine, read from the left, becomes one instruction or nothing.
pub open spec fn folded<T: CellType>(s: Seq<Instruction<T>>) -> Seq<Instruction<T>> {
    folded_from(s, 0, None)
}

/// A folding pass adds no instruction.
pub proof fn lemma_folded_len<T: CellType>(
    s: Seq<Instruction<T>>,
    i: int,
    current: Option<Instruction<T>>,
)
    requires
        0 <= i <= s.len(),
    ensures
        folded_from(s, i, current).len() <= s.len() - i + (if current is Some {
            1int
        } else {
            0int
        }),
    decreases s.len() - i,
{
    if i < s.len() {
        match current {
            None => lemma_folded_len(s, i + 1, Some(s[i])),
            Some(before) => match before.folded_with(s[i]) {
                FoldResult::Folded(both) => lemma_folded_len(s, i + 1, Some(both)),
                FoldResult::NoOp => lemma_folded_len(s, i + 1, None),
                FoldResult::CantFold => lemma_folded_len(s, i + 1, Some(s[i])),
            },
        }
    }
}

/// A loop whose body is one step up or down starts at `i`: it runs until
/// the cell is zero.
pub open spec fn is_zero_loop<T: CellType>(s: Seq<Instruction<T>>, i: int) -> bool {
    &&& 0 <= i
    &&& i + 2 < s.len()
    &&& s[i] is LoopStart
    &&& match s[i + 1] {
        Instruction::Inc(step) => step.value() == 1,
        Instruction::Dec(step) => step.value() == 1,
        _ => false,
    }
    &&& s[i + 2] is LoopEnd
}

/// The instructions of `s` from index `i` on, with every zeroing loop
/// replaced by an assignment of zero.
pub open spec fn zeroings_recognized_from<T: CellType>(s: Seq<Instruction<T>>, i: int) -> Seq<
    Instruction<T>,
>
    decreases s.len() - i,
{
    if i < 0 || i >= s.len() {
        Seq::empty()
    } else if is_zero_loop(s, i) {
        seq![Instruction::SetCell(T::from_value(0))] + zeroings_recognized_from(s, i + 3)
    } else {
        seq![s[i]] + zeroings_recognized_from(s, i + 1)
    }
}

/// `s` with every zeroing loop replaced by an assignment of zero.
pub open spec fn zeroings_recognized<T: CellType>(s: Seq<Instruction<T>>) -> Seq<Instruction<T>> {
    zeroings_recognized_from(s, 0)
}

/// Recognizing zeroing loops adds no instruction.
pub proof fn lemma_zeroings_recognized_len<T: CellType>(s: Seq<Instruction<T>>, i: int)
    requires
        0 <= i <= s.len(),
    ensures
        zeroings_recognized_from(s, i).len() <= s.len() - i,
    decreases s.len() - i,
{
    if i < s.len() {
        if is_zero_loop(s, i) {
            lemma_zeroings_recognized_len(s, i + 3);
        } else {
            lemma_zeroings_recognized_len(s, i + 1);
        }
    }
}

impl<T: CellType> InstructionStream<T> {
    /// Folds every run of adjacent instructions that combine, in place.
    ///
    /// The instructions move, so the jump targets no longer hold afterwards:
    /// [`InstructionStream::optimize`] resolves them anew.
    pub fn fold_like(&mut self)
        ensures
            final(self)@ == folded(old(self)@),
            final(self)@.len() <= old(self)@.len(),
            final(self).array_size() == old(self).array_size(),
    {
        let ghost s = self.instructions@;
        let len = self.instructions.len();
        let mut read_idx: usize = 0;
        let mut write_idx: usize = 0;
        let mut current: Option<Instruction<T>> = None;
        while read_idx < len
            invariant
                s == old(self)@,
                len == s.len(),
                self.instructions@.len() == len,
                self.recommended_array_size == old(self).recommended_array_size,
                read_idx <= len,
                write_idx <= read_idx,
                current is Some ==> write_idx < read_idx,
                forall|k: int| read_idx <= k < len ==> self.instructions@[k] == s[k],
                self.instructions@.take(write_idx as int) + folded_from(s, read_idx as int, current)
                    == folded(s),
            decreases len - read_idx,
        {
            let next = self.instructions[read_idx];
            let ghost written = self.instructions@.take(write_idx as int);
            match current {
                None => {
                    current = Some(next);
                },
                Some(before) => {
                    match before.fold_with(next) {
                        FoldResult::Folded(both) => {
                            current = Some(both);
                        },
                        FoldResult::NoOp => {
                            current = None;
                        },
                        FoldResult::CantFold => {
                            self.instructions.set(write_idx, before);
                            write_idx += 1;
                            current = Some(next);
                            proof {
                                let rest = folded_from(s, read_idx + 1, Some(next));
                                assert(self.instructions@.take(write_idx as int) =~= written.push(
                                    before,
                                ));
                                assert(written.push(before) + rest =~= written + (seq![before]
                                    + rest));
                            }
                        },
                    }
                },
            }
            proof {
                assert(self.instructions@.take(write_idx as int) =~= if write_idx as int
                    == written.len() {
                    written
                } else {
                    written.push(self.instructions@[write_idx - 1])
                });
            }
            read_idx += 1;
        }
        let ghost written = self.instructions@.take(write_idx as int);
        if let Some(last) = current {
            self.instructions.set(write_idx, last);
            write_idx += 1;
            proof {
                assert(self.instructions@.take(write_idx as int) =~= written + seq![last]);
            }
        } else {
            proof {
                assert(written + Seq::<Instruction<T>>::empty() =~= written);
            }
        }
        self.instructions.truncate(write_idx);
        proof {
            assert(self.instructions@ =~= folded(s));
        }
    }

    /// Replaces every loop that only zeroes a cell by an assignment of
    /// zero, in place.
    ///
    /// The instructions move, so the jump targets no longer hold afterwards:
    /// [`InstructionStream::optimize`] resolves them anew.
    pub fn recognize_zeroings(&mut self)
        ensures
            final(self)@ == zeroings_recognized(old(self)@),
            final(self)@.len() <= old(self)@.len(),
            final(self).array_size() == old(self).array_size(),
    {
        let ghost s = self.instructions@;
        let len = self.instructions.len();
        let mut read_idx: usize = 0;
        let mut write_idx: usize = 0;
        while read_idx < len
            invariant
                s == old(self)@,
                len == s.len(),
                self.instructions@.len() == len,
                self.recommended_array_size == old(self).recommended_array_size,
                read_idx <= len,
                write_idx <= read_idx,
                forall|k: int| read_idx <= k < len ==> self.instructions@[k] == s[k],
                self.instructions@.take(write_idx as int) + zeroings_recognized_from(
                    s,
                    read_idx as int,
                ) == zeroings_recognized(s),
            decreases len - read_idx,
        {
            let ghost written = self.instructions@.take(write_idx as int);
            let zeroing = len - read_idx >= 3 && Self::is_loop_start(self.instructions[read_idx])
                && Self::is_single_step(self.instructions[read_idx + 1]) && Self::is_loop_end(
                self.instructions[read_idx + 2],
            );
            let ghost rest = if zeroing {
                zeroings_recognized_from(s, read_idx + 3)
            } else {
                zeroings_recognized_from(s, read_idx + 1)
            };
            if zeroing {
                let zero = T::zero();
                proof {
                    zero.lemma_from_value();
                }
                self.instructions.set(write_idx, Instruction::SetCell(zero));
                read_idx += 3;
            } else {
                let kept = self.instructions[read_idx];
                self.instructions.set(write_idx, kept);
                read_idx += 1;
            }
            write_idx += 1;
            proof {
                let put = self.instructions@[write_idx - 1];
                assert(self.instructions@.take(write_idx as int) =~= written.push(put));
                assert(written.push(put) + rest =~= written + (seq![put] + rest));
            }
        }
        proof {
            assert(self.instructions@.take(write_idx as int) + Seq::<Instruction<T>>::empty()
                =~= self.instructions@.take(write_idx as int));
        }
        self.instructions.truncate(write_idx);
    }

    /// Whether `instruction` starts a loop.
    fn is_loop_start(instruction: Instruction<T>) -> (r: bool)
        ensures
            r == (instruction is LoopStart),
    {
        match instruction {
            Instruction::LoopStart(_) => true,
            _ => false,
        }
    }

    /// Whether `instruction` ends a loop.
    fn is_loop_end(instruction: Instruction<T>) -> (r: bool)
        ensures
            r == (instruction is LoopEnd),
    {
        match instruction {
            Instruction::LoopEnd(_) => true,
            _ => false,
        }
    }

    /// Whether `instruction` changes the cell by exactly one.
    fn is_single_step(instruction: Instruction<T>) -> (r: bool)
        ensures
            r == (match instruction {
                Instruction::Inc(step) => step.value() == 1,
                Instruction::Dec(step) => step.value() == 1,
                _ => false,
            }),
    {
        match instruction {
            Instruction::Inc(step) => step.get().into_u32() == 1,
            Instruction::Dec(step) => step.get().into_u32() == 1,
            _ => false,
        }
    }
}

/// What one round of optimization makes of `s`: a folding pass, the
/// recognition of zeroing loops, and a second folding pass over what the
/// recognition has brought side by side.
pub open spec fn round<T: CellType>(s: Seq<Instruction<T>>) -> Seq<Instruction<T>> {
    folded(zeroings_recognized(folded(s)))
}

/// `s` after rounds of optimization, repeated until a round removes no
/// instruction.
pub open spec fn optimized<T: CellType>(s: Seq<Instruction<T>>) -> Seq<Instruction<T>>
    decreases s.len(),
{
    let next = round(s);
    if next.len() < s.len() {
        optimized(next)
    } else {
        next
    }
}

/// A round of optimization adds no instruction.
pub proof fn lemma_round_len<T: CellType>(s: Seq<Instruction<T>>)
    ensures
        round(s).len() <= s.len(),
{
    lemma_folded_len(s, 0, None);
    lemma_zeroings_recognized_len(folded(s), 0);
    lemma_folded_len(zeroings_recognized(folded(s)), 0, None);
}

/// Optimization adds no instruction.
pub proof fn lemma_optimized_len<T: CellType>(s: Seq<Instruction<T>>)
    ensures
        optimized(s).len() <= s.len(),
    decreases s.len(),
{
    lemma_round_len(s);
    if round(s).len() < s.len() {
        lemma_optimized_len(round(s));
    }
}

/// How far to the right the first `n` instructions of `s` move the
/// pointer, counting only the moves to the right.
pub open spec fn travel<T: CellType>(s: Seq<Instruction<T>>, n: int) -> int
    decreases n,
{
    if n <= 0 {
        0
    } else {
        travel(s, n - 1) + match s[n - 1] {
            Instruction::IncPtr(by) => by.value(),
            _ => 0,
        }
    }
}

/// The array size recommended for `s`: the sum of all moves to the right,
/// as far as a size can hold it, and never less than the minimum.
pub open spec fn recommended_size<T: CellType>(s: Seq<Instruction<T>>) -> usize {
    let sum = travel(s, s.len() as int);
    if sum <= crate::MIN_DATA_ARRAY_SIZE {
        crate::MIN_DATA_ARRAY_SIZE
    } else if sum <= usize::MAX {
        sum as usize
    } else {
        usize::MAX
    }
}

/// The recommended array size is never under the minimum, whatever the
/// program holds, and where the moves to the right add up to more than
/// the minimum (and to no more than a size can hold) it is their sum.
pub proof fn lemma_recommended_size<T: CellType>(s: Seq<Instruction<T>>)
    ensures
        recommended_size(s) >= crate::MIN_DATA_ARRAY_SIZE,
        crate::MIN_DATA_ARRAY_SIZE <= travel(s, s.len() as int) <= usize::MAX ==> recommended_size(
            s,
        ) == travel(s, s.len() as int),
{
}

/// The moves to the right of `n` instructions add up to less than `n` times
/// what 32 bits count.
pub proof fn lemma_travel_bound<T: CellType>(s: Seq<Instruction<T>>, n: int)
    requires
        0 <= n <= s.len(),
    ensures
        0 <= travel(s, n) <= n * 0xffff_ffff,
    decreases n,
{
    if n > 0 {
        lemma_travel_bound(s, n - 1);
        match s[n - 1] {
            Instruction::IncPtr(by) => by.cell().lemma_value_range(),
            _ => {},
        }
    }
}

/// Where sizes are 64 bits wide, the recommended array size of a program
/// of no more instructions than 32 bits count is the sum of its moves to
/// the right, or the minimum where that is more.
pub proof fn lemma_recommended_size_is_sum<T: CellType>(s: Seq<Instruction<T>>)
    requires
        s.len() <= u32::MAX,
        usize::MAX == 0xffff_ffff_ffff_ffff,
    ensures
        recommended_size(s) == (if travel(s, s.len() as int) <= crate::MIN_DATA_ARRAY_SIZE {
            crate::MIN_DATA_ARRAY_SIZE as int
        } else {
            travel(s, s.len() as int)
        }),
{
    lemma_travel_bound(s, s.len() as int);
    assert(s.len() * 0xffff_ffff <= 0xffff_ffff * 0xffff_ffff) by (nonlinear_arith)
        requires
            s.len() <= 0xffff_ffff,
    ;
}

impl<T: CellType> InstructionStream<T> {
    /// Optimize the instruction stream.
    ///
    /// Folds adjacent instructions and replaces zeroing loops until
    /// nothing more is removed, then resolves the jumps anew and
    /// recomputes the recommended array size.
    ///
    /// # Errors
    ///
    /// Will return `Err` if there are unmatched loop starts or ends.
    pub fn optimize(&mut self) -> (r: Result<(), Error>)
        requires
            old(self)@.len() <= u32::MAX,
        ensures
            r == verdict(old(self)@),
            r == verdict(optimized(old(self)@)),
            final(self)@ == resolved(optimized(old(self)@)),
            final(self)@.len() <= old(self)@.len(),
            r is Ok ==> linked(final(self)@),
            r is Ok ==> final(self).array_size() == recommended_size(final(self)@),
            r is Ok ==> final(self).array_size() >= crate::MIN_DATA_ARRAY_SIZE,
            r is Err ==> final(self).array_size() == old(self).array_size(),
    {
        proof {
            lemma_optimized_verdict(self.instructions@);
            lemma_optimized_len(self.instructions@);
        }
        let mut before = self.instructions.len();
        let ghost mut previous = self.instructions@;
        self.fold_like();
        self.recognize_zeroings();
        self.fold_like();
        while self.instructions.len() < before
            invariant
                previous.len() == before,
                before <= u32::MAX,
                self@ == round(previous),
                optimized(previous) == optimized(old(self)@),
                self.recommended_array_size == old(self).recommended_array_size,
            decreases before,
        {
            before = self.instructions.len();
            proof {
                previous = self.instructions@;
            }
            self.fold_like();
            self.recognize_zeroings();
            self.fold_like();
        }
        proof {
            lemma_round_len(previous);
        }
        let ghost unresolved = self.instructions@;
        match self.insert_bf_jump_points() {
            Ok(()) => {},
            Err(error) => {
                return Err(error);
            },
        }
        proof {
            lemma_resolved_linked(unresolved);
        }
        self.recommended_array_size = Self::size_for(&self.instructions);
        Ok(())
    }

    /// The array size to recommend for `instructions`.
    fn size_for(instructions: &Vec<Instruction<T>>) -> (r: usize)
        requires
            instructions@.len() <= u32::MAX,
        ensures
            r == recommended_size(instructions@),
    {
        let mut sum: u64 = 0;
        let mut idx: usize = 0;
        while idx < instructions.len()
            invariant
                idx <= instructions@.len() <= u32::MAX,
                sum == travel(instructions@, idx as int),
                sum <= idx * 0xffff_ffff,
            decreases instructions@.len() - idx,
        {
            match instructions[idx] {
                Instruction::IncPtr(by) => {
                    let by = by.get();
                    sum = sum + by as u64;
                },
                _ => {},
            }
            idx += 1;
        }
        let min = crate::MIN_DATA_ARRAY_SIZE;
        if sum <= min as u64 {
            min
        } else if sum <= usize::MAX as u64 {
            sum as usize
        } else {
            usize::MAX
        }
    }

    /// Create a new instruction stream from Brainfuck code and optimize it.
    ///
    /// # Errors
    ///
    /// Returns `Err` iff there are unmatched loop starts or ends.
    pub fn optimized_from_code(input: &[u8]) -> (r: Result<Self, Error>)
        requires
            input@.len() <= u32::MAX,
        ensures
            match r {
                Ok(stream) => {
                    &&& verdict(parsed::<T>(input@)) == Ok::<(), Error>(())
                    &&& stream@ == resolved(optimized(parsed::<T>(input@)))
                    &&& linked(stream@)
                    &&& stream.array_size() == recommended_size(stream@)
                    &&& stream.array_size() >= crate::MIN_DATA_ARRAY_SIZE
                },
                Err(error) => verdict(parsed::<T>(input@)) == Err::<(), Error>(error),
            },
    {
        let mut stream = Self::unresolved(Self::instructions_from_text(input));
        proof {
            lemma_parsed_len::<T>(input@);
        }
        match stream.optimize() {
            Ok(()) => Ok(stream),
            Err(error) => Err(error),
        }
    }
}

} // verus!
