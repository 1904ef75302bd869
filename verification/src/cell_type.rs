//! Provides [`CellType`], the family of cell widths, and [`NonZero`], the
//! operand type of instructions that must have an effect.

use vstd::prelude::*;

verus! {

/// The operations every cell width offers.
///
/// A cell is modelled by its mathematical value, an integer in
/// `0 .. modulus()`; all arithmetic is stated over that value.
pub trait Sealed: Copy + Sized + PartialEq + Eq + core::fmt::Debug {
    /// The mathematical value held by the cell.
    spec fn value(self) -> int;

    /// The number of distinct cell values, `2^W` for a `W`-bit cell.
    spec fn modulus() -> int;

    /// The name of the matching C type.
    spec fn c_type_name() -> Seq<char>;

    /// The cell holding the given value; meaningful for values in range.
    spec fn from_value(v: int) -> Self;

    /// The modulus is one of the three supported widths.
    proof fn lemma_modulus()
        ensures
            Self::modulus() == 0x100 || Self::modulus() == 0x1_0000 || Self::modulus()
                == 0x1_0000_0000,
    ;

    /// Every cell value lies in `0 .. modulus()`.
    proof fn lemma_value_range(self)
        ensures
            0 <= self.value() < Self::modulus(),
    ;

    /// A cell is determined by its value.
    proof fn lemma_from_value(self)
        ensures
            Self::from_value(self.value()) == self,
    ;

    /// Every value in range is held by some cell.
    proof fn lemma_value_of(v: int)
        requires
            0 <= v < Self::modulus(),
        ensures
            Self::from_value(v).value() == v,
    ;

    /// The cell holding zero.
    fn zero() -> (r: Self)
        ensures
            r.value() == 0,
    ;

    /// The cell holding one.
    fn one() -> (r: Self)
        ensures
            r.value() == 1,
    ;

    /// The largest cell value.
    fn max() -> (r: u32)
        ensures
            r == Self::modulus() - 1,
    ;

    /// The name of the C type with the same width.
    fn c_type() -> (r: &'static str)
        ensures
            r@ == Self::c_type_name(),
    ;

    /// Widens a byte to a cell.
    fn from_byte(byte: u8) -> (r: Self)
        ensures
            r.value() == byte,
    ;

    /// Widens a cell to 32 bits.
    fn into_u32(self) -> (r: u32)
        ensures
            r == self.value(),
    ;

    /// Addition modulo `modulus()`.
    fn wrapping_add(self, amount: Self) -> (r: Self)
        ensures
            r.value() == (self.value() + amount.value()) % Self::modulus(),
    ;

    /// Subtraction modulo `modulus()`.
    fn wrapping_sub(self, amount: Self) -> (r: Self)
        ensures
            r.value() == (self.value() - amount.value()) % Self::modulus(),
    ;

    /// Addition that fails where the sum does not fit.
    fn checked_add(self, amount: Self) -> (r: Option<Self>)
        ensures
            r is Some <==> self.value() + amount.value() < Self::modulus(),
            r is Some ==> r.unwrap().value() == self.value() + amount.value(),
    ;

    /// The low eight bits of the cell.
    fn truncate_to_byte(self) -> (r: u8)
        ensures
            r == self.value() % 0x100,
    ;
}

/// Types that can be used as the cell of the interpreter.
pub trait CellType: Sealed {

}

impl Sealed for u8 {
    open spec fn value(self) -> int {
        self as int
    }

    open spec fn modulus() -> int {
        0x100
    }

    open spec fn c_type_name() -> Seq<char> {
        "unsigned char"@
    }

    open spec fn from_value(v: int) -> Self {
        v as u8
    }

    proof fn lemma_modulus() {
    }

    proof fn lemma_value_range(self) {
    }

    proof fn lemma_from_value(self) {
    }

    proof fn lemma_value_of(v: int) {
    }

    fn zero() -> (r: Self) {
        0
    }

    fn one() -> (r: Self) {
        1
    }

    fn max() -> (r: u32) {
        0xff
    }

    fn c_type() -> (r: &'static str) {
        "unsigned char"
    }

    fn from_byte(byte: u8) -> (r: Self) {
        byte
    }

    fn into_u32(self) -> (r: u32) {
        self as u32
    }

    fn wrapping_add(self, amount: Self) -> (r: Self) {
        self.wrapping_add(amount)
    }

    fn wrapping_sub(self, amount: Self) -> (r: Self) {
        self.wrapping_sub(amount)
    }

    fn checked_add(self, amount: Self) -> (r: Option<Self>) {
        self.checked_add(amount)
    }

    fn truncate_to_byte(self) -> (r: u8) {
        self
    }
}

impl CellType for u8 {

}

impl Sealed for u16 {
    open spec fn value(self) -> int {
        self as int
    }

    open spec fn modulus() -> int {
        0x1_0000
    }

    open spec fn c_type_name() -> Seq<char> {
        "unsigned short"@
    }

    open spec fn from_value(v: int) -> Self {
        v as u16
    }

    proof fn lemma_modulus() {
    }

    proof fn lemma_value_range(self) {
    }

    proof fn lemma_from_value(self) {
    }

    proof fn lemma_value_of(v: int) {
    }

    fn zero() -> (r: Self) {
        0
    }

    fn one() -> (r: Self) {
        1
    }

    fn max() -> (r: u32) {
        0xffff
    }

    fn c_type() -> (r: &'static str) {
        "unsigned short"
    }

    fn from_byte(byte: u8) -> (r: Self) {
        byte as u16
    }

    fn into_u32(self) -> (r: u32) {
        self as u32
    }

    fn wrapping_add(self, amount: Self) -> (r: Self) {
        self.wrapping_add(amount)
    }

    fn wrapping_sub(self, amount: Self) -> (r: Self) {
        self.wrapping_sub(amount)
    }

    fn checked_add(self, amount: Self) -> (r: Option<Self>) {
        self.checked_add(amount)
    }

    fn truncate_to_byte(self) -> (r: u8) {
        (self % 0x100) as u8
    }
}

impl CellType for u16 {

}

impl Sealed for u32 {
    open spec fn value(self) -> int {
        self as int
    }

    open spec fn modulus() -> int {
        0x1_0000_0000
    }

    open spec fn c_type_name() -> Seq<char> {
        "unsigned int"@
    }

    open spec fn from_value(v: int) -> Self {
        v as u32
    }

    proof fn lemma_modulus() {
    }

    proof fn lemma_value_range(self) {
    }

    proof fn lemma_from_value(self) {
    }

    proof fn lemma_value_of(v: int) {
    }

    fn zero() -> (r: Self) {
        0
    }

    fn one() -> (r: Self) {
        1
    }

    fn max() -> (r: u32) {
        0xffff_ffff
    }

    fn c_type() -> (r: &'static str) {
        "unsigned int"
    }

    fn from_byte(byte: u8) -> (r: Self) {
        byte as u32
    }

    fn into_u32(self) -> (r: u32) {
        self
    }

    fn wrapping_add(self, amount: Self) -> (r: Self) {
        self.wrapping_add(amount)
    }

    fn wrapping_sub(self, amount: Self) -> (r: Self) {
        self.wrapping_sub(amount)
    }

    fn checked_add(self, amount: Self) -> (r: Option<Self>) {
        self.checked_add(amount)
    }

    fn truncate_to_byte(self) -> (r: u8) {
        (self % 0x100) as u8
    }
}

impl CellType for u32 {

}

/// An amount that is never zero: the operand of an instruction that must
/// have an effect.
#[derive(Copy, PartialEq, Eq, Debug)]
pub struct NonZero<C: CellType> {
    amount: C,
}

impl<C: CellType> Clone for NonZero<C> {
    fn clone(&self) -> (r: Self)
        ensures
            r == *self,
    {
        *self
    }
}

impl<C: CellType> NonZero<C> {
    #[verifier::type_invariant]
    spec fn is_non_zero(self) -> bool {
        self.amount.value() != 0
    }

    /// The amount as a cell.
    pub closed spec fn cell(self) -> C {
        self.amount
    }

    /// The mathematical value of the amount.
    pub open spec fn value(self) -> int {
        self.cell().value()
    }

    /// The amount with the given cell value; meaningful for non-zero cells.
    pub closed spec fn from_cell(amount: C) -> Self {
        NonZero { amount }
    }

    /// The amount made of a cell holds that cell.
    pub proof fn lemma_cell_of(amount: C)
        ensures
            Self::from_cell(amount).cell() == amount,
    {
    }

    /// An amount is the amount of its cell.
    pub proof fn lemma_from_cell(self)
        ensures
            Self::from_cell(self.cell()) == self,
    {
    }

    /// Wraps `amount`, unless it is zero.
    pub fn new(amount: C) -> (r: Option<Self>)
        ensures
            r == (if amount.value() != 0 {
                Some(Self::from_cell(amount))
            } else {
                None
            }),
    {
        if amount.into_u32() != 0 {
            Some(NonZero { amount })
        } else {
            None
        }
    }

    /// The amount of one step.
    pub open spec fn unit() -> Self {
        Self::from_cell(C::from_value(1))
    }

    /// The smallest amount.
    pub fn one() -> (r: Self)
        ensures
            r == Self::unit(),
            r.value() == 1,
    {
        let amount = C::one();
        proof {
            amount.lemma_from_value();
        }
        NonZero { amount }
    }

    /// The wrapped amount, which is not zero.
    pub fn get(self) -> (r: C)
        ensures
            r == self.cell(),
            r.value() != 0,
    {
        proof {
            use_type_invariant(&self);
        }
        self.amount
    }
}

/// The cell that holds `v` reduced modulo the cell's modulus.
pub open spec fn wrapped<C: CellType>(v: int) -> C {
    C::from_value(v % C::modulus())
}

/// The non-zero amount with value `v`; meaningful for `0 < v < modulus()`.
pub open spec fn amount<C: CellType>(v: int) -> NonZero<C> {
    NonZero::from_cell(C::from_value(v))
}

/// The amount with value `v` has that value.
pub proof fn lemma_amount_value<C: CellType>(v: int)
    requires
        0 <= v < C::modulus(),
    ensures
        amount::<C>(v).value() == v,
        amount::<C>(v).cell() == C::from_value(v),
{
    C::lemma_value_of(v);
    NonZero::<C>::lemma_cell_of(C::from_value(v));
}

/// An amount is the amount of its value.
pub proof fn lemma_amount_of<C: CellType>(a: NonZero<C>)
    ensures
        amount::<C>(a.value()) == a,
{
    a.cell().lemma_from_value();
    a.lemma_from_cell();
}

} // verus!
