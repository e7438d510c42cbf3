//! What dense and sparse matrices have in common: the element type and the
//! arithmetic it obeys.

use vstd::prelude::*;
use crate::random::random_in;
use vstd::arithmetic::div_mod::{
    lemma_add_mod_noop, lemma_mod_multiples_vanish, lemma_mul_mod_noop, lemma_small_mod,
    lemma_sub_mod_noop,
};

verus! {

/// The representative of `x` modulo `m` that lies in `[-m/2, m/2)`.
///
/// For `m = 2^N` this is what two's complement arithmetic on `N` bits keeps
/// of the exact result `x`.
pub open spec fn wrap_signed(x: int, m: int) -> int {
    let r = x % m;
    if 2 * r >= m {
        r - m
    } else {
        r
    }
}

/// What arithmetic on elements of type `T` keeps of the exact result `x`.
pub open spec fn wrap<T: MatrixElement>(x: int) -> int {
    wrap_signed(x, T::modulus())
}

/// Quotient of `a` by `b` rounded towards zero, as machine division does.
pub open spec fn trunc_div(a: int, b: int) -> int {
    if a >= 0 && b > 0 {
        a / b
    } else if a < 0 && b < 0 {
        (-a) / (-b)
    } else if a < 0 {
        -((-a) / b)
    } else {
        -(a / (-b))
    }
}

/// A number that can be stored in a matrix.
///
/// An element stands for a mathematical integer, its `value`, taken from the
/// range `[-modulus/2, modulus/2)`. Arithmetic never fails: sums, differences
/// and products are exact whenever the exact result is in range, and wrap
/// around modulo `modulus` otherwise.
pub trait MatrixElement: Copy + Send + Sync + Sized {
    /// The integer that the element stands for.
    spec fn value(self) -> int;

    /// How many values the type has.
    spec fn modulus() -> int;

    /// The range of the type is symmetric around zero and holds 0 and 1.
    proof fn lemma_modulus()
        ensures
            Self::modulus() >= 4,
            Self::modulus() % 2 == 0,
    ;

    /// Every element lies in the range of its type.
    proof fn lemma_value_in_range(self)
        ensures
            2 * self.value() >= -Self::modulus(),
            2 * self.value() < Self::modulus(),
    ;

    /// The range of the type lies within that of 128 bits.
    proof fn lemma_fits_i128()
        ensures
            Self::modulus() <= 0x1_0000_0000_0000_0000_0000_0000_0000_0000int,
    ;

    /// Two elements with the same value are the same element.
    proof fn lemma_value_injective(self, other: Self)
        requires
            self.value() == other.value(),
        ensures
            self == other,
    ;

    /// The additive identity.
    fn zero() -> (r: Self)
        ensures
            r.value() == 0,
    ;

    /// The multiplicative identity.
    fn one() -> (r: Self)
        ensures
            r.value() == 1,
    ;

    /// Sum, wrapping around at the boundary of the type.
    fn wrapping_add(self, rhs: Self) -> (r: Self)
        ensures
            r.value() == wrap_signed(self.value() + rhs.value(), Self::modulus()),
    ;

    /// Difference, wrapping around at the boundary of the type.
    fn wrapping_sub(self, rhs: Self) -> (r: Self)
        ensures
            r.value() == wrap_signed(self.value() - rhs.value(), Self::modulus()),
    ;

    /// Product, wrapping around at the boundary of the type.
    fn wrapping_mul(self, rhs: Self) -> (r: Self)
        ensures
            r.value() == wrap_signed(self.value() * rhs.value(), Self::modulus()),
    ;

    /// Quotient rounded towards zero. The one quotient that is out of range,
    /// the smallest value divided by -1, wraps around to the smallest value.
    fn wrapping_div(self, rhs: Self) -> (r: Self)
        requires
            rhs.value() != 0,
        ensures
            r.value() == wrap_signed(trunc_div(self.value(), rhs.value()), Self::modulus()),
    ;

    /// Whether `self` is strictly smaller than `rhs`.
    fn less_than(self, rhs: Self) -> (r: bool)
        ensures
            r == (self.value() < rhs.value()),
    ;

    /// Whether `self` and `rhs` are the same number.
    fn equals(self, rhs: Self) -> (r: bool)
        ensures
            r == (self == rhs),
    ;

    /// The element that stands for the count `n`, or `None` where `n` is
    /// out of the range of the type.
    fn from_usize(n: usize) -> (r: Option<Self>)
        ensures
            r is Some <==> 2 * n < Self::modulus(),
            r is Some ==> r.unwrap().value() == n,
    ;

    /// The integer that the element stands for.
    fn to_i128(self) -> (v: i128)
        ensures
            v == self.value(),
    ;

    /// The name of the type, as Rust writes it.
    spec fn name_text() -> Seq<char>;

    /// The name of the type, as Rust writes it.
    fn name() -> (s: &'static str)
        ensures
            s@ == Self::name_text(),
    ;

    /// The element that stands for `v`, or `None` where `v` is out of the
    /// range of the type.
    fn from_i128(v: i128) -> (r: Option<Self>)
        ensures
            r is Some <==> -Self::modulus() <= 2 * v < Self::modulus(),
            r is Some ==> r.unwrap().value() == v,
    ;

    /// A number drawn at random from `lo` to `hi`, both included.
    fn random_between(lo: Self, hi: Self) -> (r: Self)
        requires
            lo.value() <= hi.value(),
        ensures
            lo.value() <= r.value() <= hi.value(),
    ;
}

impl MatrixElement for i8 {
    open spec fn value(self) -> int {
        self as int
    }

    open spec fn modulus() -> int {
        0x100
    }

    proof fn lemma_modulus() {
    }

    proof fn lemma_value_in_range(self) {
    }

    proof fn lemma_fits_i128() {
    }

    proof fn lemma_value_injective(self, other: Self) {
    }

    fn zero() -> (r: Self) {
        0
    }

    fn one() -> (r: Self) {
        1
    }

    fn wrapping_add(self, rhs: Self) -> (r: Self) {
        self.wrapping_add(rhs)
    }

    fn wrapping_sub(self, rhs: Self) -> (r: Self) {
        self.wrapping_sub(rhs)
    }

    fn wrapping_mul(self, rhs: Self) -> (r: Self) {
        self.wrapping_mul(rhs)
    }

    fn wrapping_div(self, rhs: Self) -> (r: Self) {
        match self.checked_div(rhs) {
            Some(q) => q,
            None => self,
        }
    }

    fn less_than(self, rhs: Self) -> (r: bool) {
        self < rhs
    }

    fn equals(self, rhs: Self) -> (r: bool) {
        self == rhs
    }

    fn from_usize(n: usize) -> (r: Option<Self>) {
        if n as u128 <= i8::MAX as u128 {
            Some(n as i8)
        } else {
            None
        }
    }

    fn random_between(lo: Self, hi: Self) -> (r: Self) {
        random_in(lo as i128, hi as i128) as i8
    }

    fn from_i128(v: i128) -> (r: Option<Self>) {
        if i8::MIN as i128 <= v && v <= i8::MAX as i128 {
            Some(v as i8)
        } else {
            None
        }
    }

    fn to_i128(self) -> (v: i128) {
        self as i128
    }

    open spec fn name_text() -> Seq<char> {
        "i8"@
    }

    fn name() -> (s: &'static str) {
        "i8"
    }
}

impl MatrixElement for i16 {
    open spec fn value(self) -> int {
        self as int
    }

    open spec fn modulus() -> int {
        0x1_0000
    }

    proof fn lemma_modulus() {
    }

    proof fn lemma_value_in_range(self) {
    }

    proof fn lemma_fits_i128() {
    }

    proof fn lemma_value_injective(self, other: Self) {
    }

    fn zero() -> (r: Self) {
        0
    }

    fn one() -> (r: Self) {
        1
    }

    fn wrapping_add(self, rhs: Self) -> (r: Self) {
        self.wrapping_add(rhs)
    }

    fn wrapping_sub(self, rhs: Self) -> (r: Self) {
        self.wrapping_sub(rhs)
    }

    fn wrapping_mul(self, rhs: Self) -> (r: Self) {
        self.wrapping_mul(rhs)
    }

    fn wrapping_div(self, rhs: Self) -> (r: Self) {
        match self.checked_div(rhs) {
            Some(q) => q,
            None => self,
        }
    }

    fn less_than(self, rhs: Self) -> (r: bool) {
        self < rhs
    }

    fn equals(self, rhs: Self) -> (r: bool) {
        self == rhs
    }

    fn from_usize(n: usize) -> (r: Option<Self>) {
        if n as u128 <= i16::MAX as u128 {
            Some(n as i16)
        } else {
            None
        }
    }

    fn random_between(lo: Self, hi: Self) -> (r: Self) {
        random_in(lo as i128, hi as i128) as i16
    }

    fn from_i128(v: i128) -> (r: Option<Self>) {
        if i16::MIN as i128 <= v && v <= i16::MAX as i128 {
            Some(v as i16)
        } else {
            None
        }
    }

    fn to_i128(self) -> (v: i128) {
        self as i128
    }

    open spec fn name_text() -> Seq<char> {
        "i16"@
    }

    fn name() -> (s: &'static str) {
        "i16"
    }
}

impl MatrixElement for i32 {
    open spec fn value(self) -> int {
        self as int
    }

    open spec fn modulus() -> int {
        0x1_0000_0000
    }

    proof fn lemma_modulus() {
    }

    proof fn lemma_value_in_range(self) {
    }

    proof fn lemma_fits_i128() {
    }

    proof fn lemma_value_injective(self, other: Self) {
    }

    fn zero() -> (r: Self) {
        0
    }

    fn one() -> (r: Self) {
        1
    }

    fn wrapping_add(self, rhs: Self) -> (r: Self) {
        self.wrapping_add(rhs)
    }

    fn wrapping_sub(self, rhs: Self) -> (r: Self) {
        self.wrapping_sub(rhs)
    }

    fn wrapping_mul(self, rhs: Self) -> (r: Self) {
        self.wrapping_mul(rhs)
    }

    fn wrapping_div(self, rhs: Self) -> (r: Self) {
        match self.checked_div(rhs) {
            Some(q) => q,
            None => self,
        }
    }

    fn less_than(self, rhs: Self) -> (r: bool) {
        self < rhs
    }

    fn equals(self, rhs: Self) -> (r: bool) {
        self == rhs
    }

    fn from_usize(n: usize) -> (r: Option<Self>) {
        if n as u128 <= i32::MAX as u128 {
            Some(n as i32)
        } else {
            None
        }
    }

    fn random_between(lo: Self, hi: Self) -> (r: Self) {
        random_in(lo as i128, hi as i128) as i32
    }

    fn from_i128(v: i128) -> (r: Option<Self>) {
        if i32::MIN as i128 <= v && v <= i32::MAX as i128 {
            Some(v as i32)
        } else {
            None
        }
    }

    fn to_i128(self) -> (v: i128) {
        self as i128
    }

    open spec fn name_text() -> Seq<char> {
        "i32"@
    }

    fn name() -> (s: &'static str) {
        "i32"
    }
}

impl MatrixElement for i64 {
    open spec fn value(self) -> int {
        self as int
    }

    open spec fn modulus() -> int {
        0x1_0000_0000_0000_0000
    }

    proof fn lemma_modulus() {
    }

    proof fn lemma_value_in_range(self) {
    }

    proof fn lemma_fits_i128() {
    }

    proof fn lemma_value_injective(self, other: Self) {
    }

    fn zero() -> (r: Self) {
        0
    }

    fn one() -> (r: Self) {
        1
    }

    fn wrapping_add(self, rhs: Self) -> (r: Self) {
        self.wrapping_add(rhs)
    }

    fn wrapping_sub(self, rhs: Self) -> (r: Self) {
        self.wrapping_sub(rhs)
    }

    fn wrapping_mul(self, rhs: Self) -> (r: Self) {
        self.wrapping_mul(rhs)
    }

    fn wrapping_div(self, rhs: Self) -> (r: Self) {
        match self.checked_div(rhs) {
            Some(q) => q,
            None => self,
        }
    }

    fn less_than(self, rhs: Self) -> (r: bool) {
        self < rhs
    }

    fn equals(self, rhs: Self) -> (r: bool) {
        self == rhs
    }

    fn from_usize(n: usize) -> (r: Option<Self>) {
        if n as u128 <= i64::MAX as u128 {
            Some(n as i64)
        } else {
            None
        }
    }

    fn random_between(lo: Self, hi: Self) -> (r: Self) {
        random_in(lo as i128, hi as i128) as i64
    }

    fn from_i128(v: i128) -> (r: Option<Self>) {
        if i64::MIN as i128 <= v && v <= i64::MAX as i128 {
            Some(v as i64)
        } else {
            None
        }
    }

    fn to_i128(self) -> (v: i128) {
        self as i128
    }

    open spec fn name_text() -> Seq<char> {
        "i64"@
    }

    fn name() -> (s: &'static str) {
        "i64"
    }
}

impl MatrixElement for i128 {
    open spec fn value(self) -> int {
        self as int
    }

    open spec fn modulus() -> int {
        0x1_0000_0000_0000_0000_0000_0000_0000_0000int
    }

    proof fn lemma_modulus() {
    }

    proof fn lemma_value_in_range(self) {
    }

    proof fn lemma_fits_i128() {
    }

    proof fn lemma_value_injective(self, other: Self) {
    }

    fn zero() -> (r: Self) {
        0
    }

    fn one() -> (r: Self) {
        1
    }

    fn wrapping_add(self, rhs: Self) -> (r: Self) {
        self.wrapping_add(rhs)
    }

    fn wrapping_sub(self, rhs: Self) -> (r: Self) {
        self.wrapping_sub(rhs)
    }

    fn wrapping_mul(self, rhs: Self) -> (r: Self) {
        self.wrapping_mul(rhs)
    }

    fn wrapping_div(self, rhs: Self) -> (r: Self) {
        match self.checked_div(rhs) {
            Some(q) => q,
            None => self,
        }
    }

    fn less_than(self, rhs: Self) -> (r: bool) {
        self < rhs
    }

    fn equals(self, rhs: Self) -> (r: bool) {
        self == rhs
    }

    fn from_usize(n: usize) -> (r: Option<Self>) {
        Some(n as i128)
    }

    fn random_between(lo: Self, hi: Self) -> (r: Self) {
        random_in(lo, hi)
    }

    fn from_i128(v: i128) -> (r: Option<Self>) {
        Some(v)
    }

    fn to_i128(self) -> (v: i128) {
        self
    }

    open spec fn name_text() -> Seq<char> {
        "i128"@
    }

    fn name() -> (s: &'static str) {
        "i128"
    }
}


/// `b` multiplied `e` times with itself; 1 for `e == 0`.
pub open spec fn power_of(b: int, e: nat) -> int
    decreases e,
{
    if e == 0 {
        1
    } else {
        power_of(b, (e - 1) as nat) * b
    }
}

/// `base` raised to the power `exp`.
pub fn power<T: MatrixElement>(base: T, exp: usize) -> (r: T)
    ensures
        r.value() == wrap::<T>(power_of(base.value(), exp as nat)),
{
    let mut acc = T::one();
    let mut e: usize = 0;
    proof {
        T::lemma_modulus();
        lemma_wrap_exact(1, T::modulus());
    }
    while e < exp
        invariant
            e <= exp,
            acc.value() == wrap::<T>(power_of(base.value(), e as nat)),
        decreases exp - e,
    {
        proof {
            T::lemma_modulus();
            lemma_wrap_mul(power_of(base.value(), e as nat), base.value(), T::modulus());
        }
        acc = acc.wrapping_mul(base);
        e += 1;
    }
    acc
}

/// The four element-wise operations that the arithmetic routines share.
#[derive(Clone, Copy, Debug, PartialEq, Eq)]
pub enum Operation {
    ADD,
    SUB,
    MUL,
    DIV,
}

impl Operation {
    /// The exact result of the operation on two integers; the quotient is
    /// rounded towards zero.
    pub open spec fn exact(self, a: int, b: int) -> int {
        match self {
            Operation::ADD => a + b,
            Operation::SUB => a - b,
            Operation::MUL => a * b,
            Operation::DIV => trunc_div(a, b),
        }
    }

    /// Whether the operation is defined on the right operand `b`: all are,
    /// but for the division by zero.
    pub open spec fn defined_on(self, b: int) -> bool {
        self is DIV ==> b != 0
    }

    /// Carries the operation out on two elements.
    pub fn apply<T: MatrixElement>(self, a: T, b: T) -> (r: T)
        requires
            self.defined_on(b.value()),
        ensures
            r.value() == wrap::<T>(self.exact(a.value(), b.value())),
    {
        match self {
            Operation::ADD => a.wrapping_add(b),
            Operation::SUB => a.wrapping_sub(b),
            Operation::MUL => a.wrapping_mul(b),
            Operation::DIV => a.wrapping_div(b),
        }
    }
}

/// Exchanges two numbers.
pub fn swap(lhs: &mut usize, rhs: &mut usize)
    ensures
        *final(lhs) == *old(rhs),
        *final(rhs) == *old(lhs),
{
    let temp = *lhs;
    *lhs = *rhs;
    *rhs = temp;
}


/// Wrapping keeps the residue modulo `m`.
pub proof fn lemma_wrap_residue(x: int, m: int)
    requires
        m > 0,
    ensures
        wrap_signed(x, m) % m == x % m,
        -m <= 2 * wrap_signed(x, m) < m,
{
    let r = x % m;
    if 2 * r >= m {
        lemma_mod_multiples_vanish(-1, r, m);
    }
    lemma_small_mod(r as nat, m as nat);
}

/// A number in range is left as it is.
pub proof fn lemma_wrap_exact(x: int, m: int)
    requires
        m > 0,
        -m <= 2 * x < m,
    ensures
        wrap_signed(x, m) == x,
{
    if x >= 0 {
        lemma_small_mod(x as nat, m as nat);
    } else {
        lemma_small_mod((x + m) as nat, m as nat);
        lemma_mod_multiples_vanish(1, x, m);
    }
}

/// Wrapping an operand of a sum first changes nothing.
pub proof fn lemma_wrap_add(x: int, y: int, m: int)
    requires
        m > 0,
    ensures
        wrap_signed(wrap_signed(x, m) + y, m) == wrap_signed(x + y, m),
        wrap_signed(x + wrap_signed(y, m), m) == wrap_signed(x + y, m),
        wrap_signed(wrap_signed(x, m) + wrap_signed(y, m), m) == wrap_signed(x + y, m),
{
    lemma_wrap_residue(x, m);
    lemma_wrap_residue(y, m);
    lemma_add_mod_noop(x, y, m);
    lemma_add_mod_noop(wrap_signed(x, m), y, m);
    lemma_add_mod_noop(x, wrap_signed(y, m), m);
    lemma_add_mod_noop(wrap_signed(x, m), wrap_signed(y, m), m);
}

/// Wrapping an operand of a difference first changes nothing.
pub proof fn lemma_wrap_sub(x: int, y: int, m: int)
    requires
        m > 0,
    ensures
        wrap_signed(wrap_signed(x, m) - y, m) == wrap_signed(x - y, m),
        wrap_signed(x - wrap_signed(y, m), m) == wrap_signed(x - y, m),
        wrap_signed(wrap_signed(x, m) - wrap_signed(y, m), m) == wrap_signed(x - y, m),
{
    lemma_wrap_residue(x, m);
    lemma_wrap_residue(y, m);
    lemma_sub_mod_noop(x, y, m);
    lemma_sub_mod_noop(wrap_signed(x, m), y, m);
    lemma_sub_mod_noop(x, wrap_signed(y, m), m);
    lemma_sub_mod_noop(wrap_signed(x, m), wrap_signed(y, m), m);
}

/// Wrapping a factor of a product first changes nothing.
pub proof fn lemma_wrap_mul(x: int, y: int, m: int)
    requires
        m > 0,
    ensures
        wrap_signed(wrap_signed(x, m) * y, m) == wrap_signed(x * y, m),
        wrap_signed(x * wrap_signed(y, m), m) == wrap_signed(x * y, m),
        wrap_signed(wrap_signed(x, m) * wrap_signed(y, m), m) == wrap_signed(x * y, m),
{
    lemma_wrap_residue(x, m);
    lemma_wrap_residue(y, m);
    lemma_mul_mod_noop(x, y, m);
    lemma_mul_mod_noop(wrap_signed(x, m), y, m);
    lemma_mul_mod_noop(x, wrap_signed(y, m), m);
    lemma_mul_mod_noop(wrap_signed(x, m), wrap_signed(y, m), m);
}

/// An element's value is left as it is by wrapping.
pub proof fn lemma_wrap_value<T: MatrixElement>(a: T)
    ensures
        wrap::<T>(a.value()) == a.value(),
{
    T::lemma_modulus();
    a.lemma_value_in_range();
    lemma_wrap_exact(a.value(), T::modulus());
}

} // verus!
