use vstd::prelude::*;
use vstd::arithmetic::power::pow;
use num::bigint::BigInt;
use num::rational::BigRational;
use num::traits::Pow;
use num::traits::ToPrimitive;
use crate::lexer::{digits_value, is_digit_in};

verus! {

/// Unsigned value of little-endian base-256 digits.
pub open spec fn le_value(b: Seq<u8>) -> nat
    decreases b.len(),
{
    if b.len() == 0 {
        0
    } else {
        b[0] as nat + 256 * le_value(b.skip(1))
    }
}

/// Value of a little-endian two's-complement byte string (empty means zero).
pub open spec fn signed_value(b: Seq<u8>) -> int {
    if b.len() > 0 && b.last() >= 128 {
        le_value(b) - pow(256, b.len())
    } else {
        le_value(b) as int
    }
}

pub open spec fn abs(a: int) -> nat {
    if a < 0 { (-a) as nat } else { a as nat }
}

pub open spec fn gcd(a: nat, b: nat) -> nat
    decreases b,
{
    if b == 0 { a } else { gcd(b, a % b) }
}

/// A rational number as (numerator, denominator).
pub type Rat = (int, int);

/// Lowest terms with a positive denominator.
pub open spec fn norm(n: int, d: int) -> Rat {
    let g = gcd(abs(n), abs(d)) as int;
    if d < 0 {
        (-(n / g), -(d / g))
    } else {
        (n / g, d / g)
    }
}

pub open spec fn is_reduced(r: Rat) -> bool {
    r.1 > 0 && gcd(abs(r.0), r.1 as nat) == 1
}

pub open spec fn rat_of(i: int) -> Rat {
    (i, 1)
}

/// An integer over one is already in lowest terms.
pub proof fn lemma_norm_int(x: int)
    ensures
        norm(x, 1) == rat_of(x),
{
    assert(gcd(abs(x), 1) == 1) by {
        assert(abs(x) % 1 == 0);
        assert(gcd(1, 0) == 1);
    }
    assert(abs(1) == 1);
    assert(x / 1 == x);
}

pub open spec fn rat_add(a: Rat, b: Rat) -> Rat {
    norm(a.0 * b.1 + b.0 * a.1, a.1 * b.1)
}

pub open spec fn rat_sub(a: Rat, b: Rat) -> Rat {
    norm(a.0 * b.1 - b.0 * a.1, a.1 * b.1)
}

pub open spec fn rat_mul(a: Rat, b: Rat) -> Rat {
    norm(a.0 * b.0, a.1 * b.1)
}

pub open spec fn rat_div(a: Rat, b: Rat) -> Rat {
    norm(a.0 * b.1, a.1 * b.0)
}

/// `a` raised to the integer power `e`; a negative power is the reciprocal's.
pub open spec fn rat_pow(a: Rat, e: int) -> Rat {
    if e >= 0 {
        norm(pow(a.0, e as nat), pow(a.1, e as nat))
    } else {
        norm(pow(a.1, (-e) as nat), pow(a.0, (-e) as nat))
    }
}

pub open spec fn rat_le(a: Rat, b: Rat) -> bool {
    a.0 * b.1 <= b.0 * a.1
}

pub enum BitwiseOp {
    And,
    Or,
    Xor,
}

pub open spec fn combine_bits(op: BitwiseOp, x: bool, y: bool) -> bool {
    match op {
        BitwiseOp::And => x && y,
        BitwiseOp::Or => x || y,
        BitwiseOp::Xor => x != y,
    }
}

/// A bitwise operation on the infinite two's-complement expansions of `a` and `b`:
/// once both are `0` or `-1` every remaining bit is the sign bit.
pub open spec fn bitwise(op: BitwiseOp, a: int, b: int) -> int
    decreases abs(a) + abs(b),
{
    if (a == 0 || a == -1) && (b == 0 || b == -1) {
        if combine_bits(op, a == -1, b == -1) { -1 } else { 0 }
    } else {
        2 * bitwise(op, a / 2, b / 2) + if combine_bits(op, a % 2 == 1, b % 2 == 1) { 1int } else { 0int }
    }
}

pub open spec fn pow2(k: nat) -> int {
    pow(2, k)
}

pub open spec fn digit_char(d: nat) -> char {
    ((d + 48) as u8) as char
}

/// Decimal digits of `n`, most significant first.
pub open spec fn nat_text(n: nat) -> Seq<char>
    decreases n,
{
    if n < 10 {
        seq![digit_char(n)]
    } else {
        nat_text(n / 10) + seq![digit_char(n % 10)]
    }
}

pub open spec fn int_text(i: int) -> Seq<char> {
    if i < 0 { seq!['-'] + nat_text((-i) as nat) } else { nat_text(i as nat) }
}

/// `n` for an integer, else `n/d`.
pub open spec fn rat_text(r: Rat) -> Seq<char> {
    if r.1 == 1 { int_text(r.0) } else { int_text(r.0) + seq!['/'] + int_text(r.1) }
}

/// An exact rational number of any size, kept in lowest terms.
#[derive(Debug, PartialEq, Eq)]
pub struct Num {
    /// Numerator, little-endian two's complement.
    numer: Vec<u8>,
    /// Denominator, little-endian two's complement; always positive.
    denom: Vec<u8>,
}

impl View for Num {
    type V = Rat;

    closed spec fn view(&self) -> Rat {
        (signed_value(self.numer@), signed_value(self.denom@))
    }
}

impl Clone for Num {
    fn clone(&self) -> (r: Num)
        ensures
            r@ == self@,
    {
        proof {
            use_type_invariant(self);
        }
        Num { numer: self.numer.clone(), denom: self.denom.clone() }
    }
}

impl Num {
    /// The fraction `n / d`, in lowest terms.
    pub fn fraction(n: i64, d: i64) -> (r: Num)
        requires
            d != 0,
        ensures
            r@ == rat_div(rat_of(n as int), rat_of(d as int)),
    {
        num_div(&to_num(n), &to_num(d))
    }

    /// The number in decimal: `n`, or `n/d` when it is not an integer.
    pub fn to_text(&self) -> (r: String)
        ensures
            r@ == rat_text(self@),
    {
        num_text(self)
    }

    #[verifier::type_invariant]
    closed spec fn reduced(self) -> bool {
        is_reduced(self@)
    }
}

/// Relies on `Ratio::from_integer` and `BigInt: From<i64>`: the integer `i`, over one.
#[verifier::external_body]
pub fn to_num(i: i64) -> (r: Num)
    ensures
        r@ == rat_of(i as int),
{
    let q = BigRational::from_integer(BigInt::from(i));
    Num { numer: q.numer().to_signed_bytes_le(), denom: q.denom().to_signed_bytes_le() }
}

/// Relies on `Ratio`'s `Display`: the numerator in decimal, then `/` and the denominator
/// unless the denominator is one.
#[verifier::external_body]
pub(crate) fn num_text(a: &Num) -> (r: String)
    ensures
        r@ == rat_text(a@),
{
    BigRational::new_raw(BigInt::from_signed_bytes_le(&a.numer), BigInt::from_signed_bytes_le(&a.denom)).to_string()
}

/// Relies on `Ratio::from_integer` and `BigInt: From<u64>`: the integer `n`, over one.
#[verifier::external_body]
pub(crate) fn num_from_u64(n: u64) -> (r: Num)
    ensures
        r@ == rat_of(n as int),
{
    let q = BigRational::from_integer(BigInt::from(n));
    Num { numer: q.numer().to_signed_bytes_le(), denom: q.denom().to_signed_bytes_le() }
}

/// Relies on `Ratio`'s `Add`: the exact sum, reduced.
#[verifier::external_body]
pub(crate) fn num_add(a: &Num, b: &Num) -> (r: Num)
    ensures
        r@ == rat_add(a@, b@),
{
    let x = BigRational::new_raw(BigInt::from_signed_bytes_le(&a.numer), BigInt::from_signed_bytes_le(&a.denom));
    let y = BigRational::new_raw(BigInt::from_signed_bytes_le(&b.numer), BigInt::from_signed_bytes_le(&b.denom));
    let q = x + y;
    Num { numer: q.numer().to_signed_bytes_le(), denom: q.denom().to_signed_bytes_le() }
}


/// Relies on `Ratio`'s `Sub`: the exact difference, reduced.
#[verifier::external_body]
pub(crate) fn num_sub(a: &Num, b: &Num) -> (r: Num)
    ensures
        r@ == rat_sub(a@, b@),
{
    let x = BigRational::new_raw(BigInt::from_signed_bytes_le(&a.numer), BigInt::from_signed_bytes_le(&a.denom));
    let y = BigRational::new_raw(BigInt::from_signed_bytes_le(&b.numer), BigInt::from_signed_bytes_le(&b.denom));
    let q = x - y;
    Num { numer: q.numer().to_signed_bytes_le(), denom: q.denom().to_signed_bytes_le() }
}

/// Relies on `Ratio`'s `Mul`: the exact product, reduced.
#[verifier::external_body]
pub(crate) fn num_mul(a: &Num, b: &Num) -> (r: Num)
    ensures
        r@ == rat_mul(a@, b@),
{
    let x = BigRational::new_raw(BigInt::from_signed_bytes_le(&a.numer), BigInt::from_signed_bytes_le(&a.denom));
    let y = BigRational::new_raw(BigInt::from_signed_bytes_le(&b.numer), BigInt::from_signed_bytes_le(&b.denom));
    let q = x * y;
    Num { numer: q.numer().to_signed_bytes_le(), denom: q.denom().to_signed_bytes_le() }
}

/// Relies on `Ratio`'s `Div`: the exact quotient, reduced; it panics on a zero divisor.
#[verifier::external_body]
pub(crate) fn num_div(a: &Num, b: &Num) -> (r: Num)
    requires
        b@.0 != 0,
    ensures
        r@ == rat_div(a@, b@),
{
    let x = BigRational::new_raw(BigInt::from_signed_bytes_le(&a.numer), BigInt::from_signed_bytes_le(&a.denom));
    let y = BigRational::new_raw(BigInt::from_signed_bytes_le(&b.numer), BigInt::from_signed_bytes_le(&b.denom));
    let q = x / y;
    Num { numer: q.numer().to_signed_bytes_le(), denom: q.denom().to_signed_bytes_le() }
}

/// Relies on `Ratio`'s `Pow<BigInt>`: `a` to the power `e`, through the reciprocal when `e`
/// is negative, which panics on zero.
#[verifier::external_body]
pub(crate) fn num_pow(a: &Num, e: &Num) -> (r: Num)
    requires
        e@.1 == 1,
        a@.0 == 0 ==> e@.0 >= 0,
    ensures
        r@ == rat_pow(a@, e@.0),
{
    let x = BigRational::new_raw(BigInt::from_signed_bytes_le(&a.numer), BigInt::from_signed_bytes_le(&a.denom));
    let q = Pow::pow(x, BigInt::from_signed_bytes_le(&e.numer));
    Num { numer: q.numer().to_signed_bytes_le(), denom: q.denom().to_signed_bytes_le() }
}

/// Relies on `Ratio::is_integer`: whether the reduced denominator is one.
#[verifier::external_body]
pub(crate) fn num_is_integer(a: &Num) -> (r: bool)
    ensures
        r == (a@.1 == 1),
{
    BigRational::new_raw(BigInt::from_signed_bytes_le(&a.numer), BigInt::from_signed_bytes_le(&a.denom)).is_integer()
}

/// Relies on `Ratio`'s `PartialOrd`: the order of the two values.
#[verifier::external_body]
pub(crate) fn num_le(a: &Num, b: &Num) -> (r: bool)
    ensures
        r == rat_le(a@, b@),
{
    let x = BigRational::new_raw(BigInt::from_signed_bytes_le(&a.numer), BigInt::from_signed_bytes_le(&a.denom));
    let y = BigRational::new_raw(BigInt::from_signed_bytes_le(&b.numer), BigInt::from_signed_bytes_le(&b.denom));
    x <= y
}

/// Relies on `BigInt`'s `ToPrimitive::to_i64`: the integer when it fits in an `i64`.
#[verifier::external_body]
pub(crate) fn num_to_i64(a: &Num) -> (r: Option<i64>)
    requires
        a@.1 == 1,
    ensures
        r == (if i64::MIN <= a@.0 <= i64::MAX { Some(a@.0 as i64) } else { None::<i64> }),
{
    BigInt::from_signed_bytes_le(&a.numer).to_i64()
}

/// Relies on `BigInt`'s `BitAnd`: the two's-complement bitwise and of two integers.
#[verifier::external_body]
pub(crate) fn num_bitand(a: &Num, b: &Num) -> (r: Num)
    requires
        a@.1 == 1,
        b@.1 == 1,
    ensures
        r@ == rat_of(bitwise(BitwiseOp::And, a@.0, b@.0)),
{
    let q = BigRational::from_integer(BigInt::from_signed_bytes_le(&a.numer) & BigInt::from_signed_bytes_le(&b.numer));
    Num { numer: q.numer().to_signed_bytes_le(), denom: q.denom().to_signed_bytes_le() }
}

/// Relies on `BigInt`'s `BitOr`: the two's-complement bitwise or of two integers.
#[verifier::external_body]
pub(crate) fn num_bitor(a: &Num, b: &Num) -> (r: Num)
    requires
        a@.1 == 1,
        b@.1 == 1,
    ensures
        r@ == rat_of(bitwise(BitwiseOp::Or, a@.0, b@.0)),
{
    let q = BigRational::from_integer(BigInt::from_signed_bytes_le(&a.numer) | BigInt::from_signed_bytes_le(&b.numer));
    Num { numer: q.numer().to_signed_bytes_le(), denom: q.denom().to_signed_bytes_le() }
}

/// Relies on `BigInt`'s `BitXor`: the two's-complement bitwise exclusive or of two integers.
#[verifier::external_body]
pub(crate) fn num_bitxor(a: &Num, b: &Num) -> (r: Num)
    requires
        a@.1 == 1,
        b@.1 == 1,
    ensures
        r@ == rat_of(bitwise(BitwiseOp::Xor, a@.0, b@.0)),
{
    let q = BigRational::from_integer(BigInt::from_signed_bytes_le(&a.numer) ^ BigInt::from_signed_bytes_le(&b.numer));
    Num { numer: q.numer().to_signed_bytes_le(), denom: q.denom().to_signed_bytes_le() }
}

/// Relies on `BigInt`'s `Shl<u64>`: the integer times two to the power `k`.
#[verifier::external_body]
pub(crate) fn num_shl(a: &Num, k: u64) -> (r: Num)
    requires
        a@.1 == 1,
    ensures
        r@ == rat_of(a@.0 * pow2(k as nat)),
{
    let q = BigRational::from_integer(BigInt::from_signed_bytes_le(&a.numer) << k);
    Num { numer: q.numer().to_signed_bytes_le(), denom: q.denom().to_signed_bytes_le() }
}

/// Relies on `BigInt`'s `Shr<u64>`: the integer divided by two to the power `k`, rounded
/// toward negative infinity.
#[verifier::external_body]
pub(crate) fn num_shr(a: &Num, k: u64) -> (r: Num)
    requires
        a@.1 == 1,
    ensures
        r@ == rat_of(a@.0 / pow2(k as nat)),
{
    let q = BigRational::from_integer(BigInt::from_signed_bytes_le(&a.numer) >> k);
    Num { numer: q.numer().to_signed_bytes_le(), denom: q.denom().to_signed_bytes_le() }
}

/// Relies on `BigInt::parse_bytes`: the digits `b[start..end]` read in `radix`, most
/// significant first; it returns `None` only for an empty or ill-formed string.
#[verifier::external_body]
pub(crate) fn parse_digits(b: &[u8], start: usize, end: usize, radix: u32) -> (r: Num)
    requires
        start < end <= b@.len(),
        radix == 2 || radix == 8 || radix == 10 || radix == 16,
        forall|i: int| start <= i < end ==> is_digit_in(#[trigger] b@[i], radix as nat),
    ensures
        r@ == rat_of(digits_value(b@.subrange(start as int, end as int), radix as nat) as int),
{
    let q = BigRational::from_integer(BigInt::parse_bytes(&b[start..end], radix).unwrap());
    Num { numer: q.numer().to_signed_bytes_le(), denom: q.denom().to_signed_bytes_le() }
}

} // verus!
