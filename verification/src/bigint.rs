//! Trusted view of `num_bigint::BigUint` as a mathematical natural number,
//! with wrappers for the handful of operations the circuit engine needs.
use vstd::prelude::*;
use num_bigint::BigUint;

verus! {

#[verifier::external_type_specification]
#[verifier::external_body]
pub struct ExBigUint(BigUint);

/// The natural number that a `BigUint` stands for.
pub uninterp spec fn big(b: BigUint) -> nat;

/// Whether `w` is a multiplicative inverse of `a` modulo `p`, reduced into
/// `[0, p)`.
pub open spec fn is_inverse(a: nat, w: nat, p: nat) -> bool {
    w < p && (a * w) % p == 1nat % p
}

/// Relies on `<BigUint as From<u64>>::from`: the value is the given integer.
#[verifier::external_body]
pub fn big_from_u64(x: u64) -> (r: BigUint)
    ensures
        big(r) == x as nat,
{
    BigUint::from(x)
}

/// Relies on `<BigUint as Clone>::clone`: the value is unchanged.
#[verifier::external_body]
pub fn big_clone(a: &BigUint) -> (r: BigUint)
    ensures
        big(r) == big(*a),
{
    a.clone()
}

/// Relies on `<BigUint as PartialEq>::eq`: equality of the two values.
#[verifier::external_body]
pub fn big_eq(a: &BigUint, b: &BigUint) -> (r: bool)
    ensures
        r == (big(*a) == big(*b)),
{
    a == b
}

/// Relies on `<BigUint as PartialOrd>::lt`: the strict order on the values.
#[verifier::external_body]
pub fn big_lt(a: &BigUint, b: &BigUint) -> (r: bool)
    ensures
        r == (big(*a) < big(*b)),
{
    a < b
}

/// Relies on `<&BigUint as core::ops::Add>::add`: exact addition.
#[verifier::external_body]
pub fn big_add(a: &BigUint, b: &BigUint) -> (r: BigUint)
    ensures
        big(r) == big(*a) + big(*b),
{
    a + b
}

/// Relies on `<&BigUint as core::ops::Sub>::sub`: exact subtraction.  The
/// operation panics on underflow, so the smaller value must be on the right.
#[verifier::external_body]
pub fn big_sub(a: &BigUint, b: &BigUint) -> (r: BigUint)
    requires
        big(*b) <= big(*a),
    ensures
        big(r) == big(*a) - big(*b),
{
    a - b
}

/// Relies on `<&BigUint as core::ops::Mul>::mul`: exact multiplication.
#[verifier::external_body]
pub fn big_mul(a: &BigUint, b: &BigUint) -> (r: BigUint)
    ensures
        big(r) == big(*a) * big(*b),
{
    a * b
}

/// Relies on `<&BigUint as core::ops::Rem>::rem`: the Euclidean remainder.
/// The operation panics on a zero divisor, so that case is excluded.
#[verifier::external_body]
pub fn big_rem(a: &BigUint, m: &BigUint) -> (r: BigUint)
    requires
        big(*m) > 0,
    ensures
        big(r) == big(*a) % big(*m),
{
    a % m
}

/// The character of one decimal digit.
pub open spec fn digit_char(d: nat) -> char {
    if d == 0 {
        '0'
    } else if d == 1 {
        '1'
    } else if d == 2 {
        '2'
    } else if d == 3 {
        '3'
    } else if d == 4 {
        '4'
    } else if d == 5 {
        '5'
    } else if d == 6 {
        '6'
    } else if d == 7 {
        '7'
    } else if d == 8 {
        '8'
    } else {
        '9'
    }
}

/// The decimal rendering of a natural number, most significant digit first,
/// without leading zeroes.
pub open spec fn dec_str(n: nat) -> Seq<char>
    decreases n,
{
    if n < 10 {
        seq![digit_char(n)]
    } else {
        dec_str(n / 10) + seq![digit_char(n % 10)]
    }
}

/// Relies on `<BigUint as core::fmt::Display>`, reached through `ToString`:
/// the value rendered as its decimal digits.
#[verifier::external_body]
pub fn big_to_decimal(b: &BigUint) -> (r: String)
    ensures
        r@ == dec_str(big(*b)),
{
    b.to_string()
}

/// Relies on `BigUint::modinv`: the result is the multiplicative inverse of
/// `a` in `[0, m)` when one exists, and `None` exactly when none exists.
/// The operation panics on a zero modulus, so that case is excluded.
#[verifier::external_body]
pub fn big_modinv(a: &BigUint, m: &BigUint) -> (r: Option<BigUint>)
    requires
        big(*m) > 0,
    ensures
        match r {
            Some(v) => is_inverse(big(*a), big(v), big(*m)),
            None => !(exists|w: nat| is_inverse(big(*a), w, big(*m))),
        },
{
    a.modinv(m)
}

} // verus!
