//! Recovering an RSA modulus from two plaintext/ciphertext pairs encrypted
//! with the exponent 65537: `n` divides `p^e - c` for each pair, so the
//! greatest common divisor of the two differences is printed.
use vstd::prelude::*;
use vstd::arithmetic::power::pow;
use num::BigUint;
use crate::text::decimal;

verus! {

/// The public exponent.
pub const EXPONENT: usize = 65537;

/// The value of a big-endian byte string.
pub open spec fn be_value(b: Seq<u8>) -> nat
    decreases b.len(),
{
    if b.len() == 0 {
        0
    } else {
        be_value(b.drop_last()) * 256 + (b.last() as nat)
    }
}

/// The greatest common divisor, by Euclid's algorithm (`gcd(a, 0) = a`).
pub open spec fn gcd(a: nat, b: nat) -> nat
    decreases b,
{
    if b == 0 {
        a
    } else {
        gcd(b, a % b)
    }
}

/// `d` divides `x`.
pub open spec fn divides(d: int, x: int) -> bool {
    exists|k: int| #[trigger] (d * k) == x
}

/// `num::pow::pow` on a `BigUint` read from and written back to big-endian
/// bytes: the base raised to the exponent.
#[verifier::external_body]
fn big_pow(base: &[u8], exp: usize) -> (r: Vec<u8>)
    ensures
        be_value(r@) == pow(be_value(base@) as int, exp as nat),
{
    num::pow::pow(BigUint::from_bytes_be(base), exp).to_bytes_be()
}

/// `CheckedSub::checked_sub` on `BigUint`s given as big-endian bytes: the
/// difference, or `None` where it would be negative.
#[verifier::external_body]
fn big_checked_sub(a: &[u8], b: &[u8]) -> (r: Option<Vec<u8>>)
    ensures
        match r {
            Some(d) => be_value(a@) >= be_value(b@) && be_value(d@) == be_value(a@) - be_value(b@),
            None => be_value(a@) < be_value(b@),
        },
{
    match num::CheckedSub::checked_sub(&BigUint::from_bytes_be(a), &BigUint::from_bytes_be(b)) {
        Some(d) => Some(d.to_bytes_be()),
        None => None,
    }
}

/// `num::integer::gcd` on `BigUint`s given as big-endian bytes: the
/// greatest common divisor (0 for two zeros).
#[verifier::external_body]
fn big_gcd(a: &[u8], b: &[u8]) -> (r: Vec<u8>)
    ensures
        be_value(r@) == gcd(be_value(a@), be_value(b@)),
{
    num::integer::gcd(BigUint::from_bytes_be(a), BigUint::from_bytes_be(b)).to_bytes_be()
}

/// `Display` of a `BigUint` given as big-endian bytes: its decimal digits.
#[verifier::external_body]
fn big_decimal(a: &[u8]) -> (r: String)
    ensures
        r@ == decimal(be_value(a@)),
{
    format!("{}", BigUint::from_bytes_be(a))
}

/// The decimal greatest common divisor of `p1^65537 - c1` and
/// `p2^65537 - c2`, all numbers given as big-endian bytes; `None` where a
/// difference would be negative.
pub fn recover_modulus(c1: &[u8], c2: &[u8], p1: &[u8], p2: &[u8]) -> (r: Option<String>)
    ensures
        ({
            let e = EXPONENT as nat;
            let a = pow(be_value(p1@) as int, e);
            let b = pow(be_value(p2@) as int, e);
            match r {
                Some(s) => a >= be_value(c1@) && b >= be_value(c2@) && s@ == decimal(
                    gcd((a - be_value(c1@)) as nat, (b - be_value(c2@)) as nat),
                ),
                None => a < be_value(c1@) || b < be_value(c2@),
            }
        }),
{
    let p1e = big_pow(p1, EXPONENT);
    let d1 = match big_checked_sub(p1e.as_slice(), c1) {
        Some(d) => d,
        None => {
            return None;
        },
    };
    let p2e = big_pow(p2, EXPONENT);
    let d2 = match big_checked_sub(p2e.as_slice(), c2) {
        Some(d) => d,
        None => {
            return None;
        },
    };
    let g = big_gcd(d1.as_slice(), d2.as_slice());
    Some(big_decimal(g.as_slice()))
}

/// The greatest common divisor divides both numbers: the printed number
/// divides both differences, as the modulus does.
pub proof fn lemma_gcd_divides(a: nat, b: nat)
    ensures
        divides(gcd(a, b) as int, a as int),
        divides(gcd(a, b) as int, b as int),
    decreases b,
{
    if b == 0 {
        assert(gcd(a, b) * 1 == a);
        assert(gcd(a, b) * 0 == 0);
    } else {
        let r = a % b;
        lemma_gcd_divides(b, r);
        let d = gcd(a, b) as int;
        assert(d == gcd(b, r));
        let k1 = choose|k: int| #[trigger] (d * k) == b as int;
        let k2 = choose|k: int| #[trigger] (d * k) == r as int;
        let q = (a / b) as int;
        assert(a as int == b * q + r) by {
            vstd::arithmetic::div_mod::lemma_fundamental_div_mod(a as int, b as int);
        }
        assert(d * (k1 * q + k2) == a as int) by (nonlinear_arith)
            requires
                d * k1 == b as int,
                d * k2 == r as int,
                a as int == b * q + r,
        ;
    }
}

/// Any common divisor of the two numbers divides their greatest common
/// divisor.
pub proof fn lemma_gcd_greatest(a: nat, b: nat, d: int)
    requires
        divides(d, a as int),
        divides(d, b as int),
    ensures
        divides(d, gcd(a, b) as int),
    decreases b,
{
    if b > 0 {
        let r = a % b;
        let ka = choose|k: int| #[trigger] (d * k) == a as int;
        let kb = choose|k: int| #[trigger] (d * k) == b as int;
        let q = (a / b) as int;
        assert(a as int == b * q + r) by {
            vstd::arithmetic::div_mod::lemma_fundamental_div_mod(a as int, b as int);
        }
        assert(d * (ka - kb * q) == r as int) by (nonlinear_arith)
            requires
                d * ka == a as int,
                d * kb == b as int,
                a as int == b * q + r,
        ;
        lemma_gcd_greatest(b, r, d);
    }
}

} // verus!
