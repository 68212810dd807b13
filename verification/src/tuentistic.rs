//! Tuentistic numbers: the most numbers from 20 to 29 that add up to `n`.
use vstd::prelude::*;
use crate::text::{decimal, decimal_string, parsed_u64, parse_u64, chars_of};

verus! {

/// One case: the number to write as a sum.
pub struct Input {
    pub n: u64,
}

/// The numbers that no sum of numbers from 20 to 29 reaches.
pub open spec fn impossible(n: nat) -> bool {
    n <= 19 || (30 <= n && n <= 39) || n == 59
}

/// `n` is a sum of `k >= 1` numbers, each from 20 to 29.
pub open spec fn sum_of(n: nat, k: nat) -> bool {
    k >= 1 && 20 * k <= n && n <= 29 * k
}

/// `IMPOSSIBLE`, or the number of terms, `n / 20`.
pub fn process(input: &Input) -> (r: String)
    ensures
        r@ == (if impossible(input.n as nat) {
            "IMPOSSIBLE"@
        } else {
            decimal((input.n / 20) as nat)
        }),
{
    let n = input.n;
    if n <= 19 || (30 <= n && n <= 39) || n == 59 {
        String::from_str("IMPOSSIBLE")
    } else {
        decimal_string(n / 20)
    }
}

/// The answer is the most terms a sum can have: where `n` is not
/// impossible, it is a sum of `n / 20` terms and of no more; where it is,
/// it is a sum of no number of terms.
pub proof fn lemma_most_terms(n: nat, k: nat)
    ensures
        !impossible(n) ==> sum_of(n, n / 20),
        !impossible(n) && sum_of(n, k) ==> k <= n / 20,
        impossible(n) ==> !sum_of(n, k),
{
    let q = n / 20;
    assert(20 * q <= n < 20 * q + 20);
    if sum_of(n, k) {
        assert(k <= q) by (nonlinear_arith)
            requires
                20 * k <= n,
                n < 20 * q + 20,
        ;
        if impossible(n) {
            assert(false) by (nonlinear_arith)
                requires
                    k >= 1,
                    20 * k <= n,
                    n <= 29 * k,
                    n <= 19 || (30 <= n && n <= 39) || n == 59,
            ;
        }
    }
    if !impossible(n) {
        assert(q >= 1);
        assert(n <= 29 * q) by (nonlinear_arith)
            requires
                q >= 1,
                20 * q <= n < 20 * q + 20,
                !(n <= 19 || (30 <= n && n <= 39) || n == 59),
        ;
    }
}

/// The case on a line: the number; `None` where it is not a `u64`.
pub fn parse_line(line: &str) -> (r: Option<Input>)
    ensures
        match r {
            Some(input) => parsed_u64(line@) == Some(input.n),
            None => parsed_u64(line@) is None,
        },
{
    let chars = chars_of(line);
    match parse_u64(&chars) {
        Some(n) => Some(Input { n }),
        None => None,
    }
}

} // verus!
