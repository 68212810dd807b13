//! Counting the ways to write a number as a sum of at least two positive
//! parts, none of them forbidden (order of the parts does not matter).
use vstd::prelude::*;
use std::collections::BTreeMap;
use std::collections::HashSet;
use crate::text::{chars_of, decimal, decimal_string, parse_i32, parsed_i32, split, split_on};

verus! {

broadcast use {vstd::std_specs::hash::group_hash_axioms, vstd::laws_cmp::group_laws_cmp};

/// One case: the number to split and the parts that may not be used.
pub struct Input {
    pub n: i32,
    pub forbidden: HashSet<i32>,
}

/// The number of ways to write `n` as a sum of parts from `1..=max`, each
/// part not in `forbidden`, order ignored.
pub open spec fn ways(n: int, max: int, forbidden: Set<i32>) -> nat
    decreases (if max > 0 {
        max
    } else {
        0
    }), (if n > 0 {
        n
    } else {
        0
    }),
{
    if n == 0 {
        1
    } else if n < 0 || max <= 0 {
        0
    } else {
        ways(n, max - 1, forbidden) + if forbidden.contains(max as i32) {
            0
        } else {
            ways(n - max, max, forbidden)
        }
    }
}

/// Forbidding a part larger than the largest part allowed changes nothing:
/// a part is left out only for being forbidden itself, never because of
/// the amount still to be split.
pub proof fn lemma_ways_ignore_large(n: int, max: int, forbidden: Set<i32>, k: i32)
    requires
        k > max,
    ensures
        ways(n, max, forbidden.insert(k)) == ways(n, max, forbidden),
    decreases (if max > 0 {
        max
    } else {
        0
    }), (if n > 0 {
        n
    } else {
        0
    }),
{
    if n == 0 || n < 0 || max <= 0 {
    } else {
        lemma_ways_ignore_large(n, max - 1, forbidden, k);
        assert(forbidden.insert(k).contains(max as i32) == forbidden.contains(max as i32));
        if !forbidden.contains(max as i32) {
            lemma_ways_ignore_large(n - max, max, forbidden, k);
        }
    }
}

/// Every entry of the table holds the count for its key.
pub open spec fn table_ok(table: Map<(i32, i32), u32>, forbidden: Set<i32>) -> bool {
    forall|k: (i32, i32)|
        #[trigger] table.contains_key(k) ==> table[k] == ways(k.0 as int, k.1 as int, forbidden)
}

/// A count, or `None` where it does not fit in a `u32`.
pub open spec fn fitting(v: nat) -> Option<u32> {
    if v <= u32::MAX {
        Some(v as u32)
    } else {
        None
    }
}

/// The number of ways to write `n` with parts up to `max`, remembering the
/// counts it computes in `memo`; `None` where the count passes
/// `u32::MAX`.
pub fn aux(
    n: i32,
    max: i32,
    forbidden: &HashSet<i32>,
    memo: &mut BTreeMap<(i32, i32), u32>,
) -> (r: Option<u32>)
    requires
        max >= 0 || n <= 0,
        table_ok(old(memo)@, forbidden@),
    ensures
        table_ok(final(memo)@, forbidden@),
        r == fitting(ways(n as int, max as int, forbidden@)),
    decreases (if max > 0 {
        max
    } else {
        0
    }), (if n > 0 {
        n
    } else {
        0
    }),
{
    let key = (n, max);
    if memo.contains_key(&key) {
        match memo.get(&key) {
            Some(v) => {
                assert(memo@.contains_key(key));
                return Some(*v);
            },
            None => {
                return None;
            },
        }
    }
    if n == 0 {
        Some(1)
    } else if n < 0 || max == 0 && n > 0 {
        Some(0)
    } else {
        let first = aux(n, max - 1, forbidden, memo);
        let mut total: u32 = match first {
            Some(v) => v,
            None => {
                return None;
            },
        };
        if !forbidden.contains(&max) {
            let second = aux(n - max, max, forbidden, memo);
            match second {
                Some(v) => {
                    if total > u32::MAX - v {
                        return None;
                    }
                    total = total + v;
                },
                None => {
                    return None;
                },
            }
        }
        memo.insert(key, total);
        Some(total)
    }
}

/// The number of ways to write `input.n` as a sum of at least two parts,
/// none forbidden; `None` where that number passes `u32::MAX`.
pub fn process(input: &Input) -> (r: Option<String>)
    requires
        input.n > i32::MIN,
    ensures
        match r {
            Some(s) => ways(input.n as int, input.n - 1, input.forbidden@) <= u32::MAX && s@
                == decimal(ways(input.n as int, input.n - 1, input.forbidden@)),
            None => ways(input.n as int, input.n - 1, input.forbidden@) > u32::MAX,
        },
{
    let mut memo: BTreeMap<(i32, i32), u32> = BTreeMap::new();
    match aux(input.n, input.n - 1, &input.forbidden, &mut memo) {
        Some(v) => Some(decimal_string(v as u64)),
        None => None,
    }
}

/// The case that a line holds: the number, then the forbidden parts, all
/// separated by single spaces; `None` where a piece is not an `i32`.
pub fn parse_line(line: &str) -> (r: Option<Input>)
    ensures
        ({
            let pieces = split_on(line@, ' ');
            match r {
                Some(input) => {
                    &&& forall|i: int| 0 <= i < pieces.len() ==> #[trigger] parsed_i32(pieces[i]) is Some
                    &&& input.n == parsed_i32(pieces[0])->0
                    &&& forall|x: i32|
                        input.forbidden@.contains(x) <==> exists|i: int|
                            1 <= i < pieces.len() && parsed_i32(#[trigger] pieces[i]) == Some(x)
                },
                None => exists|i: int| 0 <= i < pieces.len() && #[trigger] parsed_i32(pieces[i]) is None,
            }
        }),
{
    let chars = chars_of(line);
    let pieces = split(&chars, ' ');
    let ghost spec_pieces = split_on(line@, ' ');
    let n = match parse_i32(&pieces[0]) {
        Some(v) => v,
        None => {
            assert(parsed_i32(spec_pieces[0]) is None);
            return None;
        },
    };
    let mut forbidden: HashSet<i32> = HashSet::new();
    for i in 1..pieces.len()
        invariant
            pieces@.len() == spec_pieces.len(),
            spec_pieces == split_on(line@, ' '),
            forall|k: int| 0 <= k < pieces@.len() ==> (#[trigger] pieces@[k])@ == spec_pieces[k],
            parsed_i32(spec_pieces[0]) == Some(n),
            forall|k: int| 0 <= k < i ==> #[trigger] parsed_i32(spec_pieces[k]) is Some,
            forall|x: i32|
                forbidden@.contains(x) <==> exists|k: int|
                    1 <= k < i && parsed_i32(#[trigger] spec_pieces[k]) == Some(x),
    {
        match parse_i32(&pieces[i]) {
            Some(v) => {
                forbidden.insert(v);
                assert forall|x: i32|
                    forbidden@.contains(x) <==> exists|k: int|
                        1 <= k < i + 1 && parsed_i32(#[trigger] spec_pieces[k]) == Some(x) by {
                    if forbidden@.contains(x) && x != v {
                        let k = choose|k: int|
                            1 <= k < i && parsed_i32(#[trigger] spec_pieces[k]) == Some(x);
                        assert(1 <= k < i + 1);
                    }
                    if x == v {
                        assert(parsed_i32(spec_pieces[i as int]) == Some(x));
                    }
                }
            },
            None => {
                assert(parsed_i32(spec_pieces[i as int]) is None);
                return None;
            },
        }
    }
    Some(Input { n, forbidden })
}

} // verus!
