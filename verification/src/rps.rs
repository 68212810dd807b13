//! Rock, paper, scissors: the winning hand of a round, or `-` for a draw.
use vstd::prelude::*;
use crate::text::{chars_lt, chars_of, lex_lt, split, split_on, string_of, str_equal};

verus! {

/// A round: the two hands played, the first not after the second in
/// lexicographic order.
pub struct Input {
    pub p1: String,
    pub p2: String,
}

/// The hand that wins a round whose hands are given in lexicographic order
/// (`P` < `R` < `S`): paper beats rock, rock beats scissors, scissors beat
/// paper; anything else is a draw, `-`.
pub open spec fn winner(p1: Seq<char>, p2: Seq<char>) -> Seq<char> {
    if p1 == p2 {
        "-"@
    } else if p1 == "P"@ && p2 == "S"@ {
        "S"@
    } else if p1 == "P"@ && p2 == "R"@ {
        "P"@
    } else if p1 == "R"@ && p2 == "S"@ {
        "R"@
    } else {
        "-"@
    }
}

/// The winning hand of the round, or `-`.
pub fn process(input: &Input) -> (r: String)
    ensures
        r@ == winner(input.p1@, input.p2@),
{
    let p1 = input.p1.as_str();
    let p2 = input.p2.as_str();
    let result: &str;
    if str_equal(p1, p2) {
        result = "-";
    } else if str_equal(p1, "P") && str_equal(p2, "S") {
        result = "S";
    } else if str_equal(p1, "P") && str_equal(p2, "R") {
        result = "P";
    } else if str_equal(p1, "R") && str_equal(p2, "S") {
        result = "R";
    } else {
        result = "-";
    }
    String::from_str(result)
}

/// `a` is not after `b`.
pub open spec fn lex_le(a: Seq<char>, b: Seq<char>) -> bool {
    !lex_lt(b, a)
}

/// `(x, y)` are the first two pieces once the pieces are sorted: pieces at
/// two different positions, `x` not after any other piece and `y` not after
/// any piece but `x`'s.
pub open spec fn first_two_sorted(pieces: Seq<Seq<char>>, x: Seq<char>, y: Seq<char>) -> bool {
    exists|a: int, b: int|
        0 <= a < pieces.len() && 0 <= b < pieces.len() && a != b && #[trigger] pieces[a] == x
            && #[trigger] pieces[b] == y && lex_le(x, y) && (forall|c: int|
            0 <= c < pieces.len() && c != a ==> lex_le(x, #[trigger] pieces[c])) && (forall|c: int|
            0 <= c < pieces.len() && c != a && c != b ==> lex_le(y, #[trigger] pieces[c]))
}

fn least_piece(pieces: &Vec<Vec<char>>, skip: usize) -> (r: usize)
    requires
        pieces@.len() >= 2,
        skip <= pieces@.len(),
    ensures
        r < pieces@.len(),
        r != skip,
        forall|c: int|
            0 <= c < pieces@.len() && c != skip ==> lex_le(pieces@[r as int]@, (#[trigger] pieces@[c])@),
{
    let mut best: usize = if skip == 0 {
        1
    } else {
        0
    };
    proof {
        crate::text::lemma_lex_irreflexive(pieces@[best as int]@);
    }
    for c in 0..pieces.len()
        invariant
            pieces@.len() >= 2,
            best < pieces@.len(),
            best != skip,
            forall|d: int|
                0 <= d < c && d != skip ==> lex_le(pieces@[best as int]@, (#[trigger] pieces@[d])@),
            skip == 0 ==> best == 1 || c > 1,
            skip != 0 ==> best == 0 || c > 0,
    {
        if c != skip && chars_lt(&pieces[c], &pieces[best]) {
            proof {
                let nb = pieces@[c as int]@;
                assert forall|d: int|
                    0 <= d < c + 1 && d != skip implies lex_le(nb, (#[trigger] pieces@[d])@) by {
                    if d < c {
                        if lex_lt(pieces@[d]@, nb) {
                            crate::text::lemma_lex_transitive(pieces@[d]@, nb, pieces@[best as int]@);
                        }
                    } else {
                        crate::text::lemma_lex_irreflexive(nb);
                    }
                }
            }
            best = c;
        } else {
            proof {
                if c != skip {
                    if c == best {
                        crate::text::lemma_lex_irreflexive(pieces@[c as int]@);
                    }
                }
            }
        }
    }
    best
}

/// The round on a line: its pieces separated by single spaces, sorted, the
/// first two taken; `None` where there are fewer than two pieces.
pub fn parse_line(line: &str) -> (r: Option<Input>)
    ensures
        match r {
            Some(input) => first_two_sorted(split_on(line@, ' '), input.p1@, input.p2@),
            None => split_on(line@, ' ').len() < 2,
        },
{
    let chars = chars_of(line);
    let pieces = split(&chars, ' ');
    if pieces.len() < 2 {
        return None;
    }
    let a = least_piece(&pieces, pieces.len());
    let b = least_piece(&pieces, a);
    let p1 = string_of(&pieces[a]);
    let p2 = string_of(&pieces[b]);
    proof {
        let ps = split_on(line@, ' ');
        assert(ps[a as int] == pieces@[a as int]@);
        assert(ps[b as int] == pieces@[b as int]@);
        assert forall|c: int| 0 <= c < ps.len() && c != a implies lex_le(p1@, #[trigger] ps[c]) by {
            assert(ps[c] == pieces@[c]@);
        }
        assert forall|c: int| 0 <= c < ps.len() && c != a && c != b implies lex_le(p2@, #[trigger] ps[c]) by {
            assert(ps[c] == pieces@[c]@);
        }
        assert(first_two_sorted(ps, p1@, p2@));
    }
    Some(Input { p1, p2 })
}

} // verus!
