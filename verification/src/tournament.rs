//! A tournament's results: the player who lost no match.
use vstd::prelude::*;
use std::collections::HashSet;
use crate::text::{chars_equal, chars_of, decimal, decimal_string, parse_i32, parsed_i32, split, split_on};

verus! {

broadcast use vstd::std_specs::hash::group_hash_axioms;

/// A match between two players, and whether the first one won.
#[derive(Clone, Copy)]
pub struct Match {
    pub p1: i32,
    pub p2: i32,
    pub player1_wins: bool,
}

/// One case: the matches played.
pub struct Input {
    pub matches: Vec<Match>,
}

/// The player who lost a match.
pub open spec fn loser(m: Match) -> i32 {
    if m.player1_wins {
        m.p2
    } else {
        m.p1
    }
}

/// The players who lost at least one of the matches.
pub open spec fn losers(ms: Seq<Match>) -> Set<i32>
    decreases ms.len(),
{
    if ms.len() == 0 {
        Set::empty()
    } else {
        losers(ms.drop_last()).insert(loser(ms.last()))
    }
}

proof fn lemma_losers_finite(ms: Seq<Match>)
    ensures
        losers(ms).finite(),
    decreases ms.len(),
{
    if ms.len() > 0 {
        lemma_losers_finite(ms.drop_last());
    }
}

/// The first `i` from `from` to `last` such that player `i` (as an `i32`)
/// lost no match, or 0 if there is none.
pub open spec fn first_unbeaten(lost: Set<i32>, from: int, last: int) -> int
    decreases last - from + 1,
{
    if from > last {
        0
    } else if !lost.contains(from as i32) {
        from
    } else {
        first_unbeaten(lost, from + 1, last)
    }
}

/// The winner: the first player, counting from 1 up to the number of
/// distinct losers, who lost no match; 0 if each of them lost one.
pub open spec fn winner(ms: Seq<Match>) -> int {
    first_unbeaten(losers(ms), 1, losers(ms).len() as int)
}

/// The winner, in decimal.
pub fn process(input: &Input) -> (r: String)
    ensures
        r@ == decimal(winner(input.matches@) as nat),
{
    let mut lost: HashSet<i32> = HashSet::new();
    for k in 0..input.matches.len()
        invariant
            lost@ == losers(input.matches@.take(k as int)),
    {
        let m = input.matches[k];
        let l = if m.player1_wins {
            m.p2
        } else {
            m.p1
        };
        lost.insert(l);
        assert(input.matches@.take(k + 1).drop_last() =~= input.matches@.take(k as int));
    }
    assert(input.matches@.take(input.matches@.len() as int) =~= input.matches@);
    proof {
        lemma_losers_finite(input.matches@);
    }
    let count = lost.len();
    let mut winner: usize = 0;
    let mut j: usize = 0;
    while j < count && winner == 0
        invariant
            lost@ == losers(input.matches@),
            count == losers(input.matches@).len(),
            j <= count,
            winner == 0 ==> first_unbeaten(lost@, 1, count as int) == first_unbeaten(
                lost@,
                j + 1,
                count as int,
            ),
            winner != 0 ==> winner == first_unbeaten(lost@, 1, count as int),
        decreases count - j, (if winner == 0 {
            1int
        } else {
            0int
        }),
    {
        let i = j + 1;
        if !lost.contains(&(i as i32)) {
            winner = i;
        } else {
            j = j + 1;
        }
    }
    decimal_string(winner as u64)
}

/// The match on a line: the two players and `1` where the first one won,
/// separated by single spaces.
pub open spec fn parse_match(line: Seq<char>) -> Option<Match> {
    let ps = split_on(line, ' ');
    if ps.len() < 3 {
        None
    } else {
        match (parsed_i32(ps[0]), parsed_i32(ps[1])) {
            (Some(a), Some(b)) => Some(Match { p1: a, p2: b, player1_wins: ps[2] == "1"@ }),
            _ => None,
        }
    }
}

/// The number of match lines that a count line announces.
pub open spec fn announced(n: i32) -> int {
    if n < 0 {
        0
    } else {
        n as int
    }
}

/// The cases from line `pos` on: a line with the number of matches, then
/// one line per match; `None` where a line is missing or malformed.
pub open spec fn parse_cases(lines: Seq<Seq<char>>, pos: int) -> Option<Seq<Seq<Match>>>
    decreases lines.len() - pos,
{
    if pos < 0 || pos >= lines.len() {
        Some(seq![])
    } else {
        match parsed_i32(lines[pos]) {
            None => None,
            Some(n) => {
                let k = announced(n);
                if pos + 1 + k > lines.len() {
                    None
                } else if exists|j: int| 0 <= j < k && (#[trigger] parse_match(lines[pos + 1 + j])) is None {
                    None
                } else {
                    match parse_cases(lines, pos + 1 + k) {
                        None => None,
                        Some(rest) => Some(
                            seq![Seq::new(k as nat, |j: int| parse_match(lines[pos + 1 + j])->0)] + rest,
                        ),
                    }
                }
            },
        }
    }
}

fn parse_match_line(line: &Vec<char>) -> (r: Option<Match>)
    ensures
        r == parse_match(line@),
{
    let pieces = split(line, ' ');
    if pieces.len() < 3 {
        return None;
    }
    let a = parse_i32(&pieces[0]);
    let b = parse_i32(&pieces[1]);
    match (a, b) {
        (Some(p1), Some(p2)) => {
            let one = vec!['1'];
            let wins = chars_equal(&pieces[2], &one);
            proof {
                reveal_strlit("1");
                assert(one@ =~= "1"@);
            }
            Some(Match { p1, p2, player1_wins: wins })
        },
        _ => None,
    }
}

/// The cases of an input file, all its lines given: the first line (the
/// number of cases) is skipped, then each case is a count line followed by
/// that many match lines.
pub fn parse_input(lines: &Vec<String>) -> (r: Option<Vec<Input>>)
    ensures
        match r {
            Some(inputs) => {
                &&& parse_cases(lines@.map_values(|l: String| l@), 1) is Some
                &&& inputs@.len() == parse_cases(lines@.map_values(|l: String| l@), 1)->0.len()
                &&& forall|c: int|
                    0 <= c < inputs@.len() ==> (#[trigger] inputs@[c]).matches@ == parse_cases(
                        lines@.map_values(|l: String| l@),
                        1,
                    )->0[c]
            },
            None => parse_cases(lines@.map_values(|l: String| l@), 1) is None,
        },
{
    let ghost text = lines@.map_values(|l: String| l@);
    let mut chars: Vec<Vec<char>> = Vec::new();
    for k in 0..lines.len()
        invariant
            text == lines@.map_values(|l: String| l@),
            chars@.len() == k,
            forall|t: int| 0 <= t < k ==> (#[trigger] chars@[t])@ == text[t],
    {
        chars.push(chars_of(lines[k].as_str()));
    }
    let mut inputs: Vec<Input> = Vec::new();
    let mut pos: usize = 1;
    let ghost done: Seq<Seq<Match>> = seq![];
    while pos < chars.len()
        invariant
            text == lines@.map_values(|l: String| l@),
            chars@.len() == text.len(),
            forall|t: int| 0 <= t < text.len() ==> (#[trigger] chars@[t])@ == text[t],
            1 <= pos,
            inputs@.len() == done.len(),
            forall|c: int| 0 <= c < done.len() ==> (#[trigger] inputs@[c]).matches@ == done[c],
            parse_cases(text, 1) == match parse_cases(text, pos as int) {
                Some(rest) => Some(done + rest),
                None => None::<Seq<Seq<Match>>>,
            },
        decreases chars@.len() - pos,
    {
        let n = match parse_i32(&chars[pos]) {
            Some(v) => v,
            None => {
                return None;
            },
        };
        let k: usize = if n < 0 {
            0
        } else {
            n as usize
        };
        assert(chars@[pos as int]@ == text[pos as int]);
        if k > chars.len() - pos - 1 {
            return None;
        }
        let mut matches: Vec<Match> = Vec::new();
        let nlines = chars.len();
        for j in 0..k
            invariant
                text == lines@.map_values(|l: String| l@),
                nlines == chars@.len(),
                pos < chars@.len(),
                parsed_i32(text[pos as int]) == Some(n),
                k == announced(n),
                parse_cases(text, 1) == match parse_cases(text, pos as int) {
                    Some(rest) => Some(done + rest),
                    None => None::<Seq<Seq<Match>>>,
                },
                chars@.len() == text.len(),
                forall|t: int| 0 <= t < text.len() ==> (#[trigger] chars@[t])@ == text[t],
                pos + 1 + k <= chars@.len(),
                matches@.len() == j,
                forall|t: int|
                    0 <= t < j ==> parse_match(text[pos + 1 + t]) == Some(#[trigger] matches@[t]),
        {
            match parse_match_line(&chars[pos + 1 + j]) {
                Some(m) => {
                    matches.push(m);
                },
                None => {
                    assert((parse_match(text[pos + 1 + j as int])) is None);
                    return None;
                },
            }
        }
        let ghost case = Seq::new(k as nat, |j: int| parse_match(text[pos + 1 + j])->0);
        proof {
            assert(matches@ =~= case);
            assert forall|j: int| 0 <= j < k implies (#[trigger] parse_match(text[pos + 1 + j])) is Some by {
                assert(parse_match(text[pos + 1 + j]) == Some(matches@[j]));
            }
            match parse_cases(text, pos + 1 + k) {
                Some(rest) => {
                    assert(done + (seq![case] + rest) =~= done.push(case) + rest);
                },
                None => {},
            }
        }
        inputs.push(Input { matches });
        proof {
            done = done.push(case);
        }
        pos = pos + 1 + k;
    }
    proof {
        assert(done + seq![] =~= done);
    }
    Some(inputs)
}

} // verus!
