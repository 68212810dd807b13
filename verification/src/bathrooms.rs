//! Placing bathrooms in a building: groups of employees, each able to use
//! the bathrooms of some floors, must all be served while the number of
//! bathrooms per floor is kept low. The library reads the cases and lays out
//! the integer program (one variable per group and usable floor, listed by
//! group and by floor); the caller hands the program to a solver.
use vstd::prelude::*;
use crate::text::{chars_of, decimal, parse_usize, parsed_usize, push_char, push_decimal, push_text, split, split_on};

verus! {

// ---------------------------------------------------------------------------
// Cases
// ---------------------------------------------------------------------------

/// A group: how many employees it has and the floors whose bathrooms they
/// may use (each floor once).
pub struct Group {
    pub count: usize,
    pub floors: Vec<usize>,
}

/// What a group stands for.
pub struct GroupModel {
    pub count: usize,
    pub floors: Seq<usize>,
}

impl View for Group {
    type V = GroupModel;

    open spec fn view(&self) -> GroupModel {
        GroupModel { count: self.count, floors: self.floors@ }
    }
}

/// A case: the number of floors and the groups.
pub struct Input {
    pub num_floors: usize,
    pub groups: Vec<Group>,
}

/// What a case stands for.
pub struct InputModel {
    pub num_floors: usize,
    pub groups: Seq<GroupModel>,
}

impl View for Input {
    type V = InputModel;

    open spec fn view(&self) -> InputModel {
        InputModel { num_floors: self.num_floors, groups: self.groups@.map_values(|g: Group| g@) }
    }
}

/// The values of `s` in order, each kept at its first occurrence only.
pub open spec fn distinct(s: Seq<usize>) -> Seq<usize>
    decreases s.len(),
{
    if s.len() == 0 {
        seq![]
    } else {
        let d = distinct(s.drop_last());
        if d.contains(s.last()) {
            d
        } else {
            d.push(s.last())
        }
    }
}

/// Numbers, one per piece; `None` where a piece is not a `usize`.
pub open spec fn parse_usizes(pieces: Seq<Seq<char>>) -> Option<Seq<usize>>
    decreases pieces.len(),
{
    if pieces.len() == 0 {
        Some(seq![])
    } else {
        match parse_usizes(pieces.drop_last()) {
            None => None,
            Some(v) => match parsed_usize(pieces.last()) {
                None => None,
                Some(x) => Some(v.push(x)),
            },
        }
    }
}

/// A case's first line: the number of floors and of groups.
pub open spec fn case_header(line: Seq<char>) -> Option<(usize, usize)> {
    let w = split_on(line, ' ');
    if w.len() < 2 {
        None
    } else {
        match (parsed_usize(w[0]), parsed_usize(w[1])) {
            (Some(a), Some(b)) => Some((a, b)),
            _ => None,
        }
    }
}

/// A group's two lines: its size first on the first, its floors on the
/// second (repeats dropped).
pub open spec fn parse_group(count_line: Seq<char>, floors_line: Seq<char>) -> Option<GroupModel> {
    match (parsed_usize(split_on(count_line, ' ')[0]), parse_usizes(split_on(floors_line, ' '))) {
        (Some(c), Some(fs)) => Some(GroupModel { count: c, floors: distinct(fs) }),
        _ => None,
    }
}

/// The group whose lines start at line `at`.
pub open spec fn group_at(lines: Seq<Seq<char>>, at: int) -> Option<GroupModel> {
    parse_group(lines[at], lines[at + 1])
}

/// The cases from line `pos` on: a header line, then two lines per group;
/// `None` where a line is missing or malformed.
pub open spec fn parse_cases(lines: Seq<Seq<char>>, pos: int) -> Option<Seq<InputModel>>
    decreases lines.len() - pos,
{
    if pos < 0 || pos >= lines.len() {
        Some(seq![])
    } else {
        match case_header(lines[pos]) {
            None => None,
            Some(h) => {
                let ng = h.1 as int;
                if pos + 1 + 2 * ng > lines.len() {
                    None
                } else if exists|j: int| 0 <= j < ng && (#[trigger] group_at(lines, pos + 1 + 2 * j)) is None {
                    None
                } else {
                    match parse_cases(lines, pos + 1 + 2 * ng) {
                        None => None,
                        Some(rest) => Some(
                            seq![
                                InputModel {
                                    num_floors: h.0,
                                    groups: Seq::new(
                                        ng as nat,
                                        |j: int| group_at(lines, pos + 1 + 2 * j)->0,
                                    ),
                                },
                            ] + rest,
                        ),
                    }
                }
            },
        }
    }
}

fn parse_usizes_of(pieces: &Vec<Vec<char>>) -> (r: Option<Vec<usize>>)
    ensures
        match r {
            Some(v) => parse_usizes(pieces@.map_values(|p: Vec<char>| p@)) == Some(v@),
            None => parse_usizes(pieces@.map_values(|p: Vec<char>| p@)) is None,
        },
{
    let ghost ps = pieces@.map_values(|p: Vec<char>| p@);
    let mut v: Vec<usize> = Vec::new();
    for i in 0..pieces.len()
        invariant
            ps == pieces@.map_values(|p: Vec<char>| p@),
            parse_usizes(ps.take(i as int)) == Some(v@),
    {
        assert(ps.take(i + 1).drop_last() =~= ps.take(i as int));
        match parse_usize(&pieces[i]) {
            None => {
                proof {
                    lemma_parse_usizes_prefix(ps, i + 1, ps.len() as int);
                    assert(ps.take(ps.len() as int) =~= ps);
                }
                return None;
            },
            Some(x) => {
                v.push(x);
            },
        }
    }
    assert(ps.take(ps.len() as int) =~= ps);
    Some(v)
}

proof fn lemma_parse_usizes_prefix(ps: Seq<Seq<char>>, k: int, n: int)
    requires
        0 <= k <= n <= ps.len(),
        parse_usizes(ps.take(k)) is None,
    ensures
        parse_usizes(ps.take(n)) is None,
    decreases n - k,
{
    if k < n {
        assert(ps.take(k + 1).drop_last() =~= ps.take(k));
        lemma_parse_usizes_prefix(ps, k + 1, n);
    }
}

fn has_value(v: &Vec<usize>, x: usize) -> (r: bool)
    ensures
        r == v@.contains(x),
{
    for i in 0..v.len()
        invariant
            forall|k: int| 0 <= k < i ==> v@[k] != x,
    {
        if v[i] == x {
            return true;
        }
    }
    false
}

fn distinct_of(s: &Vec<usize>) -> (r: Vec<usize>)
    ensures
        r@ == distinct(s@),
{
    let mut d: Vec<usize> = Vec::new();
    for i in 0..s.len()
        invariant
            d@ == distinct(s@.take(i as int)),
    {
        assert(s@.take(i + 1).drop_last() =~= s@.take(i as int));
        if !has_value(&d, s[i]) {
            d.push(s[i]);
        }
    }
    assert(s@.take(s@.len() as int) =~= s@);
    d
}

fn parse_group_lines(count_line: &Vec<char>, floors_line: &Vec<char>) -> (r: Option<Group>)
    ensures
        match r {
            Some(g) => parse_group(count_line@, floors_line@) == Some(g@),
            None => parse_group(count_line@, floors_line@) is None,
        },
{
    let words = split(count_line, ' ');
    let count = parse_usize(&words[0]);
    let pieces = split(floors_line, ' ');
    assert(pieces@.map_values(|p: Vec<char>| p@) =~= split_on(floors_line@, ' '));
    let floors = parse_usizes_of(&pieces);
    match (count, floors) {
        (Some(c), Some(fs)) => Some(Group { count: c, floors: distinct_of(&fs) }),
        _ => None,
    }
}

/// The cases of an input file, all its lines given: the first line (the
/// number of cases) is skipped, then each case is a header line followed by
/// two lines per group.
pub fn parse_input(lines: &Vec<String>) -> (r: Option<Vec<Input>>)
    ensures
        match r {
            Some(inputs) => parse_cases(lines@.map_values(|l: String| l@), 1) == Some(
                inputs@.map_values(|i: Input| i@),
            ),
            None => parse_cases(lines@.map_values(|l: String| l@), 1) is None,
        },
{
    let ghost text = lines@.map_values(|l: String| l@);
    let mut chars: Vec<Vec<char>> = Vec::new();
    for k in 0..lines.len()
        invariant
            text == lines@.map_values(|l: String| l@),
            chars@.len() == k,
            forall|t: int| 0 <= t < k ==> (#[trigger] chars@[t])@ == text[t],
    {
        chars.push(chars_of(lines[k].as_str()));
    }
    let mut inputs: Vec<Input> = Vec::new();
    let mut pos: usize = 1;
    while pos < chars.len()
        invariant
            text == lines@.map_values(|l: String| l@),
            chars@.len() == text.len(),
            forall|t: int| 0 <= t < text.len() ==> (#[trigger] chars@[t])@ == text[t],
            1 <= pos,
            parse_cases(text, 1) == match parse_cases(text, pos as int) {
                Some(rest) => Some(inputs@.map_values(|i: Input| i@) + rest),
                None => None::<Seq<InputModel>>,
            },
        decreases chars@.len() - pos,
    {
        let words = split(&chars[pos], ' ');
        assert(chars@[pos as int]@ == text[pos as int]);
        if words.len() < 2 {
            return None;
        }
        let nf = match parse_usize(&words[0]) {
            Some(v) => v,
            None => {
                return None;
            },
        };
        let ng = match parse_usize(&words[1]) {
            Some(v) => v,
            None => {
                return None;
            },
        };
        assert(words@.len() == split_on(text[pos as int], ' ').len());
        assert(words@[0]@ == split_on(text[pos as int], ' ')[0]);
        assert(words@[1]@ == split_on(text[pos as int], ' ')[1]);
        assert(case_header(text[pos as int]) == Some((nf, ng)));
        if ng > (chars.len() - pos - 1) / 2 {
            return None;
        }
        let mut groups: Vec<Group> = Vec::new();
        let nlines = chars.len();
        for j in 0..ng
            invariant
                text == lines@.map_values(|l: String| l@),
                nlines == chars@.len(),
                pos < chars@.len(),
                case_header(text[pos as int]) == Some((nf, ng)),
                parse_cases(text, 1) == match parse_cases(text, pos as int) {
                    Some(rest) => Some(inputs@.map_values(|i: Input| i@) + rest),
                    None => None::<Seq<InputModel>>,
                },
                chars@.len() == text.len(),
                forall|t: int| 0 <= t < text.len() ==> (#[trigger] chars@[t])@ == text[t],
                pos + 1 + 2 * ng <= chars@.len(),
                groups@.len() == j,
                forall|t: int|
                    0 <= t < j ==> group_at(text, pos + 1 + 2 * t) == Some(
                        (#[trigger] groups@[t])@,
                    ),
        {
            let at = pos + 1 + 2 * j;
            match parse_group_lines(&chars[at], &chars[at + 1]) {
                Some(g) => {
                    groups.push(g);
                },
                None => {
                    assert(group_at(text, pos + 1 + 2 * j) is None);
                    return None;
                },
            }
        }
        let ghost case = InputModel {
            num_floors: nf,
            groups: Seq::new(ng as nat, |j: int| group_at(text, pos + 1 + 2 * j)->0),
        };
        proof {
            assert(groups@.map_values(|g: Group| g@) =~= case.groups);
            assert forall|j: int| 0 <= j < ng implies (#[trigger] group_at(
                text,
                pos + 1 + 2 * j,
            )) is Some by {
                assert(group_at(text, pos + 1 + 2 * j) == Some(groups@[j]@));
            }
        }
        let ghost before = inputs@.map_values(|i: Input| i@);
        inputs.push(Input { num_floors: nf, groups });
        proof {
            assert(inputs@.map_values(|i: Input| i@) =~= before.push(case));
            match parse_cases(text, pos + 1 + 2 * ng) {
                Some(rest) => {
                    assert(before + (seq![case] + rest) =~= before.push(case) + rest);
                },
                None => {},
            }
        }
        pos = pos + 1 + 2 * ng;
    }
    proof {
        let v = inputs@.map_values(|i: Input| i@);
        assert(v + seq![] =~= v);
    }
    Some(inputs)
}

// ---------------------------------------------------------------------------
// The integer program
// ---------------------------------------------------------------------------

/// The variable for group `g` on floor `f`: how many of its employees use
/// that floor's bathrooms.
pub open spec fn var_name(g: int, f: int) -> Seq<char> {
    seq!['G'] + decimal(g as nat) + "_F"@ + decimal(f as nat)
}

/// The variables of group `g`, one per floor it may use, in that order.
pub open spec fn group_names(g: int, floors: Seq<usize>) -> Seq<Seq<char>> {
    floors.map_values(|f: usize| var_name(g, f as int))
}

/// The variables on floor `f`, one per group that may use it, in group
/// order.
pub open spec fn floor_names(groups: Seq<GroupModel>, f: int) -> Seq<Seq<char>>
    decreases groups.len(),
{
    if groups.len() == 0 {
        seq![]
    } else {
        floor_names(groups.drop_last(), f) + if groups.last().floors.contains(f as usize) {
            seq![var_name(groups.len() - 1, f)]
        } else {
            seq![]
        }
    }
}

/// Every floor a group may use is a floor of the building.
pub open spec fn floors_known(input: InputModel) -> bool {
    forall|g: int, k: int|
        0 <= g < input.groups.len() && 0 <= k < input.groups[g].floors.len() ==> (
        #[trigger] input.groups[g].floors[k]) < input.num_floors
}

/// The variable names of the program: per group, and per floor (every
/// floor of the building, with no variable where no group may go). The
/// program minimises a bathroom count `wc` that is at least each non-empty
/// floor's sum, while each group's variables sum to its size.
pub struct Layout {
    pub group_vars: Vec<Vec<String>>,
    pub floor_vars: Vec<Vec<String>>,
}

/// What a list of names stands for.
pub open spec fn strings_view(v: Seq<String>) -> Seq<Seq<char>> {
    v.map_values(|s: String| s@)
}

/// What lists of names stand for.
pub open spec fn names_view(v: Seq<Vec<String>>) -> Seq<Seq<Seq<char>>> {
    v.map_values(|w: Vec<String>| strings_view(w@))
}

proof fn lemma_strings_push(v: Seq<String>, s: String)
    ensures
        strings_view(v.push(s)) == strings_view(v).push(s@),
{
    assert(strings_view(v.push(s)) =~= strings_view(v).push(s@));
}

proof fn lemma_names_push(v: Seq<Vec<String>>, w: Vec<String>)
    ensures
        names_view(v.push(w)) == names_view(v).push(strings_view(w@)),
{
    assert(names_view(v.push(w)) =~= names_view(v).push(strings_view(w@)));
}

proof fn lemma_group_names_take(g: int, floors: Seq<usize>, k: int)
    requires
        0 <= k < floors.len(),
    ensures
        group_names(g, floors.take(k + 1)) == group_names(g, floors.take(k)).push(
            var_name(g, floors[k] as int),
        ),
{
    assert(group_names(g, floors.take(k + 1)) =~= group_names(g, floors.take(k)).push(
        var_name(g, floors[k] as int),
    ));
}

fn var_name_of(g: usize, f: usize) -> (r: String)
    ensures
        r@ == var_name(g as int, f as int),
{
    let mut s = String::new();
    push_char(&mut s, 'G');
    push_decimal(&mut s, g as u64);
    push_text(&mut s, "_F");
    push_decimal(&mut s, f as u64);
    s
}

/// The layout of the program for a case; `None` where a group may use a
/// floor the building does not have.
pub fn lp_layout(input: &Input) -> (r: Option<Layout>)
    ensures
        match r {
            None => !floors_known(input@),
            Some(l) => {
                &&& floors_known(input@)
                &&& names_view(l.group_vars@) == Seq::new(
                    input@.groups.len(),
                    |g: int| group_names(g, input@.groups[g].floors),
                )
                &&& names_view(l.floor_vars@) == Seq::new(
                    input.num_floors as nat,
                    |f: int| floor_names(input@.groups, f),
                )
            },
        },
{
    let ghost gs = input@.groups;
    let ng = input.groups.len();
    for g in 0..ng
        invariant
            ng == input.groups@.len(),
            gs == input@.groups,
            forall|a: int, k: int|
                0 <= a < g && 0 <= k < gs[a].floors.len() ==> (#[trigger] gs[a].floors[k])
                    < input.num_floors,
    {
        let floors = &input.groups[g].floors;
        for k in 0..floors.len()
            invariant
                ng == input.groups@.len(),
                g < ng,
                gs == input@.groups,
                floors@ == gs[g as int].floors,
                forall|a: int, t: int|
                    0 <= a < g && 0 <= t < gs[a].floors.len() ==> (#[trigger] gs[a].floors[t])
                        < input.num_floors,
                forall|t: int| 0 <= t < k ==> (#[trigger] gs[g as int].floors[t]) < input.num_floors,
        {
            if floors[k] >= input.num_floors {
                assert(gs[g as int].floors[k as int] >= input.num_floors);
                return None;
            }
        }
    }
    let mut group_vars: Vec<Vec<String>> = Vec::new();
    for g in 0..ng
        invariant
            ng == input.groups@.len(),
            gs == input@.groups,
            names_view(group_vars@) == Seq::new(g as nat, |a: int| group_names(a, gs[a].floors)),
    {
        let floors = &input.groups[g].floors;
        let mut names: Vec<String> = Vec::new();
        for k in 0..floors.len()
            invariant
                g < ng,
                gs == input@.groups,
                floors@ == gs[g as int].floors,
                strings_view(names@) == group_names(g as int, floors@.take(k as int)),
        {
            let name = var_name_of(g, floors[k]);
            let ghost prev = names@;
            names.push(name);
            proof {
                lemma_strings_push(prev, name);
                lemma_group_names_take(g as int, floors@, k as int);
            }
        }
        assert(floors@.take(floors@.len() as int) =~= floors@);
        let ghost prev = group_vars@;
        group_vars.push(names);
        proof {
            lemma_names_push(prev, names);
            assert(names_view(group_vars@) =~= Seq::new(
                (g + 1) as nat,
                |a: int| group_names(a, gs[a].floors),
            ));
        }
    }
    let mut floor_vars: Vec<Vec<String>> = Vec::new();
    for f in 0..input.num_floors
        invariant
            ng == input.groups@.len(),
            gs == input@.groups,
            names_view(floor_vars@) == Seq::new(f as nat, |b: int| floor_names(gs, b)),
    {
        let mut names: Vec<String> = Vec::new();
        for g in 0..ng
            invariant
                ng == input.groups@.len(),
                gs == input@.groups,
                strings_view(names@) == floor_names(gs.take(g as int), f as int),
        {
            assert(gs.take(g + 1).drop_last() =~= gs.take(g as int));
            assert(input.groups@[g as int]@ == gs[g as int]);
            if has_value(&input.groups[g].floors, f) {
                let name = var_name_of(g, f);
                let ghost prev = names@;
                names.push(name);
                proof {
                    lemma_strings_push(prev, name);
                }
            }
        }
        assert(gs.take(ng as int) =~= gs);
        let ghost prev = floor_vars@;
        floor_vars.push(names);
        proof {
            lemma_names_push(prev, names);
            assert(names_view(floor_vars@) =~= Seq::new((f + 1) as nat, |b: int| floor_names(gs, b)));
        }
    }
    Some(Layout { group_vars, floor_vars })
}

} // verus!
