//! Word frequencies of a Spanish book: words of at least three letters,
//! lowercased, ranked by how often they occur (ties in alphabetical order),
//! and queries on the ranking by position or by word.
use vstd::prelude::*;
use regex::Regex;
use crate::text::{
    chars_lt, chars_of, chars_equal, decimal, lex_lt, lemma_lex_asymmetric, lemma_lex_irreflexive,
    lemma_lex_total, lemma_lex_transitive, parse_usize, parsed_usize, push_char, push_decimal,
    split, split_on, string_of,
};

verus! {

// ---------------------------------------------------------------------------
// Letters and the cleaning of the text
// ---------------------------------------------------------------------------

/// The accented capitals of Spanish.
pub open spec fn is_accented_capital(c: char) -> bool {
    c == 'Á' || c == 'É' || c == 'Í' || c == 'Ñ' || c == 'Ó' || c == 'Ú' || c == 'Ü'
}

/// The accented small letters of Spanish.
pub open spec fn is_accented_small(c: char) -> bool {
    c == 'á' || c == 'é' || c == 'í' || c == 'ñ' || c == 'ó' || c == 'ú' || c == 'ü'
}

/// The letters a word is made of.
pub open spec fn is_letter(c: char) -> bool {
    ('a' <= c && c <= 'z') || ('A' <= c && c <= 'Z') || is_accented_capital(c) || is_accented_small(c)
}

/// The text with each maximal run of characters that are not letters
/// replaced by one space.
pub open spec fn collapse_non_letters(s: Seq<char>) -> Seq<char>
    decreases s.len(),
{
    if s.len() == 0 {
        seq![]
    } else {
        let prev = collapse_non_letters(s.drop_last());
        if is_letter(s.last()) {
            prev.push(s.last())
        } else if s.len() >= 2 && !is_letter(s[s.len() - 2]) {
            prev
        } else {
            prev.push(' ')
        }
    }
}

/// The pattern that matches the runs of characters that are not letters.
pub open spec fn non_letter_runs() -> Seq<char> {
    "([^a-zA-ZáéíñóúüÁÉÍÑÓÚÜ]|\\s)+"@
}

/// `Regex::new` with the pattern of the runs of non-letters, then
/// `Regex::replace_all` with a single space: the crate replaces each
/// leftmost-first, non-overlapping match, here each maximal run of
/// non-letters (`\s` adds nothing, white space being made of non-letters),
/// by the replacement. The crate compiles this pattern within its default
/// limits, so the result is always there.
#[verifier::external_body]
fn regex_replace_all(pattern: &str, text: &str, rep: &str) -> (r: Option<String>)
    requires
        pattern@ == non_letter_runs(),
        rep@ == " "@,
    ensures
        r is Some,
        r matches Some(s) ==> s@ == collapse_non_letters(text@),
{
    match Regex::new(pattern) {
        Ok(re) => Some(re.replace_all(text, rep).into_owned()),
        Err(_) => None,
    }
}

proof fn lemma_collapse_clean(s: Seq<char>)
    ensures
        forall|i: int|
            0 <= i < collapse_non_letters(s).len() ==> #[trigger] collapse_non_letters(s)[i] == ' '
                || is_letter(collapse_non_letters(s)[i]),
        collapse_non_letters(s).len() <= s.len(),
    decreases s.len(),
{
    if s.len() > 0 {
        lemma_collapse_clean(s.drop_last());
    }
}

// ---------------------------------------------------------------------------
// Words and their counts
// ---------------------------------------------------------------------------

/// The small letter of a capital letter, other characters unchanged.
pub open spec fn lower(c: char) -> char {
    if 'A' <= c && c <= 'Z' {
        (((c as u32) + 32) as u8) as char
    } else if c == 'Á' {
        'á'
    } else if c == 'É' {
        'é'
    } else if c == 'Í' {
        'í'
    } else if c == 'Ñ' {
        'ñ'
    } else if c == 'Ó' {
        'ó'
    } else if c == 'Ú' {
        'ú'
    } else if c == 'Ü' {
        'ü'
    } else {
        c
    }
}

/// The words counted: the pieces between spaces of at least three
/// characters, lowercased.
pub open spec fn counted_words(pieces: Seq<Seq<char>>) -> Seq<Seq<char>>
    decreases pieces.len(),
{
    if pieces.len() == 0 {
        seq![]
    } else {
        let prev = counted_words(pieces.drop_last());
        if pieces.last().len() >= 3 {
            prev.push(pieces.last().map_values(|c: char| lower(c)))
        } else {
            prev
        }
    }
}

/// The words of a cleaned text.
pub open spec fn words_of(text: Seq<char>) -> Seq<Seq<char>> {
    counted_words(split_on(text, ' '))
}

/// How many times `w` occurs in `ws`.
pub open spec fn occurrences(ws: Seq<Seq<char>>, w: Seq<char>) -> nat
    decreases ws.len(),
{
    if ws.len() == 0 {
        0
    } else {
        occurrences(ws.drop_last(), w) + if ws.last() == w {
            1nat
        } else {
            0nat
        }
    }
}

/// Entry `a` comes before entry `b` in the ranking: it occurs more often,
/// or as often and comes first alphabetically.
pub open spec fn ranked_before(a: (Seq<char>, u32), b: (Seq<char>, u32)) -> bool {
    a.1 > b.1 || (a.1 == b.1 && lex_lt(a.0, b.0))
}

/// `r` is the ranking of the words `ws`: each distinct word once with its
/// number of occurrences, in ranking order.
pub open spec fn is_ranking(r: Seq<(Seq<char>, u32)>, ws: Seq<Seq<char>>) -> bool {
    &&& forall|k: int| 0 <= k < r.len() ==> (#[trigger] r[k]).1 == occurrences(ws, r[k].0)
    &&& forall|k: int| 0 <= k < r.len() ==> ws.contains((#[trigger] r[k]).0)
    &&& forall|w: Seq<char>| ws.contains(w) ==> exists|k: int| 0 <= k < r.len() && (#[trigger] r[k]).0 == w
    &&& forall|a: int, b: int| 0 <= a < b < r.len() ==> ranked_before(#[trigger] r[a], #[trigger] r[b])
}

/// The entries of a ranking as plain values.
pub open spec fn entries(r: Seq<(String, u32)>) -> Seq<(Seq<char>, u32)> {
    Seq::new(r.len(), |k: int| (r[k].0@, r[k].1))
}

proof fn lemma_occurrences_push(ws: Seq<Seq<char>>, x: Seq<char>, w: Seq<char>)
    ensures
        occurrences(ws.push(x), w) == occurrences(ws, w) + if x == w {
            1nat
        } else {
            0nat
        },
{
    assert(ws.push(x).drop_last() =~= ws);
}

proof fn lemma_occurrences_positive(ws: Seq<Seq<char>>, w: Seq<char>)
    ensures
        ws.contains(w) <==> occurrences(ws, w) > 0,
        occurrences(ws, w) <= ws.len(),
    decreases ws.len(),
{
    if ws.len() > 0 {
        lemma_occurrences_positive(ws.drop_last(), w);
        if ws.contains(w) && ws.last() != w {
            let k = choose|k: int| 0 <= k < ws.len() && ws[k] == w;
            assert(ws.drop_last()[k] == w);
        }
        if ws.drop_last().contains(w) {
            let k = choose|k: int| 0 <= k < ws.len() - 1 && ws.drop_last()[k] == w;
            assert(ws[k] == w);
        }
        if ws.last() == w {
            assert(ws[ws.len() - 1] == w);
        }
    }
}

/// A capital letter of the book's alphabet: `A` to `Z`, `Á`, `É`, `Í`,
/// `Ñ`, `Ó`, `Ú`, `Ü`.
pub open spec fn is_capital(c: char) -> bool {
    ('A' <= c && c <= 'Z') || c == 'Á' || c == 'É' || c == 'Í' || c == 'Ñ' || c == 'Ó' || c == 'Ú'
        || c == 'Ü'
}

/// Lowercasing, as `str::to_lowercase` does on the book's letters: each
/// capital becomes its small letter, 32 code points further on (`A`→`a`,
/// `Ñ`→`ñ`, `Ü`→`ü`, ...), which is no capital; any other character stays.
pub proof fn lemma_lower_letters(c: char)
    ensures
        is_capital(c) ==> lower(c) as u32 == c as u32 + 32 && !is_capital(lower(c)),
        !is_capital(c) ==> lower(c) == c,
{
    if 'A' <= c && c <= 'Z' {
        assert(((c as u32) + 32) as u8 as u32 == (c as u32) + 32);
    }
}

/// No counted word holds a capital letter.
pub proof fn lemma_words_have_no_capitals(text: Seq<char>)
    ensures
        forall|k: int, i: int|
            0 <= k < words_of(text).len() && 0 <= i < words_of(text)[k].len() ==> !is_capital(
                #[trigger] words_of(text)[k][i],
            ),
{
    lemma_counted_no_capitals(split_on(text, ' '));
}

proof fn lemma_counted_no_capitals(pieces: Seq<Seq<char>>)
    ensures
        forall|k: int, i: int|
            0 <= k < counted_words(pieces).len() && 0 <= i < counted_words(pieces)[k].len()
                ==> !is_capital(#[trigger] counted_words(pieces)[k][i]),
    decreases pieces.len(),
{
    if pieces.len() > 0 {
        lemma_counted_no_capitals(pieces.drop_last());
        let prev = counted_words(pieces.drop_last());
        let cw = counted_words(pieces);
        assert forall|k: int, i: int| 0 <= k < cw.len() && 0 <= i < cw[k].len() implies !is_capital(
            #[trigger] cw[k][i],
        ) by {
            if k < prev.len() {
                assert(cw[k] == prev[k]);
            } else {
                let c = pieces.last()[i];
                lemma_lower_letters(c);
                assert(cw[k][i] == lower(c));
            }
        }
    }
}

fn lower_char(c: char) -> (r: char)
    ensures
        r == lower(c),
{
    if 'A' <= c && c <= 'Z' {
        (((c as u32) + 32) as u8) as char
    } else if c == 'Á' {
        'á'
    } else if c == 'É' {
        'é'
    } else if c == 'Í' {
        'í'
    } else if c == 'Ñ' {
        'ñ'
    } else if c == 'Ó' {
        'ó'
    } else if c == 'Ú' {
        'ú'
    } else if c == 'Ü' {
        'ü'
    } else {
        c
    }
}

fn lowercase(w: &Vec<char>) -> (r: Vec<char>)
    ensures
        r@ == w@.map_values(|c: char| lower(c)),
{
    let mut r: Vec<char> = Vec::new();
    for i in 0..w.len()
        invariant
            r@ == w@.take(i as int).map_values(|c: char| lower(c)),
    {
        r.push(lower_char(w[i]));
        assert(w@.take(i + 1).map_values(|c: char| lower(c)) =~= w@.take(i as int).map_values(
            |c: char| lower(c),
        ).push(lower(w@[i as int])));
    }
    assert(w@.take(w@.len() as int) =~= w@);
    r
}

/// An entry of a count table as plain values.
pub open spec fn entry_view(e: (Vec<char>, u32)) -> (Seq<char>, u32) {
    (e.0@, e.1)
}

/// The table's words are in strictly increasing alphabetical order.
pub open spec fn sorted_words(t: Seq<(Vec<char>, u32)>) -> bool {
    forall|a: int, b: int| 0 <= a < b < t.len() ==> lex_lt((#[trigger] t[a]).0@, (#[trigger] t[b]).0@)
}

/// The table's entries are in strictly increasing ranking order.
pub open spec fn sorted_ranks(t: Seq<(Vec<char>, u32)>) -> bool {
    forall|a: int, b: int|
        0 <= a < b < t.len() ==> ranked_before(entry_view(#[trigger] t[a]), entry_view(#[trigger] t[b]))
}

/// The table counts the words `ws`: each distinct word once with its count.
pub open spec fn counts_words(t: Seq<(Vec<char>, u32)>, ws: Seq<Seq<char>>) -> bool {
    &&& forall|k: int| 0 <= k < t.len() ==> (#[trigger] t[k]).1 == occurrences(ws, t[k].0@)
    &&& forall|k: int| 0 <= k < t.len() ==> ws.contains((#[trigger] t[k]).0@)
    &&& forall|w: Seq<char>| ws.contains(w) ==> exists|k: int| 0 <= k < t.len() && (#[trigger] t[k]).0@ == w
}

fn find_word(counts: &Vec<(Vec<char>, u32)>, w: &Vec<char>) -> (r: (bool, usize))
    requires
        sorted_words(counts@),
    ensures
        r.1 <= counts@.len(),
        r.0 ==> r.1 < counts@.len() && counts@[r.1 as int].0@ == w@,
        !r.0 ==> forall|a: int| 0 <= a < r.1 ==> lex_lt((#[trigger] counts@[a]).0@, w@),
        !r.0 ==> forall|a: int| r.1 <= a < counts@.len() ==> lex_lt(w@, (#[trigger] counts@[a]).0@),
{
    let mut lo: usize = 0;
    let mut hi: usize = counts.len();
    while lo < hi
        invariant
            sorted_words(counts@),
            lo <= hi <= counts@.len(),
            forall|a: int| 0 <= a < lo ==> lex_lt((#[trigger] counts@[a]).0@, w@),
            forall|a: int| hi <= a < counts@.len() ==> lex_lt(w@, (#[trigger] counts@[a]).0@),
        decreases hi - lo,
    {
        let mid = lo + (hi - lo) / 2;
        if chars_lt(&counts[mid].0, w) {
            assert forall|a: int| 0 <= a < mid + 1 implies lex_lt((#[trigger] counts@[a]).0@, w@) by {
                if a < mid {
                    lemma_lex_transitive(counts@[a].0@, counts@[mid as int].0@, w@);
                }
            }
            lo = mid + 1;
        } else if chars_lt(w, &counts[mid].0) {
            assert forall|a: int| mid <= a < counts@.len() implies lex_lt(w@, (#[trigger] counts@[a]).0@) by {
                if a > mid {
                    lemma_lex_transitive(w@, counts@[mid as int].0@, counts@[a].0@);
                }
            }
            hi = mid;
        } else {
            proof {
                lemma_lex_total(counts@[mid as int].0@, w@);
            }
            return (true, mid);
        }
    }
    (false, lo)
}

proof fn lemma_contains_push(ws: Seq<Seq<char>>, x: Seq<char>, w: Seq<char>)
    ensures
        ws.push(x).contains(w) <==> (ws.contains(w) || x == w),
{
    if ws.push(x).contains(w) {
        let k = choose|k: int| 0 <= k < ws.len() + 1 && ws.push(x)[k] == w;
        if k < ws.len() {
            assert(ws[k] == w);
        }
    }
    if ws.contains(w) {
        let k = choose|k: int| 0 <= k < ws.len() && ws[k] == w;
        assert(ws.push(x)[k] == w);
    }
    if x == w {
        assert(ws.push(x)[ws.len() as int] == w);
    }
}

/// The count table of the words of a cleaned text, in alphabetical order.
/// Counting more pieces never lowers a word's count.
proof fn lemma_occurrences_grow(ps: Seq<Seq<char>>, k: int, n: int, w: Seq<char>)
    requires
        0 <= k <= n <= ps.len(),
    ensures
        occurrences(counted_words(ps.take(k)), w) <= occurrences(counted_words(ps.take(n)), w),
    decreases n - k,
{
    if k < n {
        lemma_occurrences_grow(ps, k + 1, n, w);
        assert(ps.take(k + 1).drop_last() =~= ps.take(k));
        let prev = counted_words(ps.take(k));
        if ps.take(k + 1).last().len() >= 3 {
            lemma_occurrences_push(prev, ps.take(k + 1).last().map_values(|c: char| lower(c)), w);
        }
    }
}

fn count_words(pieces: &Vec<Vec<char>>, text: Ghost<Seq<char>>) -> (counts: Vec<(Vec<char>, u32)>)
    requires
        pieces@.len() == split_on(text@, ' ').len(),
        forall|k: int| 0 <= k < pieces@.len() ==> (#[trigger] pieces@[k])@ == split_on(text@, ' ')[k],
        forall|w: Seq<char>| #[trigger] occurrences(words_of(text@), w) <= u32::MAX,
    ensures
        sorted_words(counts@),
        counts_words(counts@, words_of(text@)),
{
    let ghost ps = split_on(text@, ' ');
    assert forall|w: Seq<char>| #[trigger] occurrences(counted_words(ps), w) <= u32::MAX by {
        assert(occurrences(words_of(text@), w) <= u32::MAX);
    }
    let mut counts: Vec<(Vec<char>, u32)> = Vec::new();
    for i in 0..pieces.len()
        invariant
            pieces@.len() == ps.len(),
            ps == split_on(text@, ' '),
            forall|k: int| 0 <= k < pieces@.len() ==> (#[trigger] pieces@[k])@ == ps[k],
            forall|w: Seq<char>| #[trigger] occurrences(counted_words(ps), w) <= u32::MAX,
            sorted_words(counts@),
            counts_words(counts@, counted_words(ps.take(i as int))),
            counted_words(ps.take(i as int)).len() <= i,
    {
        let ghost before = counts@;
        let ghost ws = counted_words(ps.take(i as int));
        proof {
            assert(ps.take(i + 1).drop_last() =~= ps.take(i as int));
            assert(ps.take(i + 1).last() == ps[i as int]);
        }
        if pieces[i].len() >= 3 {
            let w = lowercase(&pieces[i]);
            let ghost ws2 = ws.push(w@);
            assert(counted_words(ps.take(i + 1)) == ws2);
            proof {
                lemma_occurrences_grow(ps, i + 1, ps.len() as int, w@);
                assert(ps.take(ps.len() as int) =~= ps);
                assert(occurrences(counted_words(ps), w@) <= u32::MAX);
                lemma_occurrences_push(ws, w@, w@);
                assert(occurrences(ws, w@) + 1 <= u32::MAX);
            }
            let (found, pos) = find_word(&counts, &w);
            if found {
                proof {
                    lemma_occurrences_positive(ws, w@);
                    lemma_occurrences_positive(ws2, w@);
                }
                let c = counts[pos].1;
                let entry = (counts[pos].0.clone(), c + 1);
                counts.set(pos, entry);
                proof {
                    assert forall|k: int| 0 <= k < counts@.len() implies (#[trigger] counts@[k]).1 == occurrences(ws2, counts@[k].0@) by {
                        lemma_occurrences_push(ws, w@, counts@[k].0@);
                        if k != pos {
                            assert(counts@[k] == before[k]);
                            assert(before[k].0@ != w@) by {
                                if k < pos {
                                    assert(lex_lt(before[k].0@, before[pos as int].0@));
                                } else {
                                    assert(lex_lt(before[pos as int].0@, before[k].0@));
                                }
                                lemma_lex_irreflexive(w@);
                            }
                        }
                    }
                    assert forall|k: int| 0 <= k < counts@.len() implies ws2.contains((#[trigger] counts@[k]).0@) by {
                        lemma_contains_push(ws, w@, counts@[k].0@);
                        if k != pos {
                            assert(counts@[k] == before[k]);
                        }
                    }
                    assert forall|x: Seq<char>| ws2.contains(x) implies exists|k: int| 0 <= k < counts@.len() && (#[trigger] counts@[k]).0@ == x by {
                        lemma_contains_push(ws, w@, x);
                        if x == w@ {
                            assert(counts@[pos as int].0@ == x);
                        } else {
                            let k = choose|k: int| 0 <= k < before.len() && (#[trigger] before[k]).0@ == x;
                            if k == pos {
                            } else {
                                assert(counts@[k] == before[k]);
                            }
                        }
                    }
                    assert forall|a: int, b: int| 0 <= a < b < counts@.len() implies lex_lt((#[trigger] counts@[a]).0@, (#[trigger] counts@[b]).0@) by {
                        assert(before[a].0@ == counts@[a].0@);
                        assert(before[b].0@ == counts@[b].0@);
                    }
                }
            } else {
                counts.insert(pos, (w, 1));
                proof {
                    lemma_occurrences_positive(ws, w@);
                    assert(!ws.contains(w@)) by {
                        if ws.contains(w@) {
                            let k = choose|k: int| 0 <= k < before.len() && (#[trigger] before[k]).0@ == w@;
                            if k < pos {
                                lemma_lex_irreflexive(w@);
                            } else {
                                lemma_lex_irreflexive(w@);
                            }
                        }
                    }
                    assert(counts@ == before.insert(pos as int, (w, 1u32)));
                    assert forall|k: int| 0 <= k < pos implies counts@[k] == before[k] by {}
                    assert forall|k: int| pos < k < counts@.len() implies counts@[k] == before[k - 1] by {}
                    assert forall|k: int| 0 <= k < counts@.len() implies (#[trigger] counts@[k]).1 == occurrences(ws2, counts@[k].0@) by {
                        lemma_occurrences_push(ws, w@, counts@[k].0@);
                        if k < pos {
                            assert(lex_lt(before[k].0@, w@));
                            lemma_lex_irreflexive(w@);
                        } else if k > pos {
                            assert(lex_lt(w@, before[k - 1].0@));
                            lemma_lex_irreflexive(w@);
                        }
                    }
                    assert forall|k: int| 0 <= k < counts@.len() implies ws2.contains((#[trigger] counts@[k]).0@) by {
                        lemma_contains_push(ws, w@, counts@[k].0@);
                    }
                    assert forall|x: Seq<char>| ws2.contains(x) implies exists|k: int| 0 <= k < counts@.len() && (#[trigger] counts@[k]).0@ == x by {
                        lemma_contains_push(ws, w@, x);
                        if x == w@ {
                            assert(counts@[pos as int].0@ == x);
                        } else {
                            let k = choose|k: int| 0 <= k < before.len() && (#[trigger] before[k]).0@ == x;
                            if k < pos {
                                assert(counts@[k].0@ == x);
                            } else {
                                assert(counts@[k + 1].0@ == x);
                            }
                        }
                    }
                    assert forall|a: int, b: int| 0 <= a < b < counts@.len() implies lex_lt((#[trigger] counts@[a]).0@, (#[trigger] counts@[b]).0@) by {
                        if a < pos && b < pos {
                        } else if a < pos && b == pos {
                        } else if a < pos {
                            lemma_lex_transitive(before[a].0@, w@, before[b - 1].0@);
                        } else if a == pos {
                        } else {
                            assert(lex_lt(before[a - 1].0@, before[b - 1].0@));
                        }
                    }
                }
            }
        } else {
            assert(counted_words(ps.take(i + 1)) == ws);
        }
    }
    assert(ps.take(pieces@.len() as int) =~= ps);
    counts
}

proof fn lemma_ranked_transitive(a: (Seq<char>, u32), b: (Seq<char>, u32), c: (Seq<char>, u32))
    requires
        ranked_before(a, b),
        ranked_before(b, c),
    ensures
        ranked_before(a, c),
{
    if a.1 == b.1 && b.1 == c.1 {
        lemma_lex_transitive(a.0, b.0, c.0);
    }
}

proof fn lemma_ranked_total(a: (Seq<char>, u32), b: (Seq<char>, u32))
    requires
        a.0 != b.0,
    ensures
        ranked_before(a, b) || ranked_before(b, a),
        !(ranked_before(a, b) && ranked_before(b, a)),
{
    lemma_lex_total(a.0, b.0);
    lemma_lex_asymmetric(a.0, b.0);
}

fn before(a: &(Vec<char>, u32), b: &(Vec<char>, u32)) -> (r: bool)
    ensures
        r == ranked_before(entry_view(*a), entry_view(*b)),
{
    a.1 > b.1 || (a.1 == b.1 && chars_lt(&a.0, &b.0))
}

/// The table holds an entry with these values.
pub open spec fn has_entry(t: Seq<(Vec<char>, u32)>, e: (Seq<char>, u32)) -> bool {
    exists|k: int| 0 <= k < t.len() && entry_view(#[trigger] t[k]) == e
}

/// The two tables hold the same entries.
pub open spec fn same_entries(x: Seq<(Vec<char>, u32)>, y: Seq<(Vec<char>, u32)>) -> bool {
    &&& forall|k: int| 0 <= k < x.len() ==> has_entry(y, entry_view(#[trigger] x[k]))
    &&& forall|t: int| 0 <= t < y.len() ==> has_entry(x, entry_view(#[trigger] y[t]))
}

proof fn lemma_same_entries(
    x: Seq<(Vec<char>, u32)>,
    y: Seq<(Vec<char>, u32)>,
    src: Seq<int>,
    dst: Seq<int>,
)
    requires
        x.len() == y.len(),
        src.len() == x.len(),
        dst.len() == y.len(),
        forall|k: int|
            0 <= k < x.len() ==> 0 <= #[trigger] src[k] < y.len() && entry_view(x[k]) == entry_view(
                y[src[k]],
            ),
        forall|t: int|
            0 <= t < y.len() ==> 0 <= #[trigger] dst[t] < x.len() && entry_view(x[dst[t]]) == entry_view(
                y[t],
            ),
    ensures
        same_entries(x, y),
{
    assert forall|k: int| 0 <= k < x.len() implies has_entry(y, entry_view(#[trigger] x[k])) by {
        let t = src[k];
        assert(entry_view(y[t]) == entry_view(x[k]));
    }
    assert forall|t: int| 0 <= t < y.len() implies has_entry(x, entry_view(#[trigger] y[t])) by {
        let k = dst[t];
        assert(entry_view(x[k]) == entry_view(y[t]));
    }
}

proof fn lemma_insert_ranked(old: Seq<(Vec<char>, u32)>, new: Seq<(Vec<char>, u32)>, p: int, e: (Vec<char>, u32))
    requires
        sorted_ranks(old),
        0 <= p <= old.len(),
        new == old.insert(p, e),
        forall|a: int| 0 <= a < p ==> ranked_before(entry_view(#[trigger] old[a]), entry_view(e)),
        forall|a: int| p <= a < old.len() ==> ranked_before(entry_view(e), entry_view(#[trigger] old[a])),
    ensures
        sorted_ranks(new),
{
    assert forall|k: int| 0 <= k < p implies new[k] == old[k] by {}
    assert forall|k: int| p < k < new.len() implies new[k] == old[k - 1] by {}
    assert(new[p] == e);
    assert forall|a: int, b: int| 0 <= a < b < new.len() implies ranked_before(entry_view(#[trigger] new[a]), entry_view(#[trigger] new[b])) by {
        if a < p && b < p {
        } else if a < p && b == p {
        } else if a < p {
            lemma_ranked_transitive(entry_view(old[a]), entry_view(e), entry_view(old[b - 1]));
        } else if a == p {
        } else {
            assert(ranked_before(entry_view(old[a - 1]), entry_view(old[b - 1])));
        }
    }
}

fn rank_slot(ranked: &Vec<(Vec<char>, u32)>, e: &(Vec<char>, u32)) -> (p: usize)
    requires
        sorted_ranks(ranked@),
        forall|k: int| 0 <= k < ranked@.len() ==> (#[trigger] ranked@[k]).0@ != e.0@,
    ensures
        p <= ranked@.len(),
        forall|a: int| 0 <= a < p ==> ranked_before(entry_view(#[trigger] ranked@[a]), entry_view(*e)),
        forall|a: int| p <= a < ranked@.len() ==> ranked_before(entry_view(*e), entry_view(#[trigger] ranked@[a])),
{
    let ghost ev = entry_view(*e);
    let mut lo: usize = 0;
    let mut hi: usize = ranked.len();
    while lo < hi
        invariant
            sorted_ranks(ranked@),
            lo <= hi <= ranked@.len(),
            forall|k: int| 0 <= k < ranked@.len() ==> (#[trigger] ranked@[k]).0@ != ev.0,
            ev == entry_view(*e),
            forall|a: int| 0 <= a < lo ==> ranked_before(entry_view(#[trigger] ranked@[a]), ev),
            forall|a: int| hi <= a < ranked@.len() ==> ranked_before(ev, entry_view(#[trigger] ranked@[a])),
        decreases hi - lo,
    {
        let mid = lo + (hi - lo) / 2;
        if before(&ranked[mid], e) {
            assert forall|a: int| 0 <= a < mid + 1 implies ranked_before(entry_view(#[trigger] ranked@[a]), ev) by {
                if a < mid {
                    lemma_ranked_transitive(entry_view(ranked@[a]), entry_view(ranked@[mid as int]), ev);
                }
            }
            lo = mid + 1;
        } else {
            proof {
                lemma_ranked_total(entry_view(ranked@[mid as int]), ev);
            }
            assert forall|a: int| mid <= a < ranked@.len() implies ranked_before(ev, entry_view(#[trigger] ranked@[a])) by {
                if a > mid {
                    lemma_ranked_transitive(ev, entry_view(ranked@[mid as int]), entry_view(ranked@[a]));
                }
            }
            hi = mid;
        }
    }
    lo
}

/// The count table's entries in ranking order.
fn rank_entries(counts: &Vec<(Vec<char>, u32)>) -> (ranked: Vec<(Vec<char>, u32)>)
    requires
        sorted_words(counts@),
    ensures
        sorted_ranks(ranked@),
        ranked@.len() == counts@.len(),
        same_entries(ranked@, counts@),
{
    let mut ranked: Vec<(Vec<char>, u32)> = Vec::new();
    let ghost mut src: Seq<int> = seq![];
    let ghost mut dst: Seq<int> = seq![];
    let mut j: usize = 0;
    while j < counts.len()
        invariant
            j <= counts@.len(),
            sorted_words(counts@),
            sorted_ranks(ranked@),
            ranked@.len() == j,
            src.len() == j,
            dst.len() == j,
            forall|k: int|
                0 <= k < j ==> 0 <= #[trigger] src[k] < j && entry_view(ranked@[k]) == entry_view(
                    counts@[src[k]],
                ),
            forall|t: int|
                0 <= t < j ==> 0 <= #[trigger] dst[t] < j && entry_view(ranked@[dst[t]]) == entry_view(
                    counts@[t],
                ),
        decreases counts@.len() - j,
    {
        let e = (counts[j].0.clone(), counts[j].1);
        let ghost old_ranked = ranked@;
        proof {
            assert forall|k: int| 0 <= k < ranked@.len() implies (#[trigger] ranked@[k]).0@ != e.0@ by {
                let t = src[k];
                assert(lex_lt(counts@[t].0@, counts@[j as int].0@));
                lemma_lex_irreflexive(e.0@);
            }
        }
        let p = rank_slot(&ranked, &e);
        ranked.insert(p, e);
        proof {
            lemma_insert_ranked(old_ranked, ranked@, p as int, e);
            let pi = p as int;
            assert forall|k: int| 0 <= k < pi implies ranked@[k] == old_ranked[k] by {}
            assert forall|k: int| pi < k < ranked@.len() implies ranked@[k] == old_ranked[k - 1] by {}
            let new_src = src.insert(pi, j as int);
            let new_dst = Seq::new(
                (j + 1) as nat,
                |t: int| if t == j {
                    pi
                } else if dst[t] >= pi {
                    dst[t] + 1
                } else {
                    dst[t]
                },
            );
            assert forall|k: int|
                0 <= k < j + 1 implies 0 <= #[trigger] new_src[k] < j + 1 && entry_view(ranked@[k]) == entry_view(
                    counts@[new_src[k]],
                ) by {
                if k < pi {
                    assert(new_src[k] == src[k]);
                } else if k == pi {
                } else {
                    assert(new_src[k] == src[k - 1]);
                }
            }
            assert forall|t: int|
                0 <= t < j + 1 implies 0 <= #[trigger] new_dst[t] < j + 1 && entry_view(ranked@[new_dst[t]]) == entry_view(
                    counts@[t],
                ) by {
                if t < j {
                    if dst[t] >= pi {
                        assert(ranked@[dst[t] + 1] == old_ranked[dst[t]]);
                    } else {
                        assert(ranked@[dst[t]] == old_ranked[dst[t]]);
                    }
                }
            }
            src = new_src;
            dst = new_dst;
        }
        j = j + 1;
    }
    proof {
        lemma_same_entries(ranked@, counts@, src, dst);
        assert(same_entries(ranked@, counts@));
    }
    ranked
}

/// The ranking of the words of a cleaned text (letters and spaces only).
pub fn rank_words(clean: &str) -> (r: Vec<(String, u32)>)
    requires
        forall|i: int| 0 <= i < clean@.len() ==> #[trigger] clean@[i] == ' ' || is_letter(clean@[i]),
        forall|w: Seq<char>| #[trigger] occurrences(words_of(clean@), w) <= u32::MAX,
    ensures
        is_ranking(entries(r@), words_of(clean@)),
{
    let chars = chars_of(clean);
    let pieces = split(&chars, ' ');
    let counts = count_words(&pieces, Ghost(clean@));
    let ranked = rank_entries(&counts);
    let ghost ws = words_of(clean@);
    let mut r: Vec<(String, u32)> = Vec::new();
    for k in 0..ranked.len()
        invariant
            r@.len() == k,
            forall|t: int| 0 <= t < k ==> entry_view(#[trigger] ranked@[t]) == (r@[t].0@, r@[t].1),
    {
        let word = string_of(&ranked[k].0);
        r.push((word, ranked[k].1));
    }
    proof {
        let es = entries(r@);
        assert forall|k: int| 0 <= k < es.len() implies (#[trigger] es[k]).1 == occurrences(ws, es[k].0) && ws.contains(es[k].0) by {
            assert(es[k] == entry_view(ranked@[k]));
            assert(has_entry(counts@, entry_view(ranked@[k])));
            let t = choose|t: int| 0 <= t < counts@.len() && entry_view(#[trigger] counts@[t]) == entry_view(ranked@[k]);
        }
        assert forall|w: Seq<char>| ws.contains(w) implies exists|k: int| 0 <= k < es.len() && (#[trigger] es[k]).0 == w by {
            let t = choose|t: int| 0 <= t < counts@.len() && (#[trigger] counts@[t]).0@ == w;
            assert(has_entry(ranked@, entry_view(counts@[t])));
            let k = choose|k: int| 0 <= k < ranked@.len() && entry_view(#[trigger] ranked@[k]) == entry_view(counts@[t]);
            assert(es[k] == entry_view(ranked@[k]));
        }
        assert forall|a: int, b: int| 0 <= a < b < es.len() implies ranked_before(#[trigger] es[a], #[trigger] es[b]) by {
            assert(es[a] == entry_view(ranked@[a]));
            assert(es[b] == entry_view(ranked@[b]));
        }
    }
    r
}

/// The ranking of the words of a book: the runs of non-letters are
/// replaced by spaces (by `regex`), then the words are counted and ranked.
/// No word may occur more often than a `u32` counts.
pub fn build_ranking(book: &str) -> (r: Vec<(String, u32)>)
    requires
        forall|w: Seq<char>|
            #[trigger] occurrences(words_of(collapse_non_letters(book@)), w) <= u32::MAX,
    ensures
        is_ranking(entries(r@), words_of(collapse_non_letters(book@))),
{
    let clean = match regex_replace_all("([^a-zA-ZáéíñóúüÁÉÍÑÓÚÜ]|\\s)+", book, " ") {
        Some(c) => c,
        None => {
            assert(false);
            return Vec::new();
        },
    };
    proof {
        lemma_collapse_clean(book@);
    }
    rank_words(clean.as_str())
}

/// The first position of `word` in the ranking, or -1.
pub open spec fn position_of(rank: Seq<(String, u32)>, word: Seq<char>) -> int
    decreases rank.len(),
{
    if rank.len() == 0 {
        -1
    } else {
        let p = position_of(rank.drop_last(), word);
        if p >= 0 {
            p
        } else if rank.last().0@ == word {
            rank.len() - 1
        } else {
            -1
        }
    }
}

proof fn lemma_position_of(rank: Seq<(String, u32)>, word: Seq<char>)
    ensures
        -1 <= position_of(rank, word) < rank.len(),
        position_of(rank, word) >= 0 ==> rank[position_of(rank, word)].0@ == word,
        position_of(rank, word) >= 0 ==> forall|k: int|
            0 <= k < position_of(rank, word) ==> (#[trigger] rank[k]).0@ != word,
        position_of(rank, word) < 0 ==> forall|k: int| 0 <= k < rank.len() ==> (#[trigger] rank[k]).0@ != word,
    decreases rank.len(),
{
    if rank.len() > 0 {
        lemma_position_of(rank.drop_last(), word);
        assert forall|k: int| 0 <= k < rank.len() - 1 implies rank[k] == rank.drop_last()[k] by {}
    }
}

/// The answer to a query: for a position (what `str::parse::<usize>`
/// accepts), the word there and its count; for a word, its count and its
/// position (from 1).
pub open spec fn answer(query: Seq<char>, rank: Seq<(String, u32)>) -> Seq<char> {
    match parsed_usize(query) {
        Some(n) => rank[n - 1].0@ + seq![' '] + decimal(rank[n - 1].1 as nat),
        None => {
            let p = position_of(rank, query);
            decimal(rank[p].1 as nat) + seq![' ', '#'] + decimal((p + 1) as nat)
        },
    }
}

/// Answers a query on the ranking. A position must be in the ranking and a
/// word must occur in it.
pub fn process(query: &str, rank: &Vec<(String, u32)>) -> (r: String)
    requires
        match parsed_usize(query@) {
            Some(n) => 1 <= n <= rank@.len(),
            None => exists|k: int| 0 <= k < rank@.len() && (#[trigger] rank@[k]).0@ == query@,
        },
    ensures
        r@ == answer(query@, rank@),
{
    let q = chars_of(query);
    match parse_usize(&q) {
        Some(n) => {
            let mut out = String::new();
            out.append(rank[n - 1].0.as_str());
            push_char(&mut out, ' ');
            push_decimal(&mut out, rank[n - 1].1 as u64);
            out
        },
        None => {
            proof {
                lemma_position_of(rank@, query@);
            }
            let mut index: usize = 0;
            while index < rank.len()
                invariant
                    q@ == query@,
                    index <= rank@.len(),
                    forall|k: int| 0 <= k < index ==> (#[trigger] rank@[k]).0@ != query@,
                    exists|k: int| 0 <= k < rank@.len() && (#[trigger] rank@[k]).0@ == query@,
                    -1 <= position_of(rank@, query@) < rank@.len(),
                    position_of(rank@, query@) >= 0 ==> rank@[position_of(rank@, query@)].0@ == query@,
                    position_of(rank@, query@) >= 0 ==> forall|k: int|
                        0 <= k < position_of(rank@, query@) ==> (#[trigger] rank@[k]).0@ != query@,
                    position_of(rank@, query@) < 0 ==> forall|k: int|
                        0 <= k < rank@.len() ==> (#[trigger] rank@[k]).0@ != query@,
                ensures
                    index <= rank@.len(),
                    forall|k: int| 0 <= k < index ==> (#[trigger] rank@[k]).0@ != query@,
                    index < rank@.len() ==> rank@[index as int].0@ == query@,
                decreases rank@.len() - index,
            {
                let w = chars_of(rank[index].0.as_str());
                if chars_equal(&w, &q) {
                    break;
                }
                index = index + 1;
            }
            proof {
                if index == rank@.len() {
                    let k = choose|k: int| 0 <= k < rank@.len() && (#[trigger] rank@[k]).0@ == query@;
                    assert(rank@[k].0@ != query@);
                }
                let p = position_of(rank@, query@);
                assert(p >= 0);
                if p < index {
                    assert(rank@[p].0@ != query@);
                }
                if p > index {
                    assert(rank@[index as int].0@ != query@);
                }
            }
            let n = rank.len();
            assert(index < n);
            let mut out = String::new();
            push_decimal(&mut out, rank[index].1 as u64);
            push_char(&mut out, ' ');
            push_char(&mut out, '#');
            push_decimal(&mut out, (index + 1) as u64);
            out
        },
    }
}

} // verus!
