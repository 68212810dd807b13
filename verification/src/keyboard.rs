//! Typing on a Dvorak keyboard text meant for a QWERTY one: each character
//! found on the Dvorak layout is replaced by the QWERTY character at the same
//! key.
use vstd::prelude::*;
use crate::text::{chars_of, push_char};

verus! {

/// The keys of the QWERTY layout, in key order.
pub open spec fn qwerty() -> Seq<char> {
    seq!['-', '=', 'q', 'w', 'e', 'r', 't', 'y', 'u', 'i', 'o', 'p', '[', ']', 's', 'd', 'f', 'g', 'h', 'j', 'k', 'l', ';', '\'', 'z', 'x', 'c', 'v', 'b', 'n', ',', '.', '/', '_', '+', 'Q', 'W', 'E', 'R', 'T', 'Y', 'U', 'I', 'O', 'P', '{', '}', 'S', 'D', 'F', 'G', 'H', 'J', 'K', 'L', ':', '"', 'Z', 'X', 'C', 'V', 'B', 'N', '<', '>', '?']
}

/// The keys of the Dvorak layout, in the same key order.
pub open spec fn dvorak() -> Seq<char> {
    seq!['[', ']', '\'', ',', '.', 'p', 'y', 'f', 'g', 'c', 'r', 'l', '/', '=', 'o', 'e', 'u', 'i', 'd', 'h', 't', 'n', 's', '-', ';', 'q', 'j', 'k', 'x', 'b', 'w', 'v', 'z', '{', '}', '"', '<', '>', 'P', 'Y', 'F', 'G', 'C', 'R', 'L', '?', '+', 'O', 'E', 'U', 'I', 'D', 'H', 'T', 'N', 'S', '_', ':', 'Q', 'J', 'K', 'X', 'B', 'W', 'V', 'Z']
}

fn qwerty_keys() -> (v: Vec<char>)
    ensures
        v@ == qwerty(),
{
    let v = vec!['-', '=', 'q', 'w', 'e', 'r', 't', 'y', 'u', 'i', 'o', 'p', '[', ']', 's', 'd', 'f', 'g', 'h', 'j', 'k', 'l', ';', '\'', 'z', 'x', 'c', 'v', 'b', 'n', ',', '.', '/', '_', '+', 'Q', 'W', 'E', 'R', 'T', 'Y', 'U', 'I', 'O', 'P', '{', '}', 'S', 'D', 'F', 'G', 'H', 'J', 'K', 'L', ':', '"', 'Z', 'X', 'C', 'V', 'B', 'N', '<', '>', '?'];
    assert(v@ =~= qwerty());
    v
}

fn dvorak_keys() -> (v: Vec<char>)
    ensures
        v@ == dvorak(),
{
    let v = vec!['[', ']', '\'', ',', '.', 'p', 'y', 'f', 'g', 'c', 'r', 'l', '/', '=', 'o', 'e', 'u', 'i', 'd', 'h', 't', 'n', 's', '-', ';', 'q', 'j', 'k', 'x', 'b', 'w', 'v', 'z', '{', '}', '"', '<', '>', 'P', 'Y', 'F', 'G', 'C', 'R', 'L', '?', '+', 'O', 'E', 'U', 'I', 'D', 'H', 'T', 'N', 'S', '_', ':', 'Q', 'J', 'K', 'X', 'B', 'W', 'V', 'Z'];
    assert(v@ =~= dvorak());
    v
}

/// The first position of `c` in `s`, or -1 (what `str::find` gives for a
/// character of an ASCII string).
pub open spec fn first_index(s: Seq<char>, c: char) -> int
    decreases s.len(),
{
    if s.len() == 0 {
        -1
    } else if s[0] == c {
        0
    } else {
        let r = first_index(s.drop_first(), c);
        if r < 0 {
            -1
        } else {
            r + 1
        }
    }
}

proof fn lemma_first_index(s: Seq<char>, c: char)
    ensures
        -1 <= first_index(s, c) < s.len(),
        first_index(s, c) >= 0 ==> s[first_index(s, c)] == c,
        first_index(s, c) >= 0 ==> forall|k: int| 0 <= k < first_index(s, c) ==> s[k] != c,
        first_index(s, c) < 0 ==> forall|k: int| 0 <= k < s.len() ==> s[k] != c,
    decreases s.len(),
{
    if s.len() > 0 && s[0] != c {
        lemma_first_index(s.drop_first(), c);
        assert forall|k: int| 0 < k < s.len() implies s[k] == s.drop_first()[k - 1] by {}
    }
}

/// The character typed for `c`.
pub open spec fn translate(c: char) -> char {
    let i = first_index(dvorak(), c);
    if i >= 0 {
        qwerty()[i]
    } else {
        c
    }
}

fn translate_char(c: char, dv: &Vec<char>, qw: &Vec<char>) -> (r: char)
    requires
        dv@ == dvorak(),
        qw@ == qwerty(),
    ensures
        r == translate(c),
{
    proof {
        lemma_first_index(dv@, c);
    }
    let mut i: usize = 0;
    while i < dv.len()
        invariant
            dv@ == dvorak(),
            qw@ == qwerty(),
            i <= dv@.len(),
            forall|k: int| 0 <= k < i ==> dv@[k] != c,
        decreases dv@.len() - i,
    {
        if dv[i] == c {
            proof {
                lemma_first_index(dv@, c);
                let fi = first_index(dv@, c);
                assert(dv@[i as int] == c);
                if fi < 0 {
                    assert(dv@[i as int] != c);
                } else if fi < i {
                    assert(dv@[fi] != c);
                } else if fi > i {
                    assert(dv@[i as int] != c);
                }
            }
            return qw[i];
        }
        i = i + 1;
    }
    c
}

/// The text with every character translated.
pub fn process(input: &str) -> (r: String)
    ensures
        r@ == input@.map_values(|c: char| translate(c)),
{
    let dv = dvorak_keys();
    let qw = qwerty_keys();
    let chars = chars_of(input);
    let mut result = String::new();
    for i in 0..chars.len()
        invariant
            dv@ == dvorak(),
            qw@ == qwerty(),
            chars@ == input@,
            result@ == input@.take(i as int).map_values(|c: char| translate(c)),
    {
        let cc = translate_char(chars[i], &dv, &qw);
        push_char(&mut result, cc);
        assert(input@.take(i + 1).map_values(|c: char| translate(c)) =~= input@.take(i as int).map_values(
            |c: char| translate(c),
        ).push(cc));
    }
    assert(input@.take(chars@.len() as int) =~= input@);
    result
}

} // verus!
