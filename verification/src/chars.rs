use vstd::prelude::*;

verus! {

/// ASCII-only lowercase fold: `'A'..='Z'` map to `'a'..='z'`, everything else
/// (including non-ASCII letters) is itself.
pub open spec fn lower_char(c: char) -> char {
    if 'A' <= c && c <= 'Z' {
        ((c as u32) + 32) as char
    } else {
        c
    }
}

/// ASCII-only uppercase fold: `'a'..='z'` map to `'A'..='Z'`, everything else
/// is itself.
pub open spec fn upper_char(c: char) -> char {
    if 'a' <= c && c <= 'z' {
        ((c as u32) - 32) as char
    } else {
        c
    }
}

/// ASCII-only case swap, used to state case-insensitivity laws.
pub open spec fn swap_char(c: char) -> char {
    if 'A' <= c && c <= 'Z' {
        lower_char(c)
    } else if 'a' <= c && c <= 'z' {
        upper_char(c)
    } else {
        c
    }
}

/// A keyword as seen by a case-insensitive walk: every character folded to
/// its ASCII lowercase form.
pub open spec fn fold_seq(s: Seq<char>) -> Seq<char> {
    s.map_values(|c: char| lower_char(c))
}

pub fn to_lower(c: char) -> (r: char)
    ensures
        r == lower_char(c),
{
    if 'A' <= c && c <= 'Z' {
        let u: u32 = c as u32;
        ((u + 32) as u8) as char
    } else {
        c
    }
}

pub fn to_upper(c: char) -> (r: char)
    ensures
        r == upper_char(c),
{
    if 'a' <= c && c <= 'z' {
        let u: u32 = c as u32;
        ((u - 32) as u8) as char
    } else {
        c
    }
}

pub fn to_swapped(c: char) -> (r: char)
    ensures
        r == swap_char(c),
{
    if 'A' <= c && c <= 'Z' {
        to_lower(c)
    } else if 'a' <= c && c <= 'z' {
        to_upper(c)
    } else {
        c
    }
}

/// Folding is idempotent and ignores case, so a case-insensitive walk cannot
/// tell a character from its other case form.
pub proof fn lemma_case_pair(c: char)
    ensures
        lower_char(lower_char(c)) == lower_char(c),
        lower_char(upper_char(c)) == lower_char(c),
        upper_char(lower_char(c)) == upper_char(c),
        upper_char(upper_char(c)) == upper_char(c),
        lower_char(swap_char(c)) == lower_char(c),
        upper_char(swap_char(c)) == upper_char(c),
{
}

/// A keyword with the case of every ASCII letter swapped.
pub open spec fn swap_seq(s: Seq<char>) -> Seq<char> {
    s.map_values(|c: char| swap_char(c))
}

/// Folding erases a case swap.
pub proof fn lemma_fold_swap(s: Seq<char>)
    ensures
        fold_seq(swap_seq(s)) == fold_seq(s),
{
    assert forall|i: int| 0 <= i < s.len() implies fold_seq(swap_seq(s))[i] == fold_seq(s)[i] by {
        lemma_case_pair(s[i]);
    }
    assert(fold_seq(swap_seq(s)) =~= fold_seq(s));
}

/// Swapping case twice gives the character back.
pub proof fn lemma_swap_involution(c: char)
    ensures
        swap_char(swap_char(c)) == c,
{
}

} // verus!
