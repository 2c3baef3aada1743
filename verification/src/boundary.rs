use vstd::prelude::*;

verus! {

/// The default word characters: ASCII letters, digits and underscore.
pub open spec fn default_word_char(c: char) -> bool {
    ('a' <= c && c <= 'z') || ('A' <= c && c <= 'Z') || ('0' <= c && c <= '9') || c == '_'
}

pub proof fn lemma_contains_push<T>(s: Seq<T>, x: T, c: T)
    ensures
        s.push(x).contains(c) <==> (s.contains(c) || c == x),
{
    let s2 = s.push(x);
    if s2.contains(c) {
        let k = choose|k: int| 0 <= k < s2.len() && s2[k] == c;
        if k < s.len() {
            assert(s[k] == c);
        }
    }
    if s.contains(c) {
        let k = choose|k: int| 0 <= k < s.len() && s[k] == c;
        assert(s2[k] == c);
    }
    if c == x {
        assert(s2[s.len() as int] == c);
    }
}

/// Whether `c` occurs in `v`.
pub fn contains_char(v: &Vec<char>, c: char) -> (r: bool)
    ensures
        r == v@.contains(c),
{
    let n = v.len();
    let mut i: usize = 0;
    while i < n
        invariant
            n == v@.len(),
            i <= n,
            forall|k: int| 0 <= k < i ==> v@[k] != c,
        decreases n - i,
    {
        if v[i] == c {
            return true;
        }
        i += 1;
    }
    proof {
        if v@.contains(c) {
            let k = choose|k: int| 0 <= k < v@.len() && v@[k] == c;
            assert(false);
        }
    }
    false
}

fn push_range(r: &mut Vec<char>, lo: u8, hi: u8)
    requires
        lo <= hi < 128,
    ensures
        forall|c: char|
            final(r)@.contains(c) <==> (old(r)@.contains(c) || (lo as char <= c && c
                <= hi as char)),
{
    let ghost pre = r@;
    let mut b: u8 = lo;
    let mut done = false;
    while !done
        invariant
            lo <= b <= hi < 128,
            done ==> b == hi,
            forall|c: char|
                r@.contains(c) <==> (pre.contains(c) || (lo as char <= c && (if done {
                    c <= hi as char
                } else {
                    c < b as char
                }))),
        decreases (if done {
            0int
        } else {
            1int
        }), hi - b,
    {
        let ghost before = r@;
        let ch = b as char;
        r.push(ch);
        proof {
            assert forall|c: char|
                r@.contains(c) <==> (before.contains(c) || c == ch) by {
                lemma_contains_push(before, ch, c);
            }
        }
        if b == hi {
            done = true;
        } else {
            b += 1;
        }
    }
}

/// The default boundary set: ASCII letters, digits and underscore.
pub fn default_boundaries() -> (r: Vec<char>)
    ensures
        forall|c: char| r@.contains(c) <==> default_word_char(c),
{
    let mut r: Vec<char> = Vec::new();
    let ghost g0 = r@;
    proof {
        assert(forall|c: char| !g0.contains(c));
    }
    push_range(&mut r, 97, 122);
    let ghost g1 = r@;
    push_range(&mut r, 65, 90);
    let ghost g2 = r@;
    push_range(&mut r, 48, 57);
    let ghost g3 = r@;
    r.push('_');
    proof {
        assert((97u8) as char == 'a' && (122u8) as char == 'z' && (65u8) as char == 'A' && (90u8)
            as char == 'Z' && (48u8) as char == '0' && (57u8) as char == '9');
        assert forall|c: char| r@.contains(c) <==> default_word_char(c) by {
            lemma_contains_push(g3, '_', c);
            assert(g1.contains(c) <==> (g0.contains(c) || ('a' <= c && c <= 'z')));
            assert(g2.contains(c) <==> (g1.contains(c) || ('A' <= c && c <= 'Z')));
            assert(g3.contains(c) <==> (g2.contains(c) || ('0' <= c && c <= '9')));
        }
    }
    r
}

} // verus!
