use vstd::prelude::*;
use crate::payload::Payload;
use crate::processor::KeywordProcessor;
use crate::sentences::{is_space, is_space_char};
use crate::text::{str_chars, chars_to_string};

verus! {

/// How many white-space characters run on from position `i`.
pub open spec fn space_run(s: Seq<char>, i: int) -> int
    decreases s.len() - i,
{
    if i < 0 || i >= s.len() || !is_space(s[i]) {
        0
    } else {
        1 + space_run(s, i + 1)
    }
}

/// Where the trailing white space before position `j` starts.
pub open spec fn trail_at(s: Seq<char>, j: int) -> int
    decreases j,
{
    if j <= 0 || !is_space(s[j - 1]) {
        j
    } else {
        trail_at(s, j - 1)
    }
}

/// The text with leading and trailing white space removed.
pub open spec fn trim_spec(s: Seq<char>) -> Seq<char> {
    if space_run(s, 0) == s.len() {
        Seq::<char>::empty()
    } else {
        s.subrange(space_run(s, 0), trail_at(s, s.len() as int))
    }
}

/// Whether `"=>"` stands at position `i`.
pub open spec fn arrow_at(s: Seq<char>, i: int) -> bool {
    0 <= i && i + 2 <= s.len() && s[i] == '=' && s[i + 1] == '>'
}

/// The first position of `"=>"` at or after `i`, or -1.
pub open spec fn find_arrow(s: Seq<char>, i: int) -> int
    decreases s.len() - i,
{
    if i < 0 || i + 2 > s.len() {
        -1
    } else if arrow_at(s, i) {
        i
    } else {
        find_arrow(s, i + 1)
    }
}

/// What a parsed loader line means: with a `keyword => clean_name` arrow,
/// both sides trimmed; without one, the trimmed line as the keyword and no
/// clean name.
pub open spec fn parsed_line_ok(line: Seq<char>, r: (String, Option<String>)) -> bool {
    let p = find_arrow(line, 0);
    if p >= 0 {
        &&& r.0@ == trim_spec(line.subrange(0, p))
        &&& match r.1 {
            Some(c) => c@ == trim_spec(line.subrange(p + 2, line.len() as int)),
            None => false,
        }
    } else {
        &&& r.0@ == trim_spec(line)
        &&& r.1 is None
    }
}

/// The trimmed copy of `chars[lo..hi]`.
fn trim_segment(chars: &Vec<char>, lo: usize, hi: usize) -> (r: Vec<char>)
    requires
        lo <= hi <= chars@.len(),
    ensures
        r@ == trim_spec(chars@.subrange(lo as int, hi as int)),
{
    let ghost sub = chars@.subrange(lo as int, hi as int);
    let mut a = lo;
    while a < hi && is_space_char(chars[a])
        invariant
            lo <= a <= hi <= chars@.len(),
            sub == chars@.subrange(lo as int, hi as int),
            space_run(sub, 0) == a - lo + space_run(sub, a - lo),
        decreases hi - a,
    {
        a += 1;
    }
    if a == hi {
        proof {
            assert(space_run(sub, a - lo) == 0);
            assert(trim_spec(sub) =~= Seq::<char>::empty());
        }
        return Vec::new();
    }
    proof {
        assert(space_run(sub, a - lo) == 0);
        assert(space_run(sub, 0) == a - lo);
    }
    let mut b = hi;
    while b > a && is_space_char(chars[b - 1])
        invariant
            lo <= a < b,
            b <= hi <= chars@.len(),
            a < hi,
            sub == chars@.subrange(lo as int, hi as int),
            !is_space(sub[a - lo]),
            trail_at(sub, hi - lo) == trail_at(sub, b - lo),
        decreases b,
    {
        proof {
            assert(sub[a - lo] == chars@[a as int]);
        }
        b -= 1;
    }
    proof {
        assert(trail_at(sub, b - lo) == b - lo);
    }
    let mut out: Vec<char> = Vec::new();
    let mut t = a;
    while t < b
        invariant
            lo <= a <= t <= b <= hi <= chars@.len(),
            out@ == chars@.subrange(a as int, t as int),
        decreases b - t,
    {
        out.push(chars[t]);
        proof {
            assert(out@ =~= chars@.subrange(a as int, t + 1));
        }
        t += 1;
    }
    proof {
        assert(out@ =~= sub.subrange(a - lo, b - lo));
        assert(trim_spec(sub) == sub.subrange(space_run(sub, 0), trail_at(sub, sub.len() as int)));
    }
    out
}

/// Split one loader line into its keyword and, after a `"=>"`, its clean
/// name, both trimmed.
pub fn parse_line(line: &str) -> (r: (String, Option<String>))
    ensures
        parsed_line_ok(line@, r),
{
    let chars = str_chars(line);
    let n = chars.len();
    let mut p: usize = 0;
    let mut found = false;
    while !found && p < n && p + 1 < n
        invariant
            n == chars@.len(),
            chars@ == line@,
            p <= n,
            found ==> arrow_at(chars@, p as int),
            find_arrow(chars@, 0) == find_arrow(chars@, p as int),
            !found && p + 2 <= n ==> find_arrow(chars@, p as int) == (if arrow_at(chars@, p as int) {
                p as int
            } else {
                find_arrow(chars@, p + 1)
            }),
        decreases n - p, (if found {
            0int
        } else {
            1int
        }),
    {
        if chars[p] == '=' && chars[p + 1] == '>' {
            found = true;
        } else {
            p += 1;
        }
    }
    if found {
        let kw = trim_segment(&chars, 0, p);
        let cn = trim_segment(&chars, p + 2, n);
        proof {
            assert(find_arrow(chars@, p as int) == p as int);
        }
        (chars_to_string(&kw), Some(chars_to_string(&cn)))
    } else {
        proof {
            assert(find_arrow(chars@, p as int) == -1);
            assert(chars@.subrange(0, n as int) =~= chars@);
        }
        let kw = trim_segment(&chars, 0, n);
        (chars_to_string(&kw), None)
    }
}

/// Whether a loader path names a dictionary document: it ends in `".json"`.
pub fn is_json_path(path: &str) -> (r: bool)
    ensures
        r == (path@.len() >= 5 && path@[path@.len() - 5] == '.' && path@[path@.len() - 4] == 'j'
            && path@[path@.len() - 3] == 's' && path@[path@.len() - 2] == 'o' && path@[path@.len()
            - 1] == 'n'),
{
    let n = path.unicode_len();
    if n < 5 {
        return false;
    }
    path.get_char(n - 5) == '.' && path.get_char(n - 4) == 'j' && path.get_char(n - 3) == 's'
        && path.get_char(n - 2) == 'o' && path.get_char(n - 1) == 'n'
}

/// One value of a dictionary document: a clean name for the key taken as a
/// keyword, or the list of keywords that share the key as their clean name.
#[derive(Debug, Clone, PartialEq)]
pub enum DictValue {
    Str(String),
    List(Vec<String>),
}

/// `(m, q)` names one registration the dictionary performs: entry `m` with,
/// for a list value, its `q`-th keyword (a string value registers at `q == 0`).
pub open spec fn dict_pos_ok(dict: Seq<(String, DictValue)>, m: int, q: int) -> bool {
    0 <= m < dict.len() && match dict[m].1 {
        DictValue::Str(_) => q == 0,
        DictValue::List(ws) => 0 <= q < ws@.len(),
    }
}

/// The keyword that registration `(m, q)` inserts.
pub open spec fn dict_kw(dict: Seq<(String, DictValue)>, m: int, q: int) -> Seq<char> {
    match dict[m].1 {
        DictValue::Str(_) => dict[m].0@,
        DictValue::List(ws) => ws@[q]@,
    }
}

/// The clean name that registration `(m, q)` attaches.
pub open spec fn dict_cn(dict: Seq<(String, DictValue)>, m: int, q: int) -> Seq<char> {
    match dict[m].1 {
        DictValue::Str(v) => v@,
        DictValue::List(_) => dict[m].0@,
    }
}

/// `(m2, q2)` is performed after `(m, q)` in dictionary order.
pub open spec fn dict_later(m: int, q: int, m2: int, q2: int) -> bool {
    m2 > m || (m2 == m && q2 > q)
}

/// `(m, q)` is the last registration of its folded keyword among the
/// positions strictly before `(ci, cq)`.
pub open spec fn dict_last_before(
    dict: Seq<(String, DictValue)>,
    m: int,
    q: int,
    ci: int,
    cq: int,
) -> bool {
    forall|m2: int, q2: int|
        dict_pos_ok(dict, m2, q2) && dict_later(m, q, m2, q2) && dict_later(m2, q2, ci, cq)
            ==> crate::chars::fold_seq(#[trigger] dict_kw(dict, m2, q2)) != crate::chars::fold_seq(
            dict_kw(dict, m, q),
        )
}

impl KeywordProcessor {
    /// Register a dictionary document: `key => [keywords...]` gives each
    /// listed keyword the key as clean name; `key => name` registers the key
    /// itself under that clean name.
    pub fn add_keywords_from_dict(&mut self, dict: &Vec<(String, DictValue)>)
        requires
            old(self).wf(),
        ensures
            final(self).wf(),
            final(self).case_sensitive == old(self).case_sensitive,
            final(self).non_word_boundaries == old(self).non_word_boundaries,
            forall|m: int|
                0 <= m < dict@.len() ==> match (#[trigger] dict@[m]).1 {
                    DictValue::Str(_) => final(self).lookup_spec(
                        dict@[m].0@,
                        old(self).case_sensitive,
                    ) is Some,
                    DictValue::List(ws) => forall|q: int|
                        0 <= q < ws@.len() ==> final(self).lookup_spec(
                            (#[trigger] ws@[q])@,
                            old(self).case_sensitive,
                        ) is Some,
                },
            forall|m: int, q: int|
                dict_pos_ok(dict@, m, q) && dict_last_before(dict@, m, q, dict@.len() as int, 0)
                    ==> match final(self).lookup_spec(
                    #[trigger] dict_kw(dict@, m, q),
                    old(self).case_sensitive,
                ) {
                    Some(p) => match p {
                        Payload::Scalar(s) => s@ == dict_cn(dict@, m, q),
                        Payload::Multi(_) => false,
                    },
                    None => false,
                },
            !old(self).case_sensitive && old(self).is_dual() ==> final(self).is_dual(),
    {
        let n = dict.len();
        let mut i: usize = 0;
        while i < n
            invariant
                self.wf(),
                n == dict@.len(),
                i <= n,
                self.case_sensitive == old(self).case_sensitive,
                self.non_word_boundaries == old(self).non_word_boundaries,
                forall|m: int|
                    0 <= m < i ==> match (#[trigger] dict@[m]).1 {
                        DictValue::Str(_) => self.lookup_spec(
                            dict@[m].0@,
                            old(self).case_sensitive,
                        ) is Some,
                        DictValue::List(ws) => forall|q: int|
                            0 <= q < ws@.len() ==> self.lookup_spec(
                                (#[trigger] ws@[q])@,
                                old(self).case_sensitive,
                            ) is Some,
                    },
                forall|m: int, q: int|
                    dict_pos_ok(dict@, m, q) && m < i && dict_last_before(dict@, m, q, i as int, 0)
                        ==> match self.lookup_spec(
                        #[trigger] dict_kw(dict@, m, q),
                        old(self).case_sensitive,
                    ) {
                        Some(p) => match p {
                            Payload::Scalar(s) => s@ == dict_cn(dict@, m, q),
                            Payload::Multi(_) => false,
                        },
                        None => false,
                    },
                !old(self).case_sensitive && old(self).is_dual() ==> self.is_dual(),
            decreases n - i,
        {
            let key = dict[i].0.clone();
            match &dict[i].1 {
                DictValue::List(ws) => {
                    let nw = ws.len();
                    let mut q: usize = 0;
                    while q < nw
                        invariant
                            self.wf(),
                            n == dict@.len(),
                            i < n,
                            nw == ws@.len(),
                            q <= nw,
                            key@ == dict@[i as int].0@,
                            dict@[i as int].1 == DictValue::List(*ws),
                            self.case_sensitive == old(self).case_sensitive,
                            self.non_word_boundaries == old(self).non_word_boundaries,
                            forall|m: int|
                                0 <= m < i ==> match (#[trigger] dict@[m]).1 {
                                    DictValue::Str(_) => self.lookup_spec(
                                        dict@[m].0@,
                                        old(self).case_sensitive,
                                    ) is Some,
                                    DictValue::List(vs) => forall|t: int|
                                        0 <= t < vs@.len() ==> self.lookup_spec(
                                            (#[trigger] vs@[t])@,
                                            old(self).case_sensitive,
                                        ) is Some,
                                },
                            forall|t: int|
                                0 <= t < q ==> self.lookup_spec(
                                    (#[trigger] ws@[t])@,
                                    old(self).case_sensitive,
                                ) is Some,
                            forall|m2: int, q2: int|
                                dict_pos_ok(dict@, m2, q2) && (m2 < i || (m2 == i && q2 < q))
                                    && dict_last_before(dict@, m2, q2, i as int, q as int)
                                    ==> match self.lookup_spec(
                                    #[trigger] dict_kw(dict@, m2, q2),
                                    old(self).case_sensitive,
                                ) {
                                    Some(p) => match p {
                                        Payload::Scalar(s) => s@ == dict_cn(dict@, m2, q2),
                                        Payload::Multi(_) => false,
                                    },
                                    None => false,
                                },
                            !old(self).case_sensitive && old(self).is_dual() ==> self.is_dual(),
                        decreases nw - q,
                    {
                        self.add_keyword(
                            ws[q].as_str(),
                            Some(Payload::Scalar(key.clone())),
                            None,
                        );
                        proof {
                            assert(dict_kw(dict@, i as int, q as int) == ws@[q as int]@);
                            assert forall|m2: int, q2: int|
                                dict_pos_ok(dict@, m2, q2) && (m2 < i || (m2 == i && q2 < q + 1))
                                    && dict_last_before(dict@, m2, q2, i as int, q + 1)
                                    implies match self.lookup_spec(
                                #[trigger] dict_kw(dict@, m2, q2),
                                old(self).case_sensitive,
                            ) {
                                Some(p) => match p {
                                    Payload::Scalar(s) => s@ == dict_cn(dict@, m2, q2),
                                    Payload::Multi(_) => false,
                                },
                                None => false,
                            } by {
                                if m2 == i && q2 == q {
                                    assert(dict_cn(dict@, m2, q2) == dict@[i as int].0@);
                                } else {
                                    assert(dict_pos_ok(dict@, i as int, q as int));
                                    assert(dict_later(m2, q2, i as int, q as int));
                                    assert(dict_later(i as int, q as int, i as int, q + 1));
                                    assert(crate::chars::fold_seq(dict_kw(dict@, i as int, q as int))
                                        != crate::chars::fold_seq(dict_kw(dict@, m2, q2)));
                                }
                            }
                        }
                        q += 1;
                    }
                },
                DictValue::Str(cn) => {
                    self.add_keyword(key.as_str(), Some(Payload::Scalar(cn.clone())), None);
                    proof {
                        assert(dict_kw(dict@, i as int, 0) == dict@[i as int].0@);
                        assert forall|m2: int, q2: int|
                            dict_pos_ok(dict@, m2, q2) && m2 < i + 1 && dict_last_before(
                                dict@,
                                m2,
                                q2,
                                i + 1,
                                0,
                            ) implies match self.lookup_spec(
                            #[trigger] dict_kw(dict@, m2, q2),
                            old(self).case_sensitive,
                        ) {
                            Some(p) => match p {
                                Payload::Scalar(s) => s@ == dict_cn(dict@, m2, q2),
                                Payload::Multi(_) => false,
                            },
                            None => false,
                        } by {
                            if m2 == i {
                                assert(q2 == 0);
                                assert(dict_cn(dict@, m2, q2) == cn@);
                            } else {
                                assert(dict_pos_ok(dict@, i as int, 0));
                                assert(dict_later(m2, q2, i as int, 0));
                                assert(dict_later(i as int, 0, i + 1, 0));
                                assert(crate::chars::fold_seq(dict_kw(dict@, i as int, 0))
                                    != crate::chars::fold_seq(dict_kw(dict@, m2, q2)));
                            }
                        }
                    }
                },
            }
            i += 1;
        }
    }

    /// Unregister a dictionary document: the listed keywords of a list value,
    /// or the key itself of a string value.
    pub fn remove_keywords_from_dict(&mut self, dict: &Vec<(String, DictValue)>)
        requires
            old(self).wf(),
        ensures
            final(self).wf(),
            final(self).case_sensitive == old(self).case_sensitive,
            final(self).non_word_boundaries == old(self).non_word_boundaries,
            !old(self).case_sensitive && old(self).is_dual() ==> final(self).is_dual(),
            old(self).case_sensitive || old(self).is_dual() ==> forall|m: int|
                0 <= m < dict@.len() ==> match (#[trigger] dict@[m]).1 {
                    DictValue::Str(_) => final(self).lookup_spec(
                        dict@[m].0@,
                        old(self).case_sensitive,
                    ) is None,
                    DictValue::List(ws) => forall|q: int|
                        0 <= q < ws@.len() ==> final(self).lookup_spec(
                            (#[trigger] ws@[q])@,
                            old(self).case_sensitive,
                        ) is None,
                },
    {
        let n = dict.len();
        let mut i: usize = 0;
        while i < n
            invariant
                self.wf(),
                n == dict@.len(),
                i <= n,
                self.case_sensitive == old(self).case_sensitive,
                self.non_word_boundaries == old(self).non_word_boundaries,
                !old(self).case_sensitive && old(self).is_dual() ==> self.is_dual(),
                old(self).case_sensitive || old(self).is_dual() ==> forall|m: int|
                    0 <= m < i ==> match (#[trigger] dict@[m]).1 {
                        DictValue::Str(_) => self.lookup_spec(
                            dict@[m].0@,
                            old(self).case_sensitive,
                        ) is None,
                        DictValue::List(vs) => forall|t: int|
                            0 <= t < vs@.len() ==> self.lookup_spec(
                                (#[trigger] vs@[t])@,
                                old(self).case_sensitive,
                            ) is None,
                    },
            decreases n - i,
        {
            match &dict[i].1 {
                DictValue::List(ws) => {
                    let nw = ws.len();
                    let mut q: usize = 0;
                    while q < nw
                        invariant
                            self.wf(),
                            n == dict@.len(),
                            i < n,
                            nw == ws@.len(),
                            q <= nw,
                            dict@[i as int].1 == DictValue::List(*ws),
                            self.case_sensitive == old(self).case_sensitive,
                            self.non_word_boundaries == old(self).non_word_boundaries,
                            !old(self).case_sensitive && old(self).is_dual() ==> self.is_dual(),
                            old(self).case_sensitive || old(self).is_dual() ==> forall|m: int|
                                0 <= m < i ==> match (#[trigger] dict@[m]).1 {
                                    DictValue::Str(_) => self.lookup_spec(
                                        dict@[m].0@,
                                        old(self).case_sensitive,
                                    ) is None,
                                    DictValue::List(vs) => forall|t: int|
                                        0 <= t < vs@.len() ==> self.lookup_spec(
                                            (#[trigger] vs@[t])@,
                                            old(self).case_sensitive,
                                        ) is None,
                                },
                            old(self).case_sensitive || old(self).is_dual() ==> forall|t: int|
                                0 <= t < q ==> self.lookup_spec(
                                    (#[trigger] ws@[t])@,
                                    old(self).case_sensitive,
                                ) is None,
                        decreases nw - q,
                    {
                        self.remove_keyword(ws[q].as_str());
                        q += 1;
                    }
                },
                DictValue::Str(_) => {
                    let key = dict[i].0.clone();
                    self.remove_keyword(key.as_str());
                },
            }
            i += 1;
        }
    }
}

} // verus!
