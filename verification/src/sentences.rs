use vstd::prelude::*;
use crate::boundary::contains_char;
use crate::processor::KeywordProcessor;
use crate::scan::{names_ok, names_witness_ok, no_empty_payloads, occurrence, covered};
use crate::text::{str_chars, chars_to_string};

verus! {

/// The Unicode white-space code points, as `str::trim` sees them.
pub open spec fn is_space(c: char) -> bool {
    c == ' ' || c == '\t' || c == '\n' || c == '\r' || c == '\u{0b}' || c == '\u{0c}' || c
        == '\u{85}' || c == '\u{a0}' || c == '\u{1680}' || ('\u{2000}' <= c && c <= '\u{200a}') || c
        == '\u{2028}' || c == '\u{2029}' || c == '\u{202f}' || c == '\u{205f}' || c == '\u{3000}'
}

pub fn is_space_char(c: char) -> (r: bool)
    ensures
        r == is_space(c),
{
    c == ' ' || c == '\t' || c == '\n' || c == '\r' || c == '\u{0b}' || c == '\u{0c}' || c
        == '\u{85}' || c == '\u{a0}' || c == '\u{1680}' || ('\u{2000}' <= c && c <= '\u{200a}') || c
        == '\u{2028}' || c == '\u{2029}' || c == '\u{202f}' || c == '\u{205f}' || c == '\u{3000}'
}

/// Whether the buffer holds anything besides white space.
fn has_visible(v: &Vec<char>) -> (r: bool)
    ensures
        r == exists|k: int| 0 <= k < v@.len() && !is_space(v@[k]),
{
    let n = v.len();
    let mut i: usize = 0;
    while i < n
        invariant
            n == v@.len(),
            i <= n,
            forall|k: int| 0 <= k < i ==> is_space(v@[k]),
        decreases n - i,
    {
        if !is_space_char(v[i]) {
            return true;
        }
        i += 1;
    }
    false
}

/// The default sentence delimiters.
pub open spec fn default_delims() -> Seq<char> {
    seq!['.', '?', '!', ';', '\n']
}

/// The end of the maximal delimiter run starting at `j`.
pub open spec fn run_end(text: Seq<char>, delims: Seq<char>, j: int) -> int
    decreases text.len() - j,
{
    if 0 <= j < text.len() && delims.contains(text[j]) {
        run_end(text, delims, j + 1)
    } else {
        j
    }
}

/// The end of the sentence segment starting at `i`: just past the first
/// maximal run of delimiter characters, or the end of the text.
pub open spec fn seg_end(text: Seq<char>, delims: Seq<char>, i: int) -> int
    decreases text.len() - i,
{
    if i < 0 || i >= text.len() {
        i
    } else if delims.contains(text[i]) {
        run_end(text, delims, i + 1)
    } else {
        seg_end(text, delims, i + 1)
    }
}

proof fn lemma_run_end_bounds(text: Seq<char>, delims: Seq<char>, j: int)
    requires
        0 <= j <= text.len(),
    ensures
        j <= run_end(text, delims, j) <= text.len(),
    decreases text.len() - j,
{
    if 0 <= j < text.len() && delims.contains(text[j]) {
        lemma_run_end_bounds(text, delims, j + 1);
    }
}

proof fn lemma_seg_end_bounds(text: Seq<char>, delims: Seq<char>, i: int)
    requires
        0 <= i < text.len(),
    ensures
        i < seg_end(text, delims, i) <= text.len(),
    decreases text.len() - i,
{
    if delims.contains(text[i]) {
        lemma_run_end_bounds(text, delims, i + 1);
        assert(seg_end(text, delims, i) == run_end(text, delims, i + 1));
    } else {
        assert(seg_end(text, delims, i) == seg_end(text, delims, i + 1));
        if i + 1 < text.len() {
            lemma_seg_end_bounds(text, delims, i + 1);
        } else {
            assert(seg_end(text, delims, i + 1) == i + 1);
        }
    }
}

/// The segment holds anything besides white space.
pub open spec fn visible_seg(seg: Seq<char>) -> bool {
    exists|k: int| 0 <= k < seg.len() && !is_space(seg[k])
}

/// Some registered boundary-anchored keyword occurs in the segment.
pub open spec fn has_occurrence(kp: KeywordProcessor, seg: Seq<char>) -> bool {
    exists|a: int, b: int| occurrence(kp, seg, a, b)
}

/// The reported pairs for the text from `i` on: in text order, one pair per
/// segment that is not blank and holds a keyword occurrence, carrying that
/// segment's text and its extracted labels; every other segment is dropped.
pub open spec fn sentences_from(
    kp: KeywordProcessor,
    text: Seq<char>,
    delims: Seq<char>,
    i: int,
    rs: Seq<(String, Vec<String>)>,
) -> bool
    decreases text.len() - i via sentences_from_dec
{
    if i < 0 || i >= text.len() {
        rs.len() == 0
    } else {
        let e = seg_end(text, delims, i);
        let seg = text.subrange(i, e);
        if visible_seg(seg) && has_occurrence(kp, seg) {
            &&& rs.len() > 0
            &&& rs[0].0@ == seg
            &&& names_ok(kp, seg, 0, rs[0].1@)
            &&& rs[0].1@.len() > 0
            &&& sentences_from(kp, text, delims, e, rs.drop_first())
        } else {
            sentences_from(kp, text, delims, e, rs)
        }
    }
}

#[via_fn]
proof fn sentences_from_dec(
    kp: KeywordProcessor,
    text: Seq<char>,
    delims: Seq<char>,
    i: int,
    rs: Seq<(String, Vec<String>)>,
) {
    if 0 <= i < text.len() {
        lemma_seg_end_bounds(text, delims, i);
    }
}

/// What holds of each reported pair: at least one keyword was found in the
/// sentence, the sentence is not blank, and the keywords are the labels of a
/// span list with every guarantee of the scanner.
pub open spec fn sentence_pair_ok(kp: KeywordProcessor, pair: (String, Vec<String>)) -> bool {
    &&& pair.1@.len() > 0
    &&& visible_seg(pair.0@)
    &&& names_ok(kp, pair.0@, 0, pair.1@)
}

impl KeywordProcessor {
    /// Split the text on the delimiter characters (default `. ? ! ; \n`),
    /// absorbing runs of delimiters into the preceding sentence, drop blank
    /// pieces, and report each remaining sentence that contains at least one
    /// keyword, with the keywords extracted from it, in text order.
    pub fn extract_sentences(&self, text: &str, delimiters: Option<Vec<char>>) -> (r: Vec<
        (String, Vec<String>),
    >)
        requires
            self.wf(),
        ensures
            forall|m: int| 0 <= m < r@.len() ==> sentence_pair_ok(*self, #[trigger] r@[m]),
            no_empty_payloads(*self) ==> sentences_from(
                *self,
                text@,
                match delimiters {
                    Some(d) => d@,
                    None => default_delims(),
                },
                0,
                r@,
            ),
    {
        let delims: Vec<char> = match delimiters {
            Some(d) => d,
            None => {
                let mut d: Vec<char> = Vec::new();
                d.push('.');
                d.push('?');
                d.push('!');
                d.push(';');
                d.push('\n');
                proof {
                    assert(d@ =~= default_delims());
                }
                d
            },
        };
        let chars = str_chars(text);
        self.split_from(&chars, &delims, 0)
    }

    /// The reported pairs for the suffix of the text starting at `i`.
    fn split_from(&self, chars: &Vec<char>, delims: &Vec<char>, i: usize) -> (r: Vec<
        (String, Vec<String>),
    >)
        requires
            self.wf(),
            i <= chars@.len(),
        ensures
            forall|m: int| 0 <= m < r@.len() ==> sentence_pair_ok(*self, #[trigger] r@[m]),
            no_empty_payloads(*self) ==> sentences_from(*self, chars@, delims@, i as int, r@),
        decreases chars@.len() - i,
    {
        let n = chars.len();
        if i >= n {
            let r: Vec<(String, Vec<String>)> = Vec::new();
            return r;
        }
        // find the segment end: past the non-delimiters, then past the
        // delimiter run
        let mut j = i;
        while j < n && !contains_char(delims, chars[j])
            invariant
                n == chars@.len(),
                i <= j <= n,
                seg_end(chars@, delims@, i as int) == seg_end(chars@, delims@, j as int),
            decreases n - j,
        {
            j += 1;
        }
        let e: usize;
        if j < n {
            let mut x = j + 1;
            while x < n && contains_char(delims, chars[x])
                invariant
                    n == chars@.len(),
                    j + 1 <= x <= n,
                    j < n,
                    run_end(chars@, delims@, j + 1) == run_end(chars@, delims@, x as int),
                decreases n - x,
            {
                x += 1;
            }
            proof {
                assert(run_end(chars@, delims@, x as int) == x);
            }
            e = x;
            proof {
                assert(seg_end(chars@, delims@, j as int) == run_end(chars@, delims@, j + 1));
                assert(seg_end(chars@, delims@, i as int) == e);
            }
        } else {
            e = n;
            proof {
                assert(seg_end(chars@, delims@, j as int) == j);
                assert(seg_end(chars@, delims@, i as int) == e);
            }
        }
        let mut piece: Vec<char> = Vec::new();
        let mut t = i;
        while t < e
            invariant
                n == chars@.len(),
                i <= t <= e <= n,
                piece@ == chars@.subrange(i as int, t as int),
            decreases e - t,
        {
            piece.push(chars[t]);
            proof {
                assert(piece@ =~= chars@.subrange(i as int, t + 1));
            }
            t += 1;
        }
        let ghost seg = chars@.subrange(i as int, e as int);
        let mut rest = self.split_from(chars, delims, e);
        let mut out: Vec<(String, Vec<String>)> = Vec::new();
        if has_visible(&piece) {
            let sent = chars_to_string(&piece);
            let kws = self.extract_keywords(sent.as_str(), 0);
            if kws.len() > 0 {
                proof {
                    let (ms, bounds) = choose|ms: Seq<crate::scan::KeywordMatch>, bounds: Seq<
                        int,
                    >| names_witness_ok(*self, seg, 0, kws@, ms, bounds);
                    assert(ms.len() > 0);
                    assert(occurrence(*self, seg, ms[0].start as int, ms[0].end as int)) by {
                        assert(crate::scan::match_registered(*self, seg, ms[0]));
                        assert(ms[0].start < ms[0].end <= seg.len());
                    }
                    assert(has_occurrence(*self, seg));
                }
                out.push((sent, kws));
            } else {
                proof {
                    if no_empty_payloads(*self) {
                        if has_occurrence(*self, seg) {
                            let (a, b) = choose|a: int, b: int| occurrence(*self, seg, a, b);
                            let (ms, bounds) = choose|
                                ms: Seq<crate::scan::KeywordMatch>,
                                bounds: Seq<int>,
                            | names_witness_ok(*self, seg, 0, kws@, ms, bounds);
                            assert(covered(ms, a, b));
                            assert(ms.len() > 0);
                            assert(false);
                        }
                    }
                }
            }
        }
        let ghost head = out@;
        let ghost rest_view = rest@;
        out.append(&mut rest);
        proof {
            assert(out@ == head + rest_view);
            assert forall|m: int| 0 <= m < out@.len() implies sentence_pair_ok(
                *self,
                #[trigger] out@[m],
            ) by {
                if m < head.len() {
                    assert(out@[m] == head[0]);
                } else {
                    assert(out@[m] == rest_view[m - head.len()]);
                }
            }
            if no_empty_payloads(*self) {
                assert(seg_end(chars@, delims@, i as int) == e);
                if head.len() > 0 {
                    assert(out@.len() > 0);
                    assert(out@[0] == head[0]);
                    assert(visible_seg(seg) && has_occurrence(*self, seg));
                    assert(out@.drop_first() =~= rest_view);
                    assert(sentences_from(*self, chars@, delims@, i as int, out@));
                } else {
                    assert(!(visible_seg(seg) && has_occurrence(*self, seg)));
                    assert(out@ =~= rest_view);
                    assert(sentences_from(*self, chars@, delims@, i as int, out@));
                }
            }
        }
        out
    }
}

} // verus!
