use vstd::prelude::*;
use crate::boundary::contains_char;
use crate::payload::Payload;
use crate::processor::KeywordProcessor;
use crate::text::str_chars;
use crate::trie::{lookup_in, walk, step, lemma_step_bound, lemma_walk_snoc, lemma_walk_split};

verus! {

/// The CJK-ish code points the fuzzy word cutter treats as one-character
/// words: Hiragana, Katakana, the two main unified ideograph blocks, and
/// Hangul syllables.
pub open spec fn is_cjk(c: char) -> bool {
    (0x3040 <= c as u32 && c as u32 <= 0x309F) || (0x30A0 <= c as u32 && c as u32 <= 0x30FF) || (
    0x3400 <= c as u32 && c as u32 <= 0x4DBF) || (0x4E00 <= c as u32 && c as u32 <= 0x9FFF) || (
    0xAC00 <= c as u32 && c as u32 <= 0xD7AF)
}

pub fn is_cjk_char(c: char) -> (r: bool)
    ensures
        r == is_cjk(c),
{
    let u = c as u32;
    (0x3040 <= u && u <= 0x309F) || (0x30A0 <= u && u <= 0x30FF) || (0x3400 <= u && u <= 0x4DBF)
        || (0x4E00 <= u && u <= 0x9FFF) || (0xAC00 <= u && u <= 0xD7AF)
}

/// How many word characters run on from position `i`.
pub open spec fn word_run(kp: KeywordProcessor, text: Seq<char>, i: int) -> int
    decreases text.len() - i,
{
    if i < 0 || i >= text.len() || !kp.is_word_char(text[i]) {
        0
    } else {
        1 + word_run(kp, text, i + 1)
    }
}

/// The length of the next word at position `i`: one lone CJK-ish character
/// that the boundary set does not claim, or the run of word characters
/// (possibly empty).
pub open spec fn next_word_len_spec(kp: KeywordProcessor, text: Seq<char>, i: int) -> int {
    if 0 <= i < text.len() && is_cjk(text[i]) && !kp.is_word_char(text[i]) {
        1
    } else {
        word_run(kp, text, i)
    }
}

/// A word boundary: the brink of the text, or a spot where the word-character
/// run breaks on either side.
pub open spec fn boundary_ok(kp: KeywordProcessor, text: Seq<char>, p: int) -> bool {
    p == 0 || p == text.len() || !kp.is_word_char(text[p - 1]) || !kp.is_word_char(text[p])
}

/// One reported occurrence of a keyword: the label it carries and the
/// half-open span of code-point indices it covers.
#[derive(Debug, Clone, PartialEq)]
pub struct KeywordMatch {
    pub clean_name: String,
    pub start: usize,
    pub end: usize,
}

/// Every span is non-empty, inside the text, and anchored on word boundaries
/// at both ends; spans come in increasing order and overlap only when they
/// are the same span (several labels of one multi-payload keyword).
pub open spec fn spans_ok(kp: KeywordProcessor, text: Seq<char>, ms: Seq<KeywordMatch>) -> bool {
    &&& forall|m: int|
        0 <= m < ms.len() ==> (#[trigger] ms[m]).start < ms[m].end <= text.len() && boundary_ok(
            kp,
            text,
            ms[m].start as int,
        ) && boundary_ok(kp, text, ms[m].end as int)
    &&& forall|a: int, b: int|
        0 <= a < b < ms.len() ==> (#[trigger] ms[a]).end <= (#[trigger] ms[b]).start || (ms[a].start
            == ms[b].start && ms[a].end == ms[b].end)
}

/// The covered slice of the text reaches a terminal trie node whose payload
/// carries the reported label.
pub open spec fn match_registered(kp: KeywordProcessor, text: Seq<char>, m: KeywordMatch) -> bool {
    exists|p: Payload|
        lookup_in(kp.nodes@, text.subrange(m.start as int, m.end as int), true) == Some(p)
            && (#[trigger] p.elements()).contains(m.clean_name@)
}

pub open spec fn matches_registered(
    kp: KeywordProcessor,
    text: Seq<char>,
    ms: Seq<KeywordMatch>,
) -> bool {
    forall|m: int| 0 <= m < ms.len() ==> match_registered(kp, text, #[trigger] ms[m])
}

/// A boundary-anchored occurrence of a registered keyword: the slice
/// `[i, j)` of the text reaches a terminal node, and both ends sit on word
/// boundaries.
pub open spec fn occurrence(kp: KeywordProcessor, text: Seq<char>, i: int, j: int) -> bool {
    &&& 0 <= i < j <= text.len()
    &&& lookup_in(kp.nodes@, text.subrange(i, j), true) is Some
    &&& boundary_ok(kp, text, i)
    &&& boundary_ok(kp, text, j)
}

/// Some reported span contains the start of the occurrence `[i, j)`: the
/// scanner passes no position where a keyword begins without reporting a
/// match there or having already covered it. With soundness, per-start
/// maximality and the ascending disjoint spans this pins the greedy
/// left-to-right result.
pub open spec fn covered(ms: Seq<KeywordMatch>, i: int, j: int) -> bool {
    exists|m: int| 0 <= m < ms.len() && (#[trigger] ms[m]).start <= i < ms[m].end
}

/// No registered payload is an empty list of labels, so every keyword
/// occurrence makes the scanner report something.
pub open spec fn no_empty_payloads(kp: KeywordProcessor) -> bool {
    forall|t: int|
        0 <= t < kp.nodes@.len() ==> match (#[trigger] kp.nodes@[t]).clean_name {
            Some(p) => p.elements().len() > 0,
            None => true,
        }
}

/// `ms[a..b)` is one reported block: every entry carries the same span, and
/// the labels are exactly the elements, in order, of the payload registered
/// for the covered slice. A scalar payload gives a block of one.
pub open spec fn run_exact(
    kp: KeywordProcessor,
    text: Seq<char>,
    ms: Seq<KeywordMatch>,
    a: int,
    b: int,
) -> bool {
    &&& 0 <= a < b <= ms.len()
    &&& lookup_in(kp.nodes@, text.subrange(ms[a].start as int, ms[a].end as int), true) is Some
    &&& ({
        let p = lookup_in(kp.nodes@, text.subrange(ms[a].start as int, ms[a].end as int), true)->0;
        &&& b - a == p.elements().len()
        &&& forall|k: int|
            a <= k < b ==> (#[trigger] ms[k]).start == ms[a].start && ms[k].end == ms[a].end
                && ms[k].clean_name@ == p.elements()[k - a]
    })
}

/// `bounds` cuts the match list into such blocks, with the spans of
/// consecutive blocks disjoint and in increasing order. Together with the
/// other clauses this fixes how often, and with which labels, each occurrence
/// is reported.
pub open spec fn runs_partitioned(
    kp: KeywordProcessor,
    text: Seq<char>,
    ms: Seq<KeywordMatch>,
    bounds: Seq<int>,
) -> bool {
    &&& bounds.len() >= 1
    &&& bounds[0] == 0
    &&& bounds.last() == ms.len()
    &&& forall|i: int|
        0 <= i < bounds.len() - 1 ==> run_exact(kp, text, ms, #[trigger] bounds[i], bounds[i + 1])
    &&& forall|i: int|
        0 <= i < bounds.len() - 2 ==> ms[#[trigger] bounds[i]].end <= ms[bounds[i + 1]].start
}

/// Every entry of a partitioned match list lies in exactly one block.
pub proof fn lemma_run_of(
    kp: KeywordProcessor,
    text: Seq<char>,
    ms: Seq<KeywordMatch>,
    bounds: Seq<int>,
    m: int,
)
    requires
        runs_partitioned(kp, text, ms, bounds),
        0 <= m < ms.len(),
    ensures
        exists|i: int| 0 <= i < bounds.len() - 1 && (#[trigger] bounds[i]) <= m < bounds[i + 1],
{
    if bounds.len() == 1 {
        assert(bounds.last() == bounds[0] == 0);
        assert(false);
    }
    lemma_run_of_from(kp, text, ms, bounds, m, 0);
}

proof fn lemma_run_of_from(
    kp: KeywordProcessor,
    text: Seq<char>,
    ms: Seq<KeywordMatch>,
    bounds: Seq<int>,
    m: int,
    i: int,
)
    requires
        runs_partitioned(kp, text, ms, bounds),
        0 <= m < ms.len(),
        0 <= i < bounds.len() - 1,
        bounds[i] <= m,
    ensures
        exists|ii: int| 0 <= ii < bounds.len() - 1 && (#[trigger] bounds[ii]) <= m < bounds[ii
            + 1],
    decreases bounds.len() - i,
{
    assert(run_exact(kp, text, ms, bounds[i], bounds[i + 1]));
    if m < bounds[i + 1] {
        assert(0 <= i < bounds.len() - 1 && bounds[i] <= m < bounds[i + 1]);
    } else {
        assert(bounds.last() == ms.len());
        if i + 1 == bounds.len() - 1 {
            assert(bounds[i + 1] == ms.len());
            assert(false);
        }
        lemma_run_of_from(kp, text, ms, bounds, m, i + 1);
    }
}

/// Appending one non-empty block of same-span entries, whose labels are the
/// elements of the payload registered for the covered slice and whose span
/// starts at or after every earlier entry's end, extends a partition by one
/// block.
proof fn lemma_push_block_runs(
    kp: KeywordProcessor,
    text: Seq<char>,
    pre: Seq<KeywordMatch>,
    post: Seq<KeywordMatch>,
    bounds: Seq<int>,
    idx0: int,
    be0: int,
    pl: Payload,
    i: int,
)
    requires
        runs_partitioned(kp, text, pre, bounds),
        pre.len() < post.len(),
        forall|m: int| 0 <= m < pre.len() ==> #[trigger] post[m] == pre[m],
        forall|m: int|
            pre.len() <= m < post.len() ==> (#[trigger] post[m]).start as int == idx0
                && post[m].end as int == be0 && post[m].clean_name@ == pl.elements()[m
                - pre.len()],
        post.len() - pre.len() == pl.elements().len(),
        lookup_in(kp.nodes@, text.subrange(idx0, be0), true) == Some(pl),
        0 <= i < bounds.push(post.len() as int).len() - 1,
    ensures
        run_exact(
            kp,
            text,
            post,
            bounds.push(post.len() as int)[i],
            bounds.push(post.len() as int)[i + 1],
        ),
{
    let pre_len = pre.len() as int;
    let new_len = post.len() as int;
    let bounds2 = bounds.push(new_len);
    if i < bounds.len() - 1 {
        assert(bounds2[i] == bounds[i] && bounds2[i + 1] == bounds[i + 1]);
        assert(run_exact(kp, text, pre, bounds[i], bounds[i + 1]));
        assert(forall|k: int| 0 <= k < pre_len ==> #[trigger] post[k] == pre[k]);
    } else {
        assert(bounds2[i] == pre_len && bounds2[i + 1] == new_len);
        assert(post[pre_len].start as int == idx0 && post[pre_len].end as int == be0);
    }
}

/// Appending one non-empty block of same-span entries, whose labels are the
/// elements of the payload registered for the covered slice and whose span
/// starts at or after every earlier entry's end, extends a partition by one
/// block.
proof fn lemma_push_block(
    kp: KeywordProcessor,
    text: Seq<char>,
    pre: Seq<KeywordMatch>,
    post: Seq<KeywordMatch>,
    bounds: Seq<int>,
    idx0: int,
    be0: int,
    pl: Payload,
)
    requires
        runs_partitioned(kp, text, pre, bounds),
        pre.len() < post.len(),
        forall|m: int| 0 <= m < pre.len() ==> #[trigger] post[m] == pre[m],
        forall|m: int| 0 <= m < pre.len() ==> (#[trigger] post[m]).end <= idx0,
        forall|m: int|
            pre.len() <= m < post.len() ==> (#[trigger] post[m]).start as int == idx0
                && post[m].end as int == be0 && post[m].clean_name@ == pl.elements()[m
                - pre.len()],
        post.len() - pre.len() == pl.elements().len(),
        lookup_in(kp.nodes@, text.subrange(idx0, be0), true) == Some(pl),
    ensures
        runs_partitioned(kp, text, post, bounds.push(post.len() as int)),
{
    let pre_len = pre.len() as int;
    let new_len = post.len() as int;
    let bounds2 = bounds.push(new_len);
    assert(bounds2[0] == bounds[0]);
    assert(bounds2.last() == new_len);
    assert forall|i: int|
        0 <= i < bounds2.len() - 1 implies run_exact(
        kp,
        text,
        post,
        #[trigger] bounds2[i],
        bounds2[i + 1],
    ) by {
        lemma_push_block_runs(kp, text, pre, post, bounds, idx0, be0, pl, i);
    }
    assert forall|i: int|
        0 <= i < bounds2.len() - 2 implies post[#[trigger] bounds2[i]].end
        <= post[bounds2[i + 1]].start by {
        if i < bounds.len() - 2 {
            assert(bounds2[i] == bounds[i] && bounds2[i + 1] == bounds[i + 1]);
            assert(pre[bounds[i]].end <= pre[bounds[i + 1]].start);
            assert(run_exact(kp, text, pre, bounds[i], bounds[i + 1]));
            assert(post[bounds[i]] == pre[bounds[i]]);
            assert(post[bounds[i + 1]] == pre[bounds[i + 1]]);
        } else {
            assert(bounds2[i] == bounds[i] && bounds2[i + 1] == pre_len);
            assert(run_exact(kp, text, pre, bounds[i], bounds[i + 1]));
            assert(0 <= bounds[i] < pre_len);
            assert(post[bounds[i]] == pre[bounds[i]]);
            assert(post[bounds[i]].end <= idx0);
            assert(post[pre_len].start as int == idx0);
        }
    }
}

impl KeywordProcessor {
    /// The length of the next word of the text starting at `start`.
    pub fn next_word_len(&self, text: &Vec<char>, start: usize) -> (len: usize)
        requires
            start <= text@.len(),
        ensures
            len == next_word_len_spec(*self, text@, start as int),
            start + len <= text@.len(),
    {
        let n = text.len();
        if start < n {
            let c0 = text[start];
            if is_cjk_char(c0) && !contains_char(&self.non_word_boundaries, c0) {
                return 1;
            }
        }
        let mut j = start;
        while j < n && contains_char(&self.non_word_boundaries, text[j])
            invariant
                n == text@.len(),
                start <= j <= n,
                word_run(*self, text@, start as int) == j - start + word_run(*self, text@, j as int),
            decreases n - j,
        {
            j += 1;
        }
        proof {
            assert(word_run(*self, text@, j as int) == 0);
        }
        j - start
    }

    /// The next word of the text, from its first code point.
    pub fn get_next_word(&self, text: &str) -> (r: String)
        ensures
            r@ == text@.take(next_word_len_spec(*self, text@, 0)),
    {
        let chars = str_chars(text);
        let len = self.next_word_len(&chars, 0);
        let mut out: Vec<char> = Vec::new();
        let mut i: usize = 0;
        while i < len
            invariant
                chars@ == text@,
                len <= chars@.len(),
                i <= len,
                out@ == chars@.take(i as int),
            decreases len - i,
        {
            out.push(chars[i]);
            proof {
                assert(out@ =~= chars@.take(i + 1));
            }
            i += 1;
        }
        crate::text::chars_to_string(&out)
    }

    /// Scan the text once, left to right, reporting the longest
    /// boundary-anchored keyword at each position together with its span.
    /// With a positive `max_cost` the walk may consume a whole mis-spelled
    /// word within that edit budget.
    #[verifier::rlimit(100)]
    pub fn extract_keywords_with_spans(&self, sentence: &str, max_cost: usize) -> (r: Vec<
        KeywordMatch,
    >)
        requires
            self.wf(),
        ensures
            spans_ok(*self, sentence@, r@),
            max_cost == 0 ==> matches_registered(*self, sentence@, r@),
            max_cost == 0 ==> forall|m: int, j2: int|
                0 <= m < r@.len() && #[trigger] occurrence(
                    *self,
                    sentence@,
                    r@[m].start as int,
                    j2,
                ) ==> j2 <= r@[m].end,
            max_cost == 0 && no_empty_payloads(*self) ==> forall|i: int, j2: int|
                #[trigger] occurrence(*self, sentence@, i, j2) ==> covered(r@, i, j2),
            max_cost == 0 ==> exists|bounds: Seq<int>|
                runs_partitioned(*self, sentence@, r@, bounds),
    {
        let chars = str_chars(sentence);
        let n = chars.len();
        let mut out: Vec<KeywordMatch> = Vec::new();
        let ghost mut bounds: Seq<int> = seq![0int];
        let mut idx: usize = 0;
        while idx < n
            invariant
                self.wf(),
                chars@ == sentence@,
                n == chars@.len(),
                idx <= n,
                forall|m: int|
                    0 <= m < out@.len() ==> (#[trigger] out@[m]).start < out@[m].end <= n
                        && boundary_ok(*self, chars@, out@[m].start as int) && boundary_ok(
                        *self,
                        chars@,
                        out@[m].end as int,
                    ) && out@[m].end <= idx,
                forall|a: int, b: int|
                    0 <= a < b < out@.len() ==> (#[trigger] out@[a]).end <= (
                    #[trigger] out@[b]).start || (out@[a].start == out@[b].start && out@[a].end
                        == out@[b].end),
                max_cost == 0 ==> matches_registered(*self, chars@, out@),
                max_cost == 0 ==> forall|m: int, j2: int|
                    0 <= m < out@.len() && #[trigger] occurrence(
                        *self,
                        chars@,
                        out@[m].start as int,
                        j2,
                    ) ==> j2 <= out@[m].end,
                max_cost == 0 && no_empty_payloads(*self) ==> forall|i: int, j2: int|
                    i < idx && #[trigger] occurrence(*self, chars@, i, j2) ==> covered(
                        out@,
                        i,
                        j2,
                    ),
                max_cost == 0 ==> runs_partitioned(*self, chars@, out@, bounds),
            decreases n - idx,
        {
            let ci = chars[idx];
            let cur_is_word = contains_char(&self.non_word_boundaries, ci);
            let blocked = if idx > 0 {
                let prev_is_word = contains_char(&self.non_word_boundaries, chars[idx - 1]);
                prev_is_word && cur_is_word
            } else {
                false
            };
            if blocked {
                proof {
                    assert(!boundary_ok(*self, chars@, idx as int));
                }
                idx += 1;
            } else {
                proof {
                    assert(boundary_ok(*self, chars@, idx as int));
                    assert(chars@.subrange(idx as int, idx as int) =~= Seq::<char>::empty());
                }
                let mut j: usize = idx;
                let mut cur: usize = 0;
                let mut budget: usize = max_cost;
                let mut best: Option<(usize, usize)> = None;
                let mut done = false;
                while !done && j < n
                    invariant
                        self.wf(),
                        chars@ == sentence@,
                        n == chars@.len(),
                        idx < n,
                        idx <= j <= n,
                        forall|m: int|
                            0 <= m < out@.len() ==> (#[trigger] out@[m]).start < out@[m].end <= n
                                && boundary_ok(*self, chars@, out@[m].start as int) && boundary_ok(
                                *self,
                                chars@,
                                out@[m].end as int,
                            ) && out@[m].end <= idx,
                        forall|a: int, b: int|
                            0 <= a < b < out@.len() ==> (#[trigger] out@[a]).end <= (
                            #[trigger] out@[b]).start || (out@[a].start == out@[b].start
                                && out@[a].end == out@[b].end),
                        max_cost == 0 ==> matches_registered(*self, chars@, out@),
                        max_cost == 0 ==> runs_partitioned(*self, chars@, out@, bounds),
                        cur < self.nodes@.len(),
                        budget <= max_cost,
                        boundary_ok(*self, chars@, idx as int),
                        max_cost == 0 ==> walk(
                            self.nodes@,
                            0,
                            chars@.subrange(idx as int, j as int),
                            true,
                        ) == Some(cur as int),
                        match best {
                            Some((bn, be)) => bn < self.nodes@.len() && idx < be <= n
                                && self.nodes@[bn as int].clean_name is Some && boundary_ok(
                                *self,
                                chars@,
                                be as int,
                            ) && (max_cost == 0 ==> walk(
                                self.nodes@,
                                0,
                                chars@.subrange(idx as int, be as int),
                                true,
                            ) == Some(bn as int)),
                            None => true,
                        },
                        done ==> j < n && step(self.nodes@, cur as int, chars@[j as int], true)
                            is None,
                        max_cost == 0 ==> forall|j2: int|
                            idx < j2 <= j && #[trigger] occurrence(*self, chars@, idx as int, j2)
                                ==> (match best {
                                Some(p) => p.1 >= j2,
                                None => false,
                            }),
                    decreases n - j, budget, (if done {
                        0int
                    } else {
                        1int
                    }),
                {
                    let c = chars[j];
                    match self.nodes[cur].children.get(c) {
                        Some(nx) => {
                            proof {
                                assert(step(self.nodes@, cur as int, c, true) == Some(nx));
                                lemma_step_bound(self.nodes@, cur as int, c, true);
                                if max_cost == 0 {
                                    lemma_walk_snoc(
                                        self.nodes@,
                                        0,
                                        chars@.subrange(idx as int, j as int),
                                        c,
                                        true,
                                    );
                                    assert(chars@.subrange(idx as int, j + 1) =~= chars@.subrange(
                                        idx as int,
                                        j as int,
                                    ).push(c));
                                }
                            }
                            cur = nx;
                            let ghost best0 = best;
                            let is_term = self.nodes[cur].clean_name.is_some();
                            let is_eof = j + 1 >= n;
                            let last_boundary = !contains_char(&self.non_word_boundaries, c);
                            let anchored = if is_eof {
                                true
                            } else {
                                let next_boundary = !contains_char(
                                    &self.non_word_boundaries,
                                    chars[j + 1],
                                );
                                next_boundary || last_boundary
                            };
                            if is_term && anchored {
                                best = Some((cur, j + 1));
                            }
                            proof {
                                if max_cost == 0 {
                                    assert(anchored == boundary_ok(*self, chars@, j + 1));
                                    assert forall|j2: int|
                                        idx < j2 <= j + 1 && #[trigger] occurrence(
                                            *self,
                                            chars@,
                                            idx as int,
                                            j2,
                                        ) implies (match best {
                                        Some(p) => p.1 >= j2,
                                        None => false,
                                    }) by {
                                        if j2 == j + 1 {
                                            assert(lookup_in(
                                                self.nodes@,
                                                chars@.subrange(idx as int, j + 1),
                                                true,
                                            ) == self.nodes@[cur as int].clean_name);
                                            assert(is_term && anchored);
                                        } else {
                                            assert(match best0 {
                                                Some(p) => p.1 >= j2,
                                                None => false,
                                            });
                                        }
                                    }
                                }
                            }
                            j += 1;
                        },
                        None => {
                            if budget > 0 {
                                let wlen = self.next_word_len(&chars, j);
                                let mut word: Vec<char> = Vec::new();
                                let mut t: usize = 0;
                                while t < wlen
                                    invariant
                                        n == chars@.len(),
                                        j + wlen <= n,
                                        t <= wlen,
                                        word@.len() == t,
                                    decreases wlen - t,
                                {
                                    word.push(chars[j + t]);
                                    t += 1;
                                }
                                match self.find_fuzzy_node(&word, cur, budget) {
                                    Some((nx, cost, consumed)) => {
                                        budget = budget - cost;
                                        cur = nx;
                                        j = j + consumed;
                                        if j > idx && self.nodes[cur].clean_name.is_some() {
                                            let is_eof = j >= n;
                                            let last_boundary = !contains_char(
                                                &self.non_word_boundaries,
                                                chars[j - 1],
                                            );
                                            let anchored = if is_eof {
                                                true
                                            } else {
                                                let next_boundary = !contains_char(
                                                    &self.non_word_boundaries,
                                                    chars[j],
                                                );
                                                next_boundary || last_boundary
                                            };
                                            if anchored {
                                                best = Some((cur, j));
                                            }
                                        }
                                    },
                                    None => {
                                        done = true;
                                    },
                                }
                            } else {
                                done = true;
                            }
                        },
                    }
                }
                proof {
                    if max_cost == 0 {
                        assert forall|j2: int|
                            idx < j2 <= n && #[trigger] occurrence(*self, chars@, idx as int, j2)
                                implies (match best {
                            Some(p) => p.1 >= j2,
                            None => false,
                        }) by {
                            if j2 > j {
                                assert(done);
                                lemma_walk_split(
                                    self.nodes@,
                                    0,
                                    chars@.subrange(idx as int, j2),
                                    j - idx,
                                    true,
                                );
                                assert(chars@.subrange(idx as int, j2).take(j - idx)
                                    =~= chars@.subrange(idx as int, j as int));
                                assert(chars@.subrange(idx as int, j2).skip(j - idx)
                                    =~= chars@.subrange(j as int, j2));
                                assert(chars@.subrange(j as int, j2)[0] == chars@[j as int]);
                                assert(walk(
                                    self.nodes@,
                                    cur as int,
                                    chars@.subrange(j as int, j2),
                                    true,
                                ) is None);
                                assert(lookup_in(
                                    self.nodes@,
                                    chars@.subrange(idx as int, j2),
                                    true,
                                ) is None);
                            }
                        }
                    }
                }
                match best {
                    Some(pair) => {
                        let bn = pair.0;
                        let be = pair.1;
                        let b2 = self.emit_best(bn, idx, be, max_cost, &chars, &mut out, Ghost(bounds));
                        proof {
                            bounds = b2@;
                        }
                        idx = be;
                    },
                    None => {
                        proof {
                            if max_cost == 0 {
                                assert(forall|j2: int|
                                    !occurrence(*self, chars@, idx as int, j2));
                            }
                        }
                        idx += 1;
                    },
                }
            }
        }
        proof {
            if max_cost == 0 {
                assert(runs_partitioned(*self, chars@, out@, bounds));
            }
        }
        out
    }

    /// Emit the labels of the best match: one entry per payload element,
    /// all with the span `[idx, be)`, appended as one new block.
    #[verifier::rlimit(100)]
    fn emit_best(
        &self,
        bn: usize,
        idx: usize,
        be: usize,
        max_cost: usize,
        chars: &Vec<char>,
        out: &mut Vec<KeywordMatch>,
        Ghost(bounds_in): Ghost<Seq<int>>,
    ) -> (bounds_ret: Ghost<Seq<int>>)
        requires
            self.wf(),
            bn < self.nodes@.len(),
            self.nodes@[bn as int].clean_name is Some,
            idx < be <= chars@.len(),
            boundary_ok(*self, chars@, idx as int),
            boundary_ok(*self, chars@, be as int),
            forall|m: int|
                0 <= m < old(out)@.len() ==> (#[trigger] old(out)@[m]).start < old(out)@[m].end
                    <= chars@.len() && boundary_ok(*self, chars@, old(out)@[m].start as int)
                    && boundary_ok(*self, chars@, old(out)@[m].end as int) && old(out)@[m].end
                    <= idx,
            forall|a: int, b: int|
                0 <= a < b < old(out)@.len() ==> (#[trigger] old(out)@[a]).end <= (
                #[trigger] old(out)@[b]).start || (old(out)@[a].start == old(out)@[b].start && old(out)@[a].end == old(out)@[b].end),
            max_cost == 0 ==> matches_registered(*self, chars@, old(out)@),
            max_cost == 0 ==> runs_partitioned(*self, chars@, old(out)@, bounds_in),
            max_cost == 0 ==> forall|m: int, j2: int|
                0 <= m < old(out)@.len() && #[trigger] occurrence(
                    *self,
                    chars@,
                    old(out)@[m].start as int,
                    j2,
                ) ==> j2 <= old(out)@[m].end,
            max_cost == 0 && no_empty_payloads(*self) ==> forall|i: int, j2: int|
                i < idx && #[trigger] occurrence(*self, chars@, i, j2) ==> covered(
                    old(out)@,
                    i,
                    j2,
                ),
            max_cost == 0 ==> walk(
                self.nodes@,
                0,
                chars@.subrange(idx as int, be as int),
                true,
            ) == Some(bn as int),
            max_cost == 0 ==> forall|j2: int|
                #[trigger] occurrence(*self, chars@, idx as int, j2) ==> j2 <= be,
        ensures
            forall|m: int|
                0 <= m < final(out)@.len() ==> (#[trigger] final(out)@[m]).start < final(out)@[m].end <= chars@.len() && boundary_ok(
                    *self,
                    chars@,
                    final(out)@[m].start as int,
                ) && boundary_ok(*self, chars@, final(out)@[m].end as int) && final(out)@[m].end
                    <= be,
            forall|a: int, b: int|
                0 <= a < b < final(out)@.len() ==> (#[trigger] final(out)@[a]).end <= (
                #[trigger] final(out)@[b]).start || (final(out)@[a].start == final(out)@[b].start && final(out)@[a].end == final(out)@[b].end),
            max_cost == 0 ==> matches_registered(*self, chars@, final(out)@),
            max_cost == 0 ==> runs_partitioned(*self, chars@, final(out)@, bounds_ret@),
            max_cost == 0 ==> forall|m: int, j2: int|
                0 <= m < final(out)@.len() && #[trigger] occurrence(
                    *self,
                    chars@,
                    final(out)@[m].start as int,
                    j2,
                ) ==> j2 <= final(out)@[m].end,
            max_cost == 0 && no_empty_payloads(*self) ==> forall|i: int, j2: int|
                i < be && #[trigger] occurrence(*self, chars@, i, j2) ==> covered(
                    final(out)@,
                    i,
                    j2,
                ),
    {
        let ghost mut bounds: Seq<int> = bounds_in;
        let ghost out_pre = out@;
        let ghost idx0 = idx as int;
        let ghost pl = self.nodes@[bn as int].clean_name->0;
        let labels: Vec<String>;
        match &self.nodes[bn].clean_name {
            Some(p) => {
                labels = p.labels();
            },
            None => {
                proof {
                    assert(false);
                }
                labels = Vec::new();
            },
        }
        proof {
            if max_cost == 0 {
                assert(lookup_in(self.nodes@, chars@.subrange(idx0, be as int), true) == Some(
                    pl,
                ));
            }
        }
        let nv = labels.len();
        let mut t: usize = 0;
        while t < nv
            invariant
                self.wf(),
                bn < self.nodes@.len(),
                self.nodes@[bn as int].clean_name == Some(pl),
                nv == labels@.len(),
                labels@.len() == pl.elements().len(),
                forall|k: int| 0 <= k < nv ==> (#[trigger] labels@[k])@ == pl.elements()[k],
                t <= nv,
                idx0 == idx as int,
                idx < be <= chars@.len(),
                boundary_ok(*self, chars@, idx0),
                boundary_ok(*self, chars@, be as int),
                out@.len() == out_pre.len() + t,
                forall|m: int| 0 <= m < out_pre.len() ==> #[trigger] out@[m] == out_pre[m],
                forall|m: int| 0 <= m < out_pre.len() ==> (#[trigger] out@[m]).end <= idx0,
                forall|m: int|
                    out_pre.len() <= m < out@.len() ==> (#[trigger] out@[m]).start == idx
                        && out@[m].end == be && out@[m].clean_name@ == pl.elements()[m
                        - out_pre.len()],
                forall|m: int|
                    0 <= m < out@.len() ==> (#[trigger] out@[m]).start < out@[m].end
                        <= chars@.len() && boundary_ok(*self, chars@, out@[m].start as int)
                        && boundary_ok(*self, chars@, out@[m].end as int) && out@[m].end <= be,
                forall|a: int, b: int|
                    0 <= a < b < out@.len() ==> (#[trigger] out@[a]).end <= (
                    #[trigger] out@[b]).start || (out@[a].start == out@[b].start && out@[a].end
                        == out@[b].end),
                max_cost == 0 ==> matches_registered(*self, chars@, out@),
                max_cost == 0 ==> runs_partitioned(*self, chars@, out_pre, bounds_in),
                max_cost == 0 ==> lookup_in(self.nodes@, chars@.subrange(idx0, be as int), true)
                    == Some(pl),
                max_cost == 0 ==> forall|j2: int|
                    #[trigger] occurrence(*self, chars@, idx0, j2) ==> j2 <= be,
                max_cost == 0 ==> forall|m: int, j2: int|
                    0 <= m < out@.len() && #[trigger] occurrence(
                        *self,
                        chars@,
                        out@[m].start as int,
                        j2,
                    ) ==> j2 <= out@[m].end,
                max_cost == 0 && no_empty_payloads(*self) ==> forall|i: int, j2: int|
                    i < idx0 && #[trigger] occurrence(*self, chars@, i, j2) ==> covered(
                        out@,
                        i,
                        j2,
                    ),
            decreases nv - t,
        {
            let name = labels[t].clone();
            let ghost out_it = out@;
            out.push(KeywordMatch { clean_name: name, start: idx, end: be });
            proof {
                assert(forall|m: int| 0 <= m < out_it.len() ==> #[trigger] out@[m] == out_it[m]);
                if max_cost == 0 {
                    let last = out@.len() - 1;
                    assert(pl.elements().contains(out@[last].clean_name@)) by {
                        assert(pl.elements()[t as int] == labels@[t as int]@);
                    }
                    assert(match_registered(*self, chars@, out@[last]));
                    assert forall|m: int, j2: int|
                        0 <= m < out@.len() && #[trigger] occurrence(
                            *self,
                            chars@,
                            out@[m].start as int,
                            j2,
                        ) implies j2 <= out@[m].end by {
                        if m < out_it.len() {
                            assert(out@[m] == out_it[m]);
                            assert(occurrence(*self, chars@, out_it[m].start as int, j2) ==> j2
                                <= out_it[m].end);
                        } else {
                            assert(out@[m].start == idx && out@[m].end == be);
                            assert(occurrence(*self, chars@, idx0, j2) ==> j2 <= be);
                        }
                    }
                    if no_empty_payloads(*self) {
                        assert forall|i: int, j2: int|
                            i < idx0 && #[trigger] occurrence(*self, chars@, i, j2) implies covered(
                            out@,
                            i,
                            j2,
                        ) by {
                            let w = choose|m: int|
                                0 <= m < out_it.len() && (#[trigger] out_it[m]).start <= i < out_it[m].end;
                            assert(out@[w] == out_it[w]);
                        }
                    }
                }
            }
            t += 1;
        }
        proof {
            if max_cost == 0 {
                if nv > 0 {
                    lemma_push_block(*self, chars@, out_pre, out@, bounds, idx0, be as int, pl);
                    bounds = bounds.push(out@.len() as int);
                } else {
                    assert(out@ =~= out_pre);
                }
                if no_empty_payloads(*self) {
                    assert(pl.elements().len() > 0);
                    assert forall|i: int, j2: int|
                        i < be && #[trigger] occurrence(*self, chars@, i, j2) implies covered(
                        out@,
                        i,
                        j2,
                    ) by {
                        if i >= idx0 {
                            let w = out_pre.len() as int;
                            assert(out@[w].start == idx && out@[w].end == be);
                        }
                    }
                }
            }
        }
        Ghost(bounds)
    }


    /// Scan the text and report the labels of the matches alone, in order.
    pub fn extract_keywords(&self, sentence: &str, max_cost: usize) -> (r: Vec<String>)
        requires
            self.wf(),
        ensures
            names_ok(*self, sentence@, max_cost, r@),
    {
        let spans = self.extract_keywords_with_spans(sentence, max_cost);
        let mut out: Vec<String> = Vec::new();
        let nm = spans.len();
        let mut i: usize = 0;
        while i < nm
            invariant
                nm == spans@.len(),
                i <= nm,
                out@.len() == i,
                forall|m: int| 0 <= m < i ==> out@[m] == spans@[m].clean_name,
            decreases nm - i,
        {
            out.push(spans[i].clean_name.clone());
            i += 1;
        }
        proof {
            let ms = spans@;
            let bounds: Seq<int> = if max_cost == 0 {
                choose|b: Seq<int>| runs_partitioned(*self, sentence@, ms, b)
            } else {
                seq![0int]
            };
            assert(names_witness_ok(*self, sentence@, max_cost, out@, ms, bounds));
        }
        out
    }
}

/// The labels, in order, of a span list with every guarantee of the span
/// scanner: well-formed spans and, with no edit budget, registered, maximal
/// at each start, partitioned into exact payload blocks, and covering every
/// occurrence.
pub open spec fn names_witness_ok(
    kp: KeywordProcessor,
    text: Seq<char>,
    max_cost: usize,
    names: Seq<String>,
    ms: Seq<KeywordMatch>,
    bounds: Seq<int>,
) -> bool {
    &&& spans_ok(kp, text, ms)
    &&& names.len() == ms.len()
    &&& forall|m: int| 0 <= m < ms.len() ==> names[m] == (#[trigger] ms[m]).clean_name
    &&& max_cost == 0 ==> matches_registered(kp, text, ms) && runs_partitioned(
        kp,
        text,
        ms,
        bounds,
    ) && (forall|m: int, j2: int|
        0 <= m < ms.len() && #[trigger] occurrence(kp, text, ms[m].start as int, j2) ==> j2
            <= ms[m].end)
    &&& max_cost == 0 && no_empty_payloads(kp) ==> forall|i: int, j2: int|
        #[trigger] occurrence(kp, text, i, j2) ==> covered(ms, i, j2)
}

pub open spec fn names_ok(
    kp: KeywordProcessor,
    text: Seq<char>,
    max_cost: usize,
    names: Seq<String>,
) -> bool {
    exists|ms: Seq<KeywordMatch>, bounds: Seq<int>|
        names_witness_ok(kp, text, max_cost, names, ms, bounds)
}

} // verus!
