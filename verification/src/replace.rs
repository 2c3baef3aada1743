use vstd::prelude::*;
use crate::payload::Payload;
use crate::processor::KeywordProcessor;
use crate::scan::{spans_ok, matches_registered, occurrence, no_empty_payloads, runs_partitioned, run_exact, lemma_run_of};
use crate::trie::lookup_in;
use crate::text::{str_chars, chars_to_string};

verus! {

/// One applied replacement: the text that was covered, what was put in its
/// place, and the covered span in code-point indices.
#[derive(Debug, Clone, PartialEq)]
pub struct Replacement {
    pub original: String,
    pub replacement: String,
    pub start: usize,
    pub end: usize,
}

/// Every applied replacement covers a non-empty span of the input, the
/// recorded original is exactly the covered slice, and spans are disjoint
/// and strictly ascending.
pub open spec fn records_ok(text: Seq<char>, rs: Seq<Replacement>) -> bool {
    &&& forall|m: int|
        0 <= m < rs.len() ==> (#[trigger] rs[m]).start < rs[m].end <= text.len()
            && rs[m].original@ == text.subrange(rs[m].start as int, rs[m].end as int)
    &&& forall|a: int, b: int| 0 <= a < b < rs.len() ==> (#[trigger] rs[a]).end <= (#[trigger] rs[b]).start
}

/// Where the text resumes after the last applied replacement.
pub open spec fn final_end(rs: Seq<Replacement>) -> int {
    if rs.len() == 0 {
        0
    } else {
        rs.last().end as int
    }
}

/// The rewritten text up to the last replacement: for each record, the
/// untouched gap before it and then its replacement.
pub open spec fn applied(text: Seq<char>, rs: Seq<Replacement>, from: int) -> Seq<char>
    decreases rs.len(),
{
    if rs.len() == 0 {
        Seq::<char>::empty()
    } else {
        text.subrange(from, rs[0].start as int) + rs[0].replacement@ + applied(
            text,
            rs.drop_first(),
            rs[0].end as int,
        )
    }
}

/// Appending one more record extends the rewrite by the gap before it and
/// its replacement.
proof fn lemma_applied_snoc(text: Seq<char>, rs: Seq<Replacement>, rec: Replacement, from: int)
    ensures
        applied(text, rs.push(rec), from) == applied(text, rs, from) + text.subrange(
            (if rs.len() == 0 {
                from
            } else {
                rs.last().end as int
            }),
            rec.start as int,
        ) + rec.replacement@,
    decreases rs.len(),
{
    let rs2 = rs.push(rec);
    if rs.len() == 0 {
        assert(rs2[0] == rec);
        assert(rs2.drop_first() =~= Seq::<Replacement>::empty());
        assert(applied(text, rs2.drop_first(), rec.end as int) =~= Seq::<char>::empty());
        assert(applied(text, rs2, from) =~= text.subrange(from, rec.start as int)
            + rec.replacement@);
        assert(applied(text, rs, from) + text.subrange(from, rec.start as int) + rec.replacement@
            =~= text.subrange(from, rec.start as int) + rec.replacement@);
    } else {
        assert(rs2[0] == rs[0]);
        assert(rs2.drop_first() =~= rs.drop_first().push(rec));
        lemma_applied_snoc(text, rs.drop_first(), rec, rs[0].end as int);
        assert(rs.drop_first().len() == 0 ==> rs.last() == rs[0]);
        assert(rs.drop_first().len() > 0 ==> rs.drop_first().last() == rs.last());
        assert(applied(text, rs2, from) =~= applied(text, rs, from) + text.subrange(
            rs.last().end as int,
            rec.start as int,
        ) + rec.replacement@);
    }
}

/// An applied record stands for a real match: its span is a registered,
/// boundary-anchored occurrence, maximal at its start, and the replacement
/// string is one of the labels of the payload registered for the slice.
#[verifier::opaque]
pub open spec fn record_occ(kp: KeywordProcessor, text: Seq<char>, rec: Replacement) -> bool {
    &&& occurrence(kp, text, rec.start as int, rec.end as int)
    &&& lookup_in(kp.nodes@, text.subrange(rec.start as int, rec.end as int), true) is Some
    &&& lookup_in(
        kp.nodes@,
        text.subrange(rec.start as int, rec.end as int),
        true,
    )->0.elements().len() > 0
    &&& rec.replacement@ == lookup_in(
        kp.nodes@,
        text.subrange(rec.start as int, rec.end as int),
        true,
    )->0.first_name()
    &&& forall|j2: int| #[trigger] occurrence(kp, text, rec.start as int, j2) ==> j2 <= rec.end
}

/// Some applied record's span contains the start of the occurrence `[i, j)`.
pub open spec fn rec_covered(rs: Seq<Replacement>, i: int, j: int) -> bool {
    exists|w: int| 0 <= w < rs.len() && (#[trigger] rs[w]).start <= i < rs[w].end
}

/// The record built from an applied match is a real occurrence carrying the
/// registered payload's first label: an applied match is the first of its
/// same-span block, since any earlier same-span match would already have
/// produced a record ending past its start.
#[verifier::rlimit(100)]
proof fn lemma_applied_record_occ(
    kp: KeywordProcessor,
    text: Seq<char>,
    ms: Seq<crate::scan::KeywordMatch>,
    mbounds: Seq<int>,
    recs_before: Seq<Replacement>,
    last_before: int,
    m: int,
    rec: Replacement,
)
    requires
        spans_ok(kp, text, ms),
        matches_registered(kp, text, ms),
        runs_partitioned(kp, text, ms, mbounds),
        forall|q: int, j2: int|
            0 <= q < ms.len() && #[trigger] occurrence(kp, text, ms[q].start as int, j2) ==> j2
                <= ms[q].end,
        forall|q2: int|
            0 <= q2 < m ==> exists|w: int|
                0 <= w < recs_before.len() && (#[trigger] recs_before[w]).start == (
                #[trigger] ms[q2]).start && recs_before[w].end == ms[q2].end,
        forall|w: int| 0 <= w < recs_before.len() ==> (#[trigger] recs_before[w]).end <= last_before,
        0 <= m < ms.len(),
        rec.start == ms[m].start,
        rec.end == ms[m].end,
        rec.replacement@ == ms[m].clean_name@,
        rec.start >= last_before,
    ensures
        record_occ(kp, text, rec),
{
    reveal(record_occ);
    assert(crate::scan::match_registered(kp, text, ms[m]));
    lemma_run_of(kp, text, ms, mbounds, m);
    let bi = choose|i: int|
        0 <= i < mbounds.len() - 1 && (#[trigger] mbounds[i]) <= m < mbounds[i + 1];
    assert(run_exact(kp, text, ms, mbounds[bi], mbounds[bi + 1]));
    if m > mbounds[bi] {
        assert(ms[m - 1].start == ms[m].start && ms[m - 1].end == ms[m].end);
        let w0 = choose|w: int|
            0 <= w < recs_before.len() && (#[trigger] recs_before[w]).start == ms[m - 1].start
                && recs_before[w].end == ms[m - 1].end;
        assert(recs_before[w0].end <= last_before);
        assert(ms[m].start < ms[m].end);
        assert(false);
    }
    assert(m == mbounds[bi]);
    let pl = lookup_in(kp.nodes@, text.subrange(rec.start as int, rec.end as int), true)->0;
    assert(ms[m].clean_name@ == pl.elements()[0]);
    assert(pl.first_name() == pl.elements()[0]) by {
        match pl {
            Payload::Scalar(s) => {
                assert(pl.elements()[0] == s@);
            },
            Payload::Multi(v) => {
                assert(pl.elements().len() == v@.len());
                assert(pl.elements()[0] == v@[0]@);
            },
        }
    }
}

impl KeywordProcessor {
    /// Rewrite the text, replacing each extracted keyword occurrence with its
    /// clean name, and report what was replaced where. When nothing was
    /// replaced the text comes back unchanged.
    #[verifier::rlimit(100)]
    pub fn replace_keywords_with_records(&self, sentence: &str, max_cost: usize) -> (r: (
        String,
        Vec<Replacement>,
    ))
        requires
            self.wf(),
        ensures
            records_ok(sentence@, r.1@),
            r.0@ == applied(sentence@, r.1@, 0) + sentence@.skip(final_end(r.1@)),
            r.1@.len() == 0 ==> r.0@ == sentence@,
            max_cost == 0 ==> forall|q: int|
                0 <= q < r.1@.len() ==> record_occ(*self, sentence@, #[trigger] r.1@[q]),
            max_cost == 0 && no_empty_payloads(*self) ==> forall|i: int, j2: int|
                #[trigger] occurrence(*self, sentence@, i, j2) ==> rec_covered(r.1@, i, j2),
    {
        let matches = self.extract_keywords_with_spans(sentence, max_cost);
        let chars = str_chars(sentence);
        let ghost mbounds: Seq<int> = if max_cost == 0 {
            choose|b: Seq<int>| runs_partitioned(*self, chars@, matches@, b)
        } else {
            seq![0int]
        };
        let n = chars.len();
        let mut built: Vec<char> = Vec::new();
        let mut records: Vec<Replacement> = Vec::new();
        let mut last_end: usize = 0;
        let nm = matches.len();
        let mut m: usize = 0;
        proof {
            assert(chars@.subrange(0, 0) =~= Seq::<char>::empty());
        }
        while m < nm
            invariant
                self.wf(),
                chars@ == sentence@,
                n == chars@.len(),
                nm == matches@.len(),
                m <= nm,
                last_end <= n,
                spans_ok(*self, chars@, matches@),
                max_cost == 0 ==> matches_registered(*self, chars@, matches@),
                max_cost == 0 ==> runs_partitioned(*self, chars@, matches@, mbounds),
                max_cost == 0 ==> forall|q: int, j2: int|
                    0 <= q < nm && #[trigger] occurrence(
                        *self,
                        chars@,
                        matches@[q].start as int,
                        j2,
                    ) ==> j2 <= matches@[q].end,
                max_cost == 0 && no_empty_payloads(*self) ==> forall|i: int, j2: int|
                    #[trigger] occurrence(*self, chars@, i, j2) ==> crate::scan::covered(
                        matches@,
                        i,
                        j2,
                    ),
                max_cost == 0 ==> forall|q: int|
                    0 <= q < records@.len() ==> record_occ(*self, chars@, #[trigger] records@[q]),
                max_cost == 0 ==> forall|q2: int|
                    0 <= q2 < m ==> exists|w: int|
                        0 <= w < records@.len() && (#[trigger] records@[w]).start == (
                        #[trigger] matches@[q2]).start && records@[w].end == matches@[q2].end,
                max_cost == 0 && records@.len() > 0 ==> exists|q0: int|
                    0 <= q0 < m && (#[trigger] matches@[q0]).start == records@.last().start
                        && matches@[q0].end == records@.last().end,
                forall|q: int| m <= q < nm ==> last_end <= (#[trigger] matches@[q]).end,
                last_end as int == final_end(records@),
                built@ == applied(chars@, records@, 0),
                forall|q: int|
                    0 <= q < records@.len() ==> (#[trigger] records@[q]).start < records@[q].end
                        <= n && records@[q].original@ == chars@.subrange(
                        records@[q].start as int,
                        records@[q].end as int,
                    ) && records@[q].end <= last_end,
                forall|a: int, b: int|
                    0 <= a < b < records@.len() ==> (#[trigger] records@[a]).end <= (
                    #[trigger] records@[b]).start,
            decreases nm - m,
        {
            let km = &matches[m];
            let start = km.start;
            let end = km.end;
            if start >= last_end {
                // copy the gap before the match
                let mut g = last_end;
                proof {
                    assert(built@ =~= applied(chars@, records@, 0) + chars@.subrange(
                        last_end as int,
                        last_end as int,
                    ));
                }
                while g < start
                    invariant
                        n == chars@.len(),
                        start <= n,
                        last_end <= g <= start,
                        built@ == applied(chars@, records@, 0) + chars@.subrange(
                            last_end as int,
                            g as int,
                        ),
                    decreases start - g,
                {
                    built.push(chars[g]);
                    proof {
                        assert(built@ =~= applied(chars@, records@, 0) + chars@.subrange(
                            last_end as int,
                            g + 1,
                        ));
                    }
                    g += 1;
                }
                // the covered slice
                let mut orig: Vec<char> = Vec::new();
                let mut o = start;
                while o < end
                    invariant
                        chars@ == sentence@,
                        n == chars@.len(),
                        start <= o <= end <= n,
                        orig@ == chars@.subrange(start as int, o as int),
                    decreases end - o,
                {
                    orig.push(chars[o]);
                    proof {
                        assert(orig@ =~= chars@.subrange(start as int, o + 1));
                    }
                    o += 1;
                }
                let name = km.clean_name.clone();
                let name_chars = str_chars(name.as_str());
                let mut w: usize = 0;
                let nw = name_chars.len();
                proof {
                    assert(built@ =~= applied(chars@, records@, 0) + chars@.subrange(
                        last_end as int,
                        start as int,
                    ) + name_chars@.take(0));
                }
                while w < nw
                    invariant
                        nw == name_chars@.len(),
                        w <= nw,
                        built@ == applied(chars@, records@, 0) + chars@.subrange(
                            last_end as int,
                            start as int,
                        ) + name_chars@.take(w as int),
                    decreases nw - w,
                {
                    built.push(name_chars[w]);
                    proof {
                        assert(built@ =~= applied(chars@, records@, 0) + chars@.subrange(
                            last_end as int,
                            start as int,
                        ) + name_chars@.take(w + 1));
                    }
                    w += 1;
                }
                proof {
                    assert(name_chars@.take(nw as int) =~= name@);
                }
                let ghost recs_before = records@;
                let ghost last_before = last_end as int;
                records.push(
                    Replacement {
                        original: chars_to_string(&orig),
                        replacement: name,
                        start,
                        end,
                    },
                );
                last_end = end;
                proof {
                    let rec = records@.last();
                    assert(records@ =~= recs_before.push(rec));
                    lemma_applied_snoc(chars@, recs_before, rec, 0);
                    assert(final_end(recs_before) == last_before);
                    assert(built@ =~= applied(chars@, records@, 0));
                    assert(matches@[m as int].start < matches@[m as int].end <= n);
                    assert forall|q: int| m + 1 <= q < nm implies last_end <= (
                    #[trigger] matches@[q]).end by {
                        assert(matches@[m as int].end <= matches@[q].start || (matches@[m
                            as int].start == matches@[q].start && matches@[m as int].end
                            == matches@[q].end));
                        assert(matches@[q].start < matches@[q].end);
                    }
                    assert(forall|q: int|
                        0 <= q < recs_before.len() ==> #[trigger] records@[q] == recs_before[q]);
                    if max_cost == 0 {
                        assert(rec.start == matches@[m as int].start && rec.end == matches@[m
                            as int].end);
                        assert(rec.replacement@ == matches@[m as int].clean_name@);
                        lemma_applied_record_occ(
                            *self,
                            chars@,
                            matches@,
                            mbounds,
                            recs_before,
                            last_before,
                            m as int,
                            rec,
                        );
                        assert forall|q2: int| 0 <= q2 < m + 1 implies exists|w: int|
                            0 <= w < records@.len() && (#[trigger] records@[w]).start == (
                            #[trigger] matches@[q2]).start && records@[w].end
                                == matches@[q2].end by {
                            if q2 < m {
                                let w0 = choose|w: int|
                                    0 <= w < recs_before.len() && (#[trigger] recs_before[w]).start
                                        == matches@[q2].start && recs_before[w].end
                                        == matches@[q2].end;
                                assert(records@[w0] == recs_before[w0]);
                            } else {
                                assert(records@[records@.len() - 1].start == matches@[q2].start
                                    && records@[records@.len() - 1].end == matches@[q2].end);
                            }
                        }
                    }
                }
            } else {
                proof {
                    if max_cost == 0 {
                        // the skipped match shares its span with the last applied record
                        assert(records@.len() > 0) by {
                            assert(start < last_end);
                        }
                        let q0 = choose|q0: int|
                            0 <= q0 < m && (#[trigger] matches@[q0]).start
                                == records@.last().start && matches@[q0].end
                                == records@.last().end;
                        assert(matches@[q0].end == last_end);
                        assert(matches@[q0].end <= matches@[m as int].start || (matches@[q0].start
                            == matches@[m as int].start && matches@[q0].end == matches@[m
                            as int].end));
                        assert(matches@[m as int].start == records@.last().start && matches@[m
                            as int].end == records@.last().end);
                        assert forall|q2: int| 0 <= q2 < m + 1 implies exists|w: int|
                            0 <= w < records@.len() && (#[trigger] records@[w]).start == (
                            #[trigger] matches@[q2]).start && records@[w].end
                                == matches@[q2].end by {
                            if q2 == m {
                                let w1 = records@.len() - 1;
                                assert(records@[w1].start == matches@[q2].start && records@[w1].end
                                    == matches@[q2].end);
                            }
                        }
                    }
                }
            }
            m += 1;
        }
        proof {
            if max_cost == 0 && no_empty_payloads(*self) {
                assert forall|i: int, j2: int|
                    #[trigger] occurrence(*self, chars@, i, j2) implies rec_covered(
                    records@,
                    i,
                    j2,
                ) by {
                    assert(crate::scan::covered(matches@, i, j2));
                    let q2 = choose|q: int|
                        0 <= q < matches@.len() && (#[trigger] matches@[q]).start <= i
                            < matches@[q].end;
                    let w = choose|w: int|
                        0 <= w < records@.len() && (#[trigger] records@[w]).start
                            == matches@[q2].start && records@[w].end == matches@[q2].end;
                    assert(records@[w].start <= i < records@[w].end);
                }
            }
        }
        // copy the tail
        let mut g = last_end;
        proof {
            assert(built@ =~= applied(chars@, records@, 0) + chars@.subrange(
                last_end as int,
                last_end as int,
            ));
        }
        while g < n
            invariant
                chars@ == sentence@,
                n == chars@.len(),
                last_end <= g <= n,
                last_end as int == final_end(records@),
                built@ == applied(chars@, records@, 0) + chars@.subrange(
                    last_end as int,
                    g as int,
                ),
                forall|q: int|
                    0 <= q < records@.len() ==> (#[trigger] records@[q]).start < records@[q].end
                        <= n && records@[q].original@ == chars@.subrange(
                        records@[q].start as int,
                        records@[q].end as int,
                    ),
                forall|a: int, b: int|
                    0 <= a < b < records@.len() ==> (#[trigger] records@[a]).end <= (
                    #[trigger] records@[b]).start,
                max_cost == 0 ==> forall|q: int|
                    0 <= q < records@.len() ==> record_occ(*self, chars@, #[trigger] records@[q]),
                max_cost == 0 && no_empty_payloads(*self) ==> forall|i: int, j2: int|
                    #[trigger] occurrence(*self, chars@, i, j2) ==> rec_covered(
                        records@,
                        i,
                        j2,
                    ),
            decreases n - g,
        {
            built.push(chars[g]);
            proof {
                assert(built@ =~= applied(chars@, records@, 0) + chars@.subrange(
                    last_end as int,
                    g + 1,
                ));
            }
            g += 1;
        }
        proof {
            assert(chars@.subrange(last_end as int, n as int) =~= chars@.skip(
                final_end(records@),
            ));
            if records@.len() == 0 {
                assert(built@ =~= chars@);
            }
        }
        (chars_to_string(&built), records)
    }

    /// Rewrite the text, replacing each extracted keyword occurrence with its
    /// clean name.
    pub fn replace_keywords(&self, sentence: &str, max_cost: usize) -> (r: String)
        requires
            self.wf(),
        ensures
            exists|rs: Seq<Replacement>|
                replace_witness_ok(*self, sentence@, max_cost, r@, rs),
    {
        let pair = self.replace_keywords_with_records(sentence, max_cost);
        proof {
            assert(replace_witness_ok(*self, sentence@, max_cost, pair.0@, pair.1@));
        }
        pair.0
    }
}

/// Everything the record-returning replacer promises, said of an output text
/// and a record list: the output is the interleaving of untouched gaps and
/// replacements, the records are, with no edit budget, real maximal
/// occurrences carrying registered labels, and every occurrence is covered.
pub open spec fn replace_witness_ok(
    kp: KeywordProcessor,
    text: Seq<char>,
    max_cost: usize,
    outstr: Seq<char>,
    rs: Seq<Replacement>,
) -> bool {
    &&& records_ok(text, rs)
    &&& outstr == applied(text, rs, 0) + text.skip(final_end(rs))
    &&& (rs.len() == 0 ==> outstr == text)
    &&& (max_cost == 0 ==> forall|q: int|
        0 <= q < rs.len() ==> record_occ(kp, text, #[trigger] rs[q]))
    &&& (max_cost == 0 && no_empty_payloads(kp) ==> forall|i: int, j2: int|
        #[trigger] occurrence(kp, text, i, j2) ==> rec_covered(rs, i, j2))
}

} // verus!
