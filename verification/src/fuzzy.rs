use vstd::prelude::*;
use crate::processor::KeywordProcessor;
use crate::enumerate::entry_below;
use crate::trie::{node_wf, walk};

verus! {

/// `x + 1`, stopping at the top of `usize`. The edit-distance rows use it so
/// that no input, however large, can overflow a cell.
pub open spec fn sat_inc(x: usize) -> usize {
    if x == usize::MAX {
        x
    } else {
        (x + 1) as usize
    }
}

pub open spec fn min2(a: usize, b: usize) -> usize {
    if a <= b {
        a
    } else {
        b
    }
}

/// One cell of the next edit-distance row, from the classic recurrence:
/// insertion, deletion, or substitution (free on equal characters).
pub open spec fn dp_cell(prev: Seq<usize>, cur: Seq<usize>, i: int, word: Seq<char>, c: char) -> usize {
    min2(
        sat_inc(cur[i - 1]),
        min2(
            sat_inc(prev[i]),
            if word[i - 1] == c {
                prev[i - 1]
            } else {
                sat_inc(prev[i - 1])
            },
        ),
    )
}

pub open spec fn nmin(x: nat, y: nat) -> nat {
    if x <= y {
        x
    } else {
        y
    }
}

/// The Levenshtein edit distance: the least number of single-character
/// insertions, deletions and substitutions turning one sequence into the
/// other.
pub open spec fn lev(a: Seq<char>, b: Seq<char>) -> nat
    decreases a.len() + b.len(),
{
    if a.len() == 0 {
        b.len()
    } else if b.len() == 0 {
        a.len()
    } else {
        nmin(
            lev(a.drop_last(), b) + 1,
            nmin(
                lev(a, b.drop_last()) + 1,
                lev(a.drop_last(), b.drop_last()) + if a.last() == b.last() {
                    0nat
                } else {
                    1nat
                },
            ),
        )
    }
}

/// A distance clipped into `usize`; the rows saturate the same way, so the
/// two agree everywhere a machine can reach.
pub open spec fn cap_usize(x: nat) -> usize {
    if x > usize::MAX {
        usize::MAX
    } else {
        x as usize
    }
}

/// `row` is the clipped edit-distance row of `word`'s prefixes against
/// `path`.
pub open spec fn row_is_lev(row: Seq<usize>, word: Seq<char>, path: Seq<char>) -> bool {
    &&& row.len() == word.len() + 1
    &&& forall|i: int|
        0 <= i <= word.len() ==> #[trigger] row[i] == cap_usize(lev(word.take(i), path))
}

/// One DP step along an edge labelled `c` turns the row for `path` into the
/// row for `path + c`: the recurrence the cells follow is the distance
/// recurrence, clipped.
pub proof fn lemma_row_lev(
    prev: Seq<usize>,
    row: Seq<usize>,
    word: Seq<char>,
    c: char,
    path: Seq<char>,
    i: int,
)
    requires
        row_is_lev(prev, word, path),
        row.len() == word.len() + 1,
        row[0] == sat_inc(prev[0]),
        forall|k: int| 1 <= k < row.len() ==> #[trigger] row[k] == dp_cell(prev, row, k, word, c),
        0 <= i <= word.len(),
    ensures
        row[i] == cap_usize(lev(word.take(i), path.push(c))),
    decreases i,
{
    let b2 = path.push(c);
    assert(b2.len() == path.len() + 1);
    assert(b2.last() == c);
    assert(b2.drop_last() =~= path);
    if i == 0 {
        assert(word.take(0) =~= Seq::<char>::empty());
        assert(lev(Seq::<char>::empty(), path) == path.len());
        assert(lev(Seq::<char>::empty(), b2) == b2.len());
        assert(prev[0] == cap_usize(path.len() as nat));
    } else {
        lemma_row_lev(prev, row, word, c, path, i - 1);
        let a = word.take(i);
        assert(a.len() == i);
        assert(a.last() == word[i - 1]);
        assert(a.drop_last() =~= word.take(i - 1));
        assert(row[i] == dp_cell(prev, row, i, word, c));
        assert(row[i - 1] == cap_usize(lev(word.take(i - 1), b2)));
        assert(prev[i] == cap_usize(lev(a, path)));
        assert(prev[i - 1] == cap_usize(lev(word.take(i - 1), path)));
        assert(lev(a, b2) == nmin(
            lev(word.take(i - 1), b2) + 1,
            nmin(
                lev(a, path) + 1,
                lev(word.take(i - 1), path) + if word[i - 1] == c {
                    0nat
                } else {
                    1nat
                },
            ),
        ));
    }
}

/// Against the empty sequence the distance is the sequence's own length.
pub proof fn lemma_lev_against_empty(a: Seq<char>)
    ensures
        lev(a, Seq::<char>::empty()) == a.len(),
{
}

/// The least distance between any prefix of `a` and `b`: the minimum of the
/// DP row, as a specification.
pub open spec fn min_row(a: Seq<char>, b: Seq<char>) -> nat
    decreases a.len(),
{
    if a.len() == 0 {
        lev(a, b)
    } else {
        nmin(lev(a, b), min_row(a.drop_last(), b))
    }
}

/// The row minimum bounds every prefix distance.
proof fn lemma_min_row_le(a: Seq<char>, b: Seq<char>, i: int)
    requires
        0 <= i <= a.len(),
    ensures
        min_row(a, b) <= lev(a.take(i), b),
    decreases a.len(),
{
    if i == a.len() {
        assert(a.take(i) =~= a);
    } else {
        assert(a.len() > 0);
        assert(a.drop_last().take(i) =~= a.take(i));
        lemma_min_row_le(a.drop_last(), b, i);
    }
}

/// Shorter words cannot raise the row minimum.
proof fn lemma_min_row_drop(a: Seq<char>, b: Seq<char>)
    requires
        a.len() > 0,
    ensures
        min_row(a, b) <= min_row(a.drop_last(), b),
{
}

/// No extension of the walked path can beat the row minimum: the distance of
/// the whole word to any longer path is at least the least prefix distance.
/// This is what lets the search prune a subtree whose row minimum is over
/// budget without losing a candidate.
pub proof fn lemma_lev_extension(a: Seq<char>, b: Seq<char>, ext: Seq<char>)
    ensures
        lev(a, b + ext) >= min_row(a, b),
    decreases ext.len(), a.len(),
{
    if ext.len() == 0 {
        assert(b + ext =~= b);
        lemma_min_row_le(a, b, a.len() as int);
        assert(a.take(a.len() as int) =~= a);
    } else {
        let ext0 = ext.drop_last();
        let c = ext.last();
        let big = b + ext;
        assert(big.len() == b.len() + ext.len());
        assert(big.drop_last() =~= b + ext0);
        if a.len() == 0 {
            assert(lev(a, big) == big.len());
            lemma_lev_extension(a, b, ext0);
            assert(lev(a, b + ext0) == (b + ext0).len());
        } else {
            assert(lev(a, big) == nmin(
                lev(a.drop_last(), big) + 1,
                nmin(
                    lev(a, big.drop_last()) + 1,
                    lev(a.drop_last(), big.drop_last()) + if a.last() == big.last() {
                        0nat
                    } else {
                        1nat
                    },
                ),
            ));
            lemma_lev_extension(a.drop_last(), b, ext);
            lemma_lev_extension(a, b, ext0);
            lemma_lev_extension(a.drop_last(), b, ext0);
            lemma_min_row_drop(a, b);
        }
    }
}

/// A row's computed minimum is the clipped specification minimum.
pub proof fn lemma_row_min_cap(row: Seq<usize>, word: Seq<char>, path: Seq<char>, rm: usize)
    requires
        row_is_lev(row, word, path),
        forall|i: int| 0 <= i < row.len() ==> rm <= #[trigger] row[i],
        exists|i: int| 0 <= i < row.len() && rm == #[trigger] row[i],
    ensures
        rm == cap_usize(min_row(word, path)),
{
    lemma_row_min_cap_rec(row, word, path, rm, word.len() as int);
    assert(word.take(word.len() as int) =~= word);
    assert(rm <= cap_usize(min_row(word, path)));
    let wit = choose|i: int| 0 <= i < row.len() && rm == #[trigger] row[i];
    lemma_min_row_le(word, path, wit);
    assert(row[wit] == cap_usize(lev(word.take(wit), path)));
    assert(min_row(word, path) <= lev(word.take(wit), path));
    assert(cap_usize(min_row(word, path)) <= cap_usize(lev(word.take(wit), path)));
}

/// The clipped minimum over prefixes up to `j` is attained by some cell.
proof fn lemma_row_min_cap_rec(row: Seq<usize>, word: Seq<char>, path: Seq<char>, rm: usize, j: int)
    requires
        row_is_lev(row, word, path),
        forall|i: int| 0 <= i < row.len() ==> rm <= #[trigger] row[i],
        0 <= j <= word.len(),
    ensures
        rm <= cap_usize(min_row(word.take(j), path)),
    decreases j,
{
    if j == 0 {
        assert(word.take(0) =~= Seq::<char>::empty());
        assert(row[0] == cap_usize(lev(word.take(0), path)));
    } else {
        lemma_row_min_cap_rec(row, word, path, rm, j - 1);
        assert(word.take(j).drop_last() =~= word.take(j - 1));
        assert(row[j] == cap_usize(lev(word.take(j), path)));
    }
}

fn sat_add1(x: usize) -> (r: usize)
    ensures
        r == sat_inc(x),
{
    if x == usize::MAX {
        x
    } else {
        x + 1
    }
}

/// The next edit-distance row along one trie edge labelled `c`, and the
/// smallest cell of that row.
pub fn dp_next_row(prev: &Vec<usize>, word: &Vec<char>, c: char) -> (r: (Vec<usize>, usize))
    requires
        prev@.len() == word@.len() + 1,
    ensures
        r.0@.len() == prev@.len(),
        r.0@[0] == sat_inc(prev@[0]),
        forall|i: int| 1 <= i < r.0@.len() ==> r.0@[i] == dp_cell(prev@, r.0@, i, word@, c),
        forall|i: int| 0 <= i < r.0@.len() ==> r.1 <= r.0@[i],
        exists|i: int| 0 <= i < r.0@.len() && r.1 == r.0@[i],
{
    let cols = prev.len();
    let mut row: Vec<usize> = Vec::new();
    row.push(sat_add1(prev[0]));
    let mut min_val = row[0];
    let mut i: usize = 1;
    while i < cols
        invariant
            prev@.len() == word@.len() + 1,
            cols == word@.len() + 1,
            1 <= i <= cols,
            row@.len() == i,
            row@[0] == sat_inc(prev@[0]),
            forall|k: int| 1 <= k < i ==> row@[k] == dp_cell(prev@, row@, k, word@, c),
            forall|k: int| 0 <= k < i ==> min_val <= row@[k],
            exists|k: int| 0 <= k < i && min_val == row@[k],
        decreases cols - i,
    {
        let ghost row_before = row@;
        let ins = sat_add1(row[i - 1]);
        let del = sat_add1(prev[i]);
        let rep = if word[i - 1] == c {
            prev[i - 1]
        } else {
            sat_add1(prev[i - 1])
        };
        let cell = if ins <= del {
            if ins <= rep {
                ins
            } else {
                rep
            }
        } else {
            if del <= rep {
                del
            } else {
                rep
            }
        };
        let ghost old_min = min_val;
        row.push(cell);
        proof {
            assert forall|k: int| 1 <= k < i + 1 implies row@[k] == dp_cell(
                prev@,
                row@,
                k,
                word@,
                c,
            ) by {
                if k < i {
                    assert(row@[k] == row_before[k]);
                    assert(row@[k - 1] == row_before[k - 1]);
                } else {
                    assert(row@[k] == cell);
                }
            }
        }
        if cell < min_val {
            min_val = cell;
        }
        proof {
            if cell < old_min {
                assert(min_val == row@[i as int]);
            } else {
                let w = choose|k: int| 0 <= k < i && old_min == row_before[k];
                assert(row@[w] == row_before[w]);
            }
        }
        i += 1;
    }
    (row, min_val)
}

impl KeywordProcessor {
    /// Walk the trie from `node_idx` with a bounded edit-distance search for
    /// `word`, collecting every terminal landing within budget as
    /// `(node, cost, word length, depth)`.
    pub(crate) fn levenshtein_node_rec(
        &self,
        node_idx: usize,
        word: &Vec<char>,
        prev_row: &Vec<usize>,
        max_cost: usize,
        depth: usize,
        results: &mut Vec<(usize, usize, usize, usize)>,
        Ghost(start): Ghost<int>,
        Ghost(path): Ghost<Seq<char>>,
    )
        requires
            self.wf(),
            node_idx < self.nodes@.len(),
            prev_row@.len() == word@.len() + 1,
            prev_row@[0] == depth,
            depth <= node_idx,
            0 <= start < self.nodes@.len(),
            walk(self.nodes@, start, path, true) == Some(node_idx as int),
            row_is_lev(prev_row@, word@, path),
            path.len() == depth,
        ensures
            final(results)@.len() >= old(results)@.len(),
            forall|m: int|
                0 <= m < old(results)@.len() ==> final(results)@[m] == old(results)@[m],
            forall|m: int|
                old(results)@.len() <= m < final(results)@.len() ==> fuzzy_candidate_ok(
                    *self,
                    word@,
                    max_cost,
                    start,
                    #[trigger] final(results)@[m],
                ),
            forall|pth: Seq<char>|
                #![trigger walk(self.nodes@, node_idx as int, pth, true)]
                walk(self.nodes@, node_idx as int, pth, true) is Some && pth.len() >= 1
                    && cap_usize(lev(word@, path + pth)) <= max_cost ==> exists|mm: int|
                    0 <= mm < final(results)@.len() && (#[trigger] final(results)@[mm]).0 as int
                        == walk(self.nodes@, node_idx as int, pth, true)->0
                        && final(results)@[mm].1 == cap_usize(lev(word@, path + pth))
                        && final(results)@[mm].3 == path.len() + pth.len(),
        decreases self.nodes@.len() - node_idx,
    {
        let ghost pre = results@;
        let n_children = self.nodes[node_idx].children.entries.len();
        let mut k: usize = 0;
        while k < n_children
            invariant
                self.wf(),
                node_idx < self.nodes@.len(),
                prev_row@.len() == word@.len() + 1,
                prev_row@[0] == depth,
                depth <= node_idx,
                0 <= start < self.nodes@.len(),
                walk(self.nodes@, start, path, true) == Some(node_idx as int),
                row_is_lev(prev_row@, word@, path),
                path.len() == depth,
                n_children == self.nodes@[node_idx as int].children@.len(),
                k <= n_children,
                results@.len() >= pre.len(),
                forall|m: int| 0 <= m < pre.len() ==> results@[m] == pre[m],
                forall|m: int|
                    pre.len() <= m < results@.len() ==> fuzzy_candidate_ok(
                        *self,
                        word@,
                        max_cost,
                        start,
                        #[trigger] results@[m],
                    ),
                forall|pth: Seq<char>|
                    #![trigger walk(self.nodes@, node_idx as int, pth, true)]
                    walk(self.nodes@, node_idx as int, pth, true) is Some && pth.len() >= 1
                        && cap_usize(lev(word@, path + pth)) <= max_cost && entry_below(
                        self.nodes@,
                        node_idx as int,
                        k as int,
                        pth[0],
                    ) ==> exists|mm: int|
                        0 <= mm < results@.len() && (#[trigger] results@[mm]).0 as int == walk(
                            self.nodes@,
                            node_idx as int,
                            pth,
                            true,
                        )->0 && results@[mm].1 == cap_usize(lev(word@, path + pth))
                            && results@[mm].3 == path.len() + pth.len(),
            decreases n_children - k,
        {
            let c = self.nodes[node_idx].children.entries[k].0;
            let child = self.nodes[node_idx].children.entries[k].1;
            let ghost res_at_k = results@;
            proof {
                assert(node_wf(self.nodes@, node_idx as int));
                assert(node_idx < (self.nodes@[node_idx as int].children@[k as int]).1
                    < self.nodes@.len());
                crate::childmap::lemma_entry_get(
                    self.nodes@[node_idx as int].children@,
                    k as int,
                );
                assert(crate::trie::step(self.nodes@, node_idx as int, c, true) == Some(child));
                crate::trie::lemma_walk_snoc(self.nodes@, start, path, c, true);
                assert(walk(self.nodes@, start, path.push(c), true) == Some(child as int));
            }
            let rm = dp_next_row(prev_row, word, c);
            let row = rm.0;
            let row_min = rm.1;
            let last = row[word.len()];
            proof {
                assert forall|i: int|
                    0 <= i <= word@.len() implies #[trigger] row@[i] == cap_usize(
                    lev(word@.take(i), path.push(c)),
                ) by {
                    lemma_row_lev(prev_row@, row@, word@, c, path, i);
                }
                assert(row_is_lev(row@, word@, path.push(c)));
            }
            if last <= max_cost {
                let wl = word.len();
                proof {
                    if word@.len() == 0 {
                        assert(row@[0] == sat_inc(prev_row@[0]));
                        assert(row@[0] >= 1);
                    }
                    assert(word@.take(word@.len() as int) =~= word@);
                    assert(last == cap_usize(lev(word@, path.push(c))));
                    assert(path.push(c).len() == depth + 1);
                }
                results.push((child, last, wl, depth + 1));
            }
            if row_min <= max_cost {
                self.levenshtein_node_rec(
                    child,
                    word,
                    &row,
                    max_cost,
                    depth + 1,
                    results,
                    Ghost(start),
                    Ghost(path.push(c)),
                );
            } else {
                proof {
                    lemma_row_min_cap(row@, word@, path.push(c), row_min);
                }
            }
            proof {
                assert forall|pth: Seq<char>|
                    #![trigger walk(self.nodes@, node_idx as int, pth, true)]
                    walk(self.nodes@, node_idx as int, pth, true) is Some && pth.len() >= 1
                        && cap_usize(lev(word@, path + pth)) <= max_cost && entry_below(
                        self.nodes@,
                        node_idx as int,
                        k + 1,
                        pth[0],
                    ) implies exists|mm: int|
                        0 <= mm < results@.len() && (#[trigger] results@[mm]).0 as int == walk(
                            self.nodes@,
                            node_idx as int,
                            pth,
                            true,
                        )->0 && results@[mm].1 == cap_usize(lev(word@, path + pth))
                            && results@[mm].3 == path.len() + pth.len() by {
                    if entry_below(self.nodes@, node_idx as int, k as int, pth[0]) {
                        let mm0 = choose|mm: int|
                            0 <= mm < res_at_k.len() && (#[trigger] res_at_k[mm]).0 as int == walk(
                                self.nodes@,
                                node_idx as int,
                                pth,
                                true,
                            )->0 && res_at_k[mm].1 == cap_usize(lev(word@, path + pth))
                                && res_at_k[mm].3 == path.len() + pth.len();
                        assert(results@[mm0] == res_at_k[mm0]);
                    } else {
                        // the first character of this suffix is the entry just
                        // explored
                        let k0 = choose|k0: int|
                            0 <= k0 < k + 1 && (#[trigger] self.nodes@[node_idx
                                as int].children@[k0]).0 == pth[0];
                        assert(k0 == k);
                        assert(crate::childmap::spec_get(
                            self.nodes@[node_idx as int].children@,
                            c,
                        ) == Some(child));
                        assert(crate::trie::step(self.nodes@, node_idx as int, pth[0], true)
                            == Some(child));
                        let rest = pth.drop_first();
                        assert(walk(self.nodes@, child as int, rest, true) == Some(
                            walk(self.nodes@, node_idx as int, pth, true)->0,
                        ));
                        assert(path + pth =~= path.push(c) + rest);
                        if rest.len() == 0 {
                            // the landing is this child itself
                            assert(path + pth =~= path.push(c));
                            assert(cap_usize(lev(word@, path.push(c))) <= max_cost);
                            assert(word@.take(word@.len() as int) =~= word@);
                            assert(last == cap_usize(lev(word@, path.push(c))));
                            assert(results@[res_at_k.len() as int] == (
                                child,
                                last,
                                word@.len() as usize,
                                (depth + 1) as usize,
                            ));
                        } else {
                            if row_min <= max_cost {
                                // the recursion covered this suffix
                                assert(exists|mm: int|
                                    0 <= mm < results@.len() && (#[trigger] results@[mm]).0
                                        as int == walk(
                                        self.nodes@,
                                        child as int,
                                        rest,
                                        true,
                                    )->0 && results@[mm].1 == cap_usize(
                                        lev(word@, path.push(c) + rest),
                                    ) && results@[mm].3 == path.push(c).len() + rest.len());
                            } else {
                                // pruned: nothing within budget lies below
                                lemma_lev_extension(word@, path.push(c), rest);
                                assert(lev(word@, path.push(c) + rest) >= min_row(
                                    word@,
                                    path.push(c),
                                ));
                                assert(row_min == cap_usize(min_row(word@, path.push(c))));
                                assert(min_row(word@, path.push(c)) > max_cost);
                                assert(cap_usize(lev(word@, path + pth)) > max_cost);
                                assert(false);
                            }
                        }
                    }
                }
            }
            k += 1;
        }
        proof {
            assert forall|pth: Seq<char>|
                #![trigger walk(self.nodes@, node_idx as int, pth, true)]
                walk(self.nodes@, node_idx as int, pth, true) is Some && pth.len() >= 1
                    && cap_usize(lev(word@, path + pth)) <= max_cost implies exists|mm: int|
                    0 <= mm < results@.len() && (#[trigger] results@[mm]).0 as int == walk(
                        self.nodes@,
                        node_idx as int,
                        pth,
                        true,
                    )->0 && results@[mm].1 == cap_usize(lev(word@, path + pth))
                        && results@[mm].3 == path.len() + pth.len() by {
                assert(crate::trie::step(self.nodes@, node_idx as int, pth[0], true) is Some);
                crate::childmap::lemma_get_entry(
                    self.nodes@[node_idx as int].children@,
                    pth[0],
                );
                assert(entry_below(self.nodes@, node_idx as int, n_children as int, pth[0]));
            }
        }
    }

    /// The best fuzzy continuation for the next word: the landing node, its
    /// cost, and how many input characters the scanner must consume (always
    /// the whole next word). Of the candidates within budget the cheapest
    /// wins, and among equally cheap ones the deepest.
    pub fn find_fuzzy_node(&self, word: &Vec<char>, start_node: usize, max_cost: usize) -> (r:
        Option<(usize, usize, usize)>)
        requires
            self.wf(),
            start_node < self.nodes@.len(),
        ensures
            match r {
                Some((node, cost, consumed)) => node < self.nodes@.len() && cost <= max_cost
                    && consumed == word@.len() && (word@.len() == 0 ==> cost >= 1) && (forall|
                    pth: Seq<char>,
                |
                    #![trigger walk(self.nodes@, start_node as int, pth, true)]
                    walk(self.nodes@, start_node as int, pth, true) is Some && pth.len() >= 1
                        && cap_usize(lev(word@, pth)) <= max_cost ==> cost <= cap_usize(
                        lev(word@, pth),
                    )) && exists|pr: Seq<char>|
                    #![all_triggers]
                    walk(self.nodes@, start_node as int, pr, true) == Some(node as int)
                        && pr.len() >= 1 && cost == cap_usize(lev(word@, pr)) && (forall|
                        pth: Seq<char>,
                    |
                        #![trigger walk(self.nodes@, start_node as int, pth, true)]
                        walk(self.nodes@, start_node as int, pth, true) is Some && pth.len() >= 1
                            && cap_usize(lev(word@, pth)) == cost ==> pth.len() <= pr.len()),
                None => forall|pth: Seq<char>|
                    #![trigger walk(self.nodes@, start_node as int, pth, true)]
                    walk(self.nodes@, start_node as int, pth, true) is Some && pth.len() >= 1
                        ==> cap_usize(lev(word@, pth)) > max_cost,
            },
    {
        let wl = word.len();
        let mut rows: Vec<usize> = Vec::new();
        let mut i: usize = 0;
        while i < wl
            invariant
                i <= wl,
                wl == word@.len(),
                rows@.len() == i,
                forall|k: int| 0 <= k < i ==> rows@[k] == k,
            decreases wl - i,
        {
            rows.push(i);
            i += 1;
        }
        rows.push(wl);
        proof {
            assert forall|i: int|
                0 <= i <= word@.len() implies #[trigger] rows@[i] == cap_usize(
                lev(word@.take(i), Seq::<char>::empty()),
            ) by {
                lemma_lev_against_empty(word@.take(i));
            }
            assert(row_is_lev(rows@, word@, Seq::<char>::empty()));
            assert(walk(self.nodes@, start_node as int, Seq::<char>::empty(), true) == Some(
                start_node as int,
            ));
        }
        let mut results: Vec<(usize, usize, usize, usize)> = Vec::new();
        self.levenshtein_node_rec(
            start_node,
            word,
            &rows,
            max_cost,
            0,
            &mut results,
            Ghost(start_node as int),
            Ghost(Seq::<char>::empty()),
        );
        proof {
            assert forall|pth: Seq<char>|
                #![trigger walk(self.nodes@, start_node as int, pth, true)]
                walk(self.nodes@, start_node as int, pth, true) is Some && pth.len() >= 1
                    && cap_usize(lev(word@, pth)) <= max_cost implies exists|mm: int|
                    0 <= mm < results@.len() && (#[trigger] results@[mm]).0 as int == walk(
                        self.nodes@,
                        start_node as int,
                        pth,
                        true,
                    )->0 && results@[mm].1 == cap_usize(lev(word@, pth)) && results@[mm].3
                        == pth.len() by {
                assert(Seq::<char>::empty() + pth =~= pth);
            }
        }
        let n = results.len();
        if n == 0 {
            proof {
                assert forall|pth: Seq<char>|
                    #![trigger walk(self.nodes@, start_node as int, pth, true)]
                    walk(self.nodes@, start_node as int, pth, true) is Some && pth.len() >= 1
                        implies cap_usize(lev(word@, pth)) > max_cost by {
                    if cap_usize(lev(word@, pth)) <= max_cost {
                        assert(false);
                    }
                }
            }
            return None;
        }
        let mut best: (usize, usize, usize, usize) = results[0];
        let mut m: usize = 1;
        while m < n
            invariant
                n == results@.len(),
                1 <= m <= n,
                results@.contains(best),
                forall|q: int|
                    0 <= q < m ==> best.1 < (#[trigger] results@[q]).1 || (best.1
                        == results@[q].1 && best.3 >= results@[q].3),
            decreases n - m,
        {
            let cand = results[m];
            if cand.1 < best.1 || (cand.1 == best.1 && cand.3 > best.3) {
                best = cand;
            }
            m += 1;
        }
        proof {
            let w = choose|w: int| 0 <= w < results@.len() && results@[w] == best;
            assert(fuzzy_candidate_ok(*self, word@, max_cost, start_node as int, results@[w]));
            let pr = choose|pth: Seq<char>|
                #![all_triggers]
                walk(self.nodes@, start_node as int, pth, true) == Some(best.0 as int)
                    && pth.len() == best.3 && best.1 == cap_usize(lev(word@, pth));
            assert forall|pth: Seq<char>|
                #![trigger walk(self.nodes@, start_node as int, pth, true)]
                walk(self.nodes@, start_node as int, pth, true) is Some && pth.len() >= 1
                    && cap_usize(lev(word@, pth)) <= max_cost implies best.1 <= cap_usize(
                lev(word@, pth),
            ) by {
                let mm = choose|mm: int|
                    0 <= mm < results@.len() && (#[trigger] results@[mm]).0 as int == walk(
                        self.nodes@,
                        start_node as int,
                        pth,
                        true,
                    )->0 && results@[mm].1 == cap_usize(lev(word@, pth)) && results@[mm].3
                        == pth.len();
                assert(best.1 <= results@[mm].1 || (best.1 == results@[mm].1 && best.3
                    >= results@[mm].3));
            }
            assert forall|pth: Seq<char>|
                #![trigger walk(self.nodes@, start_node as int, pth, true)]
                walk(self.nodes@, start_node as int, pth, true) is Some && pth.len() >= 1
                    && cap_usize(lev(word@, pth)) == best.1 implies pth.len() <= pr.len() by {
                let mm = choose|mm: int|
                    0 <= mm < results@.len() && (#[trigger] results@[mm]).0 as int == walk(
                        self.nodes@,
                        start_node as int,
                        pth,
                        true,
                    )->0 && results@[mm].1 == cap_usize(lev(word@, pth)) && results@[mm].3
                        == pth.len();
                assert(best.1 < results@[mm].1 || (best.1 == results@[mm].1 && best.3
                    >= results@[mm].3));
            }
        }
        Some((best.0, best.1, best.2))
    }
}

/// What holds of every candidate the bounded search reports: it names a
/// node some non-empty path reaches from the start node, and its cost is the
/// clipped edit distance between the word and that path.
pub open spec fn fuzzy_candidate_ok(
    kp: KeywordProcessor,
    word: Seq<char>,
    max_cost: usize,
    start: int,
    cand: (usize, usize, usize, usize),
) -> bool {
    &&& cand.0 < kp.nodes@.len()
    &&& cand.1 <= max_cost
    &&& cand.2 == word.len()
    &&& (word.len() == 0 ==> cand.1 >= 1)
    &&& exists|pth: Seq<char>|
        #![all_triggers]
        crate::trie::walk(kp.nodes@, start, pth, true) == Some(cand.0 as int) && pth.len()
            == cand.3 && cand.1 == cap_usize(lev(word, pth))
    &&& cand.3 >= 1
}

} // verus!
