use vstd::prelude::*;
use crate::childmap::lemma_entry_get;
use crate::fuzzy::{fuzzy_candidate_ok, row_is_lev, lev, cap_usize};
use crate::payload::Payload;
use crate::processor::KeywordProcessor;
use crate::text::chars_to_string;
use crate::trie::{walk, step, node_wf, lookup_in, lemma_walk_snoc};

verus! {

/// Some children entry of node `p` with index below `k` carries key `c`.
pub open spec fn entry_below(nodes: Seq<crate::trie::TrieNode>, p: int, k: int, c: char) -> bool {
    exists|k0: int| 0 <= k0 < k && (#[trigger] nodes[p].children@[k0]).0 == c
}

/// What holds of every enumerated entry: its text reaches a terminal node
/// whose payload it carries.
pub open spec fn entry_ok(kp: KeywordProcessor, e: (String, Payload)) -> bool {
    &&& lookup_in(kp.nodes@, e.0@, true) is Some
    &&& e.1.equiv(lookup_in(kp.nodes@, e.0@, true)->0)
}

impl KeywordProcessor {
    /// Every registered keyword with its payload, by a depth-first walk of
    /// the trie. Under the case-insensitive policy each keyword appears once
    /// per stored case form of its letters. Order is unspecified.
    pub fn get_all_keywords(&self) -> (r: Vec<(String, Payload)>)
        requires
            self.wf(),
        ensures
            forall|m: int| 0 <= m < r@.len() ==> entry_ok(*self, #[trigger] r@[m]),
            forall|t: int, s: Seq<char>|
                #![trigger walk(self.nodes@, 0, s, true), self.nodes@[t]]
                0 <= t < self.nodes@.len() && walk(self.nodes@, 0, s, true) == Some(t)
                    && self.nodes@[t].clean_name is Some ==> exists|m: int|
                    0 <= m < r@.len() && #[trigger] walk(self.nodes@, 0, r@[m].0@, true) == Some(
                        t,
                    ),
    {
        let mut out: Vec<(String, Payload)> = Vec::new();
        let mut prefix: Vec<char> = Vec::new();
        proof {
            assert(walk(self.nodes@, 0, prefix@, true) == Some(0int));
        }
        self.collect_keywords(0, &mut prefix, &mut out);
        out
    }

    fn collect_keywords(
        &self,
        node_idx: usize,
        prefix: &mut Vec<char>,
        out: &mut Vec<(String, Payload)>,
    )
        requires
            self.wf(),
            node_idx < self.nodes@.len(),
            walk(self.nodes@, 0, old(prefix)@, true) == Some(node_idx as int),
            forall|m: int|
                0 <= m < old(out)@.len() ==> entry_ok(*self, #[trigger] old(out)@[m]),
        ensures
            final(prefix)@ == old(prefix)@,
            final(out)@.len() >= old(out)@.len(),
            forall|m: int| 0 <= m < old(out)@.len() ==> #[trigger] final(out)@[m] == old(out)@[m],
            forall|m: int| 0 <= m < final(out)@.len() ==> entry_ok(*self, #[trigger] final(out)@[m]),
            forall|t: int, s2: Seq<char>|
                #![trigger walk(self.nodes@, node_idx as int, s2, true), self.nodes@[t]]
                0 <= t < self.nodes@.len() && walk(
                    self.nodes@,
                    node_idx as int,
                    s2,
                    true,
                ) == Some(t) && self.nodes@[t].clean_name is Some ==> exists|m: int|
                    0 <= m < final(out)@.len() && #[trigger] walk(
                        self.nodes@,
                        0,
                        final(out)@[m].0@,
                        true,
                    ) == Some(t),
        decreases self.nodes@.len() - node_idx,
    {
        let ghost own_entry = out@.len() as int;
        match &self.nodes[node_idx].clean_name {
            Some(p) => {
                let text = chars_to_string(prefix);
                let dup = p.duplicate();
                proof {
                    assert(lookup_in(self.nodes@, prefix@, true) == Some(*p));
                }
                out.push((text, dup));
            },
            None => {},
        }
        let ghost out_mid = out@;
        let n_children = self.nodes[node_idx].children.entries.len();
        let mut k: usize = 0;
        while k < n_children
            invariant
                self.wf(),
                node_idx < self.nodes@.len(),
                n_children == self.nodes@[node_idx as int].children@.len(),
                k <= n_children,
                prefix@ == old(prefix)@,
                walk(self.nodes@, 0, prefix@, true) == Some(node_idx as int),
                out@.len() >= out_mid.len(),
                out_mid.len() >= old(out)@.len(),
                forall|m: int| 0 <= m < out_mid.len() ==> #[trigger] out@[m] == out_mid[m],
                forall|m: int| 0 <= m < old(out)@.len() ==> #[trigger] out_mid[m] == old(out)@[m],
                self.nodes@[node_idx as int].clean_name is Some ==> out_mid.len() == old(
                    out,
                )@.len() + 1 && walk(self.nodes@, 0, out_mid[own_entry].0@, true) == Some(
                    node_idx as int,
                ),
                forall|m: int| 0 <= m < out@.len() ==> entry_ok(*self, #[trigger] out@[m]),
                forall|t: int, s2: Seq<char>|
                    #![trigger walk(self.nodes@, node_idx as int, s2, true), self.nodes@[t]]
                    0 <= t < self.nodes@.len() && s2.len() > 0 && walk(
                        self.nodes@,
                        node_idx as int,
                        s2,
                        true,
                    ) == Some(t) && self.nodes@[t].clean_name is Some && entry_below(
                        self.nodes@,
                        node_idx as int,
                        k as int,
                        s2[0],
                    ) ==> exists|m: int|
                        0 <= m < out@.len() && #[trigger] walk(
                            self.nodes@,
                            0,
                            out@[m].0@,
                            true,
                        ) == Some(t),
            decreases n_children - k,
        {
            let c = self.nodes[node_idx].children.entries[k].0;
            let child = self.nodes[node_idx].children.entries[k].1;
            proof {
                assert(node_wf(self.nodes@, node_idx as int));
                assert(node_idx < (self.nodes@[node_idx as int].children@[k as int]).1
                    < self.nodes@.len());
                lemma_entry_get(self.nodes@[node_idx as int].children@, k as int);
                assert(step(self.nodes@, node_idx as int, c, true) == Some(child));
                lemma_walk_snoc(self.nodes@, 0, prefix@, c, true);
            }
            let ghost before = prefix@;
            let ghost out_before = out@;
            prefix.push(c);
            proof {
                assert(prefix@ =~= before.push(c));
            }
            self.collect_keywords(child, prefix, out);
            prefix.pop();
            proof {
                assert(prefix@ =~= before);
                assert forall|t: int, s2: Seq<char>|
                    #![trigger walk(self.nodes@, node_idx as int, s2, true), self.nodes@[t]]
                    0 <= t < self.nodes@.len() && s2.len() > 0 && walk(
                        self.nodes@,
                        node_idx as int,
                        s2,
                        true,
                    ) == Some(t) && self.nodes@[t].clean_name is Some && entry_below(
                        self.nodes@,
                        node_idx as int,
                        k + 1,
                        s2[0],
                    ) implies exists|m: int|
                        0 <= m < out@.len() && #[trigger] walk(
                            self.nodes@,
                            0,
                            out@[m].0@,
                            true,
                        ) == Some(t) by {
                    if entry_below(self.nodes@, node_idx as int, k as int, s2[0]) {
                        let m0 = choose|m: int|
                            0 <= m < out_before.len() && #[trigger] walk(
                                self.nodes@,
                                0,
                                out_before[m].0@,
                                true,
                            ) == Some(t);
                        assert(out@[m0] == out_before[m0]);
                    } else {
                        // the entry for this first character is the one just
                        // explored
                        let k0 = choose|k0: int|
                            0 <= k0 < k + 1 && (#[trigger] self.nodes@[node_idx
                                as int].children@[k0]).0 == s2[0];
                        assert(k0 == k);
                        assert(crate::childmap::spec_get(
                            self.nodes@[node_idx as int].children@,
                            c,
                        ) == Some(child));
                        assert(step(self.nodes@, node_idx as int, s2[0], true) == Some(child));
                        assert(walk(self.nodes@, child as int, s2.drop_first(), true) == Some(t));
                    }
                }
            }
            k += 1;
        }
        proof {
            assert forall|t: int, s2: Seq<char>|
                #![trigger walk(self.nodes@, node_idx as int, s2, true), self.nodes@[t]]
                0 <= t < self.nodes@.len() && walk(
                    self.nodes@,
                    node_idx as int,
                    s2,
                    true,
                ) == Some(t) && self.nodes@[t].clean_name is Some implies exists|m: int|
                    0 <= m < out@.len() && #[trigger] walk(self.nodes@, 0, out@[m].0@, true)
                        == Some(t) by {
                if s2.len() == 0 {
                    assert(t == node_idx);
                    assert(walk(self.nodes@, 0, out@[own_entry].0@, true) == Some(t)) by {
                        assert(out@[own_entry] == out_mid[own_entry]);
                    }
                } else {
                    assert(step(self.nodes@, node_idx as int, s2[0], true) is Some);
                    assert(node_wf(self.nodes@, node_idx as int));
                    crate::trie::lemma_step_edge(self.nodes@, node_idx as int, s2[0], true);
                    let ke = choose|ke: int|
                        0 <= ke < self.nodes@[node_idx as int].children@.len() && (
                        #[trigger] self.nodes@[node_idx as int].children@[ke]).1 == step(
                            self.nodes@,
                            node_idx as int,
                            s2[0],
                            true,
                        )->0 && crate::chars::lower_char(
                            self.nodes@[node_idx as int].children@[ke].0,
                        ) == crate::chars::lower_char(s2[0]);
                    assert(entry_below(
                        self.nodes@,
                        node_idx as int,
                        n_children as int,
                        s2[0],
                    )) by {
                        crate::childmap::lemma_get_entry(
                            self.nodes@[node_idx as int].children@,
                            s2[0],
                        );
                    }
                }
            }
        }
    }

    /// Every terminal reachable from the root within the edit budget of
    /// `word`, as `(payload, cost, depth)` triples in trie-walk order.
    pub fn levensthein(&self, word: &str, max_cost: usize) -> (r: Vec<(Payload, usize, usize)>)
        requires
            self.wf(),
        ensures
            forall|m: int|
                0 <= m < r@.len() ==> (#[trigger] r@[m]).1 <= max_cost && exists|
                    pth: Seq<char>,
                    t: int,
                |
                    #![all_triggers]
                    0 <= t < self.nodes@.len() && walk(self.nodes@, 0, pth, true) == Some(t)
                        && self.nodes@[t].clean_name is Some && r@[m].0.equiv(
                        self.nodes@[t].clean_name->0,
                    ) && r@[m].1 == cap_usize(lev(word@, pth)) && r@[m].2 == pth.len(),
            forall|pth: Seq<char>|
                #![trigger walk(self.nodes@, 0, pth, true)]
                walk(self.nodes@, 0, pth, true) is Some && pth.len() >= 1 && 0 <= walk(
                    self.nodes@,
                    0,
                    pth,
                    true,
                )->0 < self.nodes@.len() && self.nodes@[walk(
                    self.nodes@,
                    0,
                    pth,
                    true,
                )->0].clean_name is Some && cap_usize(lev(word@, pth)) <= max_cost ==> exists|
                    e: int,
                |
                    0 <= e < r@.len() && (#[trigger] r@[e]).0.equiv(
                        self.nodes@[walk(self.nodes@, 0, pth, true)->0].clean_name->0,
                    ) && r@[e].1 == cap_usize(lev(word@, pth)) && r@[e].2 == pth.len(),
    {
        let chars = crate::text::str_chars(word);
        let wl = chars.len();
        let mut rows: Vec<usize> = Vec::new();
        let mut i: usize = 0;
        while i < wl
            invariant
                i <= wl,
                wl == chars@.len(),
                rows@.len() == i,
                forall|k: int| 0 <= k < i ==> rows@[k] == k,
            decreases wl - i,
        {
            rows.push(i);
            i += 1;
        }
        rows.push(wl);
        proof {
            assert forall|i2: int|
                0 <= i2 <= chars@.len() implies #[trigger] rows@[i2] == cap_usize(
                lev(chars@.take(i2), Seq::<char>::empty()),
            ) by {
                crate::fuzzy::lemma_lev_against_empty(chars@.take(i2));
            }
            assert(row_is_lev(rows@, chars@, Seq::<char>::empty()));
            assert(walk(self.nodes@, 0, Seq::<char>::empty(), true) == Some(0int));
        }
        let mut cands: Vec<(usize, usize, usize, usize)> = Vec::new();
        self.levenshtein_node_rec(
            0,
            &chars,
            &rows,
            max_cost,
            0,
            &mut cands,
            Ghost(0int),
            Ghost(Seq::<char>::empty()),
        );
        proof {
            assert forall|pth: Seq<char>|
                #![trigger walk(self.nodes@, 0, pth, true)]
                walk(self.nodes@, 0, pth, true) is Some && pth.len() >= 1 && cap_usize(
                    lev(chars@, pth),
                ) <= max_cost implies exists|mm: int|
                0 <= mm < cands@.len() && (#[trigger] cands@[mm]).0 as int == walk(
                    self.nodes@,
                    0,
                    pth,
                    true,
                )->0 && cands@[mm].1 == cap_usize(lev(chars@, pth)) && cands@[mm].3
                    == pth.len() by {
                assert(Seq::<char>::empty() + pth =~= pth);
            }
        }
        let mut out: Vec<(Payload, usize, usize)> = Vec::new();
        let nc = cands.len();
        let mut m: usize = 0;
        while m < nc
            invariant
                self.wf(),
                nc == cands@.len(),
                m <= nc,
                forall|q: int|
                    0 <= q < nc ==> fuzzy_candidate_ok(*self, chars@, max_cost, 0, #[trigger] cands@[q]),
                chars@ == word@,
                forall|pth: Seq<char>|
                    #![trigger walk(self.nodes@, 0, pth, true)]
                    walk(self.nodes@, 0, pth, true) is Some && pth.len() >= 1 && cap_usize(
                        lev(chars@, pth),
                    ) <= max_cost ==> exists|mm: int|
                        0 <= mm < cands@.len() && (#[trigger] cands@[mm]).0 as int == walk(
                            self.nodes@,
                            0,
                            pth,
                            true,
                        )->0 && cands@[mm].1 == cap_usize(lev(chars@, pth)) && cands@[mm].3
                            == pth.len(),
                forall|q: int|
                    0 <= q < m && self.nodes@[(#[trigger] cands@[q]).0 as int].clean_name is Some
                        ==> exists|e: int|
                        0 <= e < out@.len() && (#[trigger] out@[e]).0.equiv(
                            self.nodes@[cands@[q].0 as int].clean_name->0,
                        ) && out@[e].1 == cands@[q].1 && out@[e].2 == cands@[q].3,
                forall|q: int|
                    0 <= q < out@.len() ==> (#[trigger] out@[q]).1 <= max_cost && exists|
                        pth: Seq<char>,
                        t: int,
                    |
                        #![all_triggers]
                        0 <= t < self.nodes@.len() && walk(self.nodes@, 0, pth, true) == Some(t)
                            && self.nodes@[t].clean_name is Some && out@[q].0.equiv(
                            self.nodes@[t].clean_name->0,
                        ) && out@[q].1 == cap_usize(lev(word@, pth)) && out@[q].2 == pth.len(),
            decreases nc - m,
        {
            let cand = cands[m];
            match &self.nodes[cand.0].clean_name {
                Some(p) => {
                    let ghost pre = out@;
                    out.push((p.duplicate(), cand.1, cand.3));
                    proof {
                        assert(forall|q: int| 0 <= q < pre.len() ==> out@[q] == pre[q]);
                        let t0 = cand.0 as int;
                        assert(fuzzy_candidate_ok(*self, chars@, max_cost, 0, cand));
                        let pth0 = choose|pth: Seq<char>|
                            #![all_triggers]
                            walk(self.nodes@, 0, pth, true) == Some(cand.0 as int) && pth.len()
                                == cand.3 && cand.1 == cap_usize(lev(chars@, pth));
                        assert(self.nodes@[t0].clean_name is Some && out@[out@.len() - 1].0.equiv(
                            self.nodes@[t0].clean_name->0,
                        ));
                        assert forall|q: int|
                            0 <= q < out@.len() implies (#[trigger] out@[q]).1 <= max_cost
                            && exists|pth: Seq<char>, t: int|
                                #![all_triggers]
                                0 <= t < self.nodes@.len() && walk(self.nodes@, 0, pth, true)
                                    == Some(t) && self.nodes@[t].clean_name is Some && out@[
                                q].0.equiv(self.nodes@[t].clean_name->0) && out@[q].1 == cap_usize(
                                    lev(word@, pth),
                                ) && out@[q].2 == pth.len() by {
                            if q < pre.len() {
                                assert(out@[q] == pre[q]);
                            } else {
                                assert(0 <= t0 < self.nodes@.len() && walk(
                                    self.nodes@,
                                    0,
                                    pth0,
                                    true,
                                ) == Some(t0) && self.nodes@[t0].clean_name is Some && out@[
                                q].0.equiv(self.nodes@[t0].clean_name->0) && out@[q].1
                                    == cap_usize(lev(word@, pth0)) && out@[q].2 == pth0.len());
                            }
                        }
                        assert forall|q: int|
                            0 <= q < m + 1 && self.nodes@[(#[trigger] cands@[q]).0
                                as int].clean_name is Some implies exists|e: int|
                                0 <= e < out@.len() && (#[trigger] out@[e]).0.equiv(
                                    self.nodes@[cands@[q].0 as int].clean_name->0,
                                ) && out@[e].1 == cands@[q].1 && out@[e].2 == cands@[q].3 by {
                            if q < m {
                                let e0 = choose|e: int|
                                    0 <= e < pre.len() && (#[trigger] pre[e]).0.equiv(
                                        self.nodes@[cands@[q].0 as int].clean_name->0,
                                    ) && pre[e].1 == cands@[q].1 && pre[e].2 == cands@[q].3;
                                assert(out@[e0] == pre[e0]);
                            } else {
                                let e1 = out@.len() - 1;
                                assert(out@[e1].0.equiv(self.nodes@[cands@[q].0
                                    as int].clean_name->0) && out@[e1].1 == cands@[q].1
                                    && out@[e1].2 == cands@[q].3);
                            }
                        }
                    }
                },
                None => {},
            }
            m += 1;
        }
        proof {
            assert forall|pth: Seq<char>|
                #![trigger walk(self.nodes@, 0, pth, true)]
                walk(self.nodes@, 0, pth, true) is Some && pth.len() >= 1 && 0 <= walk(
                    self.nodes@,
                    0,
                    pth,
                    true,
                )->0 < self.nodes@.len() && self.nodes@[walk(
                    self.nodes@,
                    0,
                    pth,
                    true,
                )->0].clean_name is Some && cap_usize(lev(word@, pth)) <= max_cost implies exists|
                    e: int,
                |
                    0 <= e < out@.len() && (#[trigger] out@[e]).0.equiv(
                        self.nodes@[walk(self.nodes@, 0, pth, true)->0].clean_name->0,
                    ) && out@[e].1 == cap_usize(lev(word@, pth)) && out@[e].2 == pth.len() by {
                let mm = choose|mm: int|
                    0 <= mm < cands@.len() && (#[trigger] cands@[mm]).0 as int == walk(
                        self.nodes@,
                        0,
                        pth,
                        true,
                    )->0 && cands@[mm].1 == cap_usize(lev(chars@, pth)) && cands@[mm].3
                        == pth.len();
                assert(self.nodes@[cands@[mm].0 as int].clean_name is Some);
            }
        }
        out
    }

}

} // verus!
