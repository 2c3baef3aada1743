use vstd::prelude::*;
use crate::chars::{lower_char, upper_char, fold_seq, to_lower, to_upper};
use crate::childmap::spec_get;
use crate::payload::Payload;
use crate::trie::{
    TrieNode, arena_wf, edges_consistent, dual, lookup_in, count_terminals, walk, step, child_of,
    node_wf, linked_fresh, linked_existing, lemma_wf_link_fresh, lemma_lookup_link_fresh,
    lemma_walk_preserved_link_fresh, lemma_wf_link_existing, lemma_lookup_link_existing,
    lemma_walk_eq_link_existing, lemma_dual_link_fresh, lemma_dual_link_existing, lemma_step_bound,
    lemma_walk_snoc, lemma_walk_bounds, lemma_walk_same_children, lemma_walk_injective,
    lemma_wf_payload_update, lemma_count_update, pruned_at, lemma_wf_prune, lemma_lookup_prune,
    lemma_dual_prune, lemma_walk_split,
};

verus! {

/// The keyword registry: an arena-backed character trie with a case-folding
/// policy and a configurable set of word characters.
pub struct KeywordProcessor {
    pub nodes: Vec<TrieNode>,
    pub case_sensitive: bool,
    /// The characters that continue a word. The name follows the library's
    /// tradition: these are the characters that do *not* bound a word.
    pub non_word_boundaries: Vec<char>,
}

/// The case policy a call works under: its own override if given, else the
/// registry default.
pub open spec fn eff_cs(over: Option<bool>, default: bool) -> bool {
    match over {
        Some(b) => b,
        None => default,
    }
}

/// What an insert does, seen through lookups under the policy it ran with:
/// the keyword becomes registered; keywords of any other folded form keep
/// their payloads; the result tells whether the keyword was new; and the
/// size grows exactly when it was.
pub open spec fn insert_effect(
    pre: KeywordProcessor,
    post: KeywordProcessor,
    kw: Seq<char>,
    cs: bool,
    added: bool,
) -> bool {
    &&& post.lookup_spec(kw, cs) is Some
    &&& forall|s: Seq<char>|
        fold_seq(s) != fold_seq(kw) ==> post.lookup_spec(s, cs) == pre.lookup_spec(s, cs)
    &&& forall|s: Seq<char>|
        pre.lookup_spec(s, cs) is Some ==> #[trigger] post.lookup_spec(s, cs) is Some
    &&& added == (pre.lookup_spec(kw, cs) is None)
    &&& post.size_spec() == pre.size_spec() + (if added {
        1nat
    } else {
        0nat
    })
}

/// What a successful remove does, seen through lookups under the policy it
/// ran with: the keyword is gone, keywords of any other folded form keep
/// their payloads, and the size shrinks by one.
pub open spec fn remove_effect(
    pre: KeywordProcessor,
    post: KeywordProcessor,
    kw: Seq<char>,
    cs: bool,
) -> bool {
    &&& post.lookup_spec(kw, cs) is None
    &&& forall|s: Seq<char>|
        fold_seq(s) != fold_seq(kw) ==> post.lookup_spec(s, cs) == pre.lookup_spec(s, cs)
    &&& forall|s: Seq<char>|
        #[trigger] post.lookup_spec(s, cs) == pre.lookup_spec(s, cs) || post.lookup_spec(
            s,
            cs,
        ) is None
    &&& post.size_spec() + 1 == pre.size_spec()
}

impl KeywordProcessor {
    /// The structural invariant of the registry.
    pub open spec fn wf(self) -> bool {
        &&& arena_wf(self.nodes@)
        &&& edges_consistent(self.nodes@)
    }

    /// A trie whose inserts and removes were all case-insensitive keeps both
    /// case forms of every edge; several contracts are sharper under it.
    pub open spec fn is_dual(self) -> bool {
        dual(self.nodes@)
    }

    pub open spec fn lookup_spec(self, s: Seq<char>, cs: bool) -> Option<Payload> {
        lookup_in(self.nodes@, s, cs)
    }

    /// How many keywords are registered.
    pub open spec fn size_spec(self) -> nat {
        count_terminals(self.nodes@)
    }

    pub open spec fn is_word_char(self, c: char) -> bool {
        self.non_word_boundaries@.contains(c)
    }

    pub fn new(case_sensitive: bool) -> (r: KeywordProcessor)
        ensures
            r.wf(),
            r.is_dual(),
            r.case_sensitive == case_sensitive,
            r.size_spec() == 0,
            forall|s: Seq<char>, b: bool| r.lookup_spec(s, b) is None,
            forall|c: char| r.is_word_char(c) <==> crate::boundary::default_word_char(c),
    {
        let mut nodes: Vec<TrieNode> = Vec::new();
        nodes.push(TrieNode::new());
        let r = KeywordProcessor {
            nodes,
            case_sensitive,
            non_word_boundaries: crate::boundary::default_boundaries(),
        };
        proof {
            assert(r.nodes@.len() == 1);
            assert forall|i: int| 0 <= i < r.nodes@.len() implies node_wf(r.nodes@, i) by {
                assert(r.nodes@[i].children@.len() == 0);
            }
            assert forall|s: Seq<char>, b: bool| r.lookup_spec(s, b) is None by {
                lemma_empty_lookup(r.nodes@, s, b);
            }
            assert forall|i: int, c: char| 0 <= i < r.nodes@.len() implies #[trigger] child_of(
                r.nodes@,
                i,
                c,
            ) == child_of(r.nodes@, i, crate::chars::swap_char(c)) by {
                assert(r.nodes@[i].children@.len() == 0);
            }
            assert(count_terminals(r.nodes@) == 0) by {
                assert(r.nodes@.last().clean_name is None);
                assert(r.nodes@.drop_last() =~= Seq::<TrieNode>::empty());
                assert(count_terminals(Seq::<TrieNode>::empty()) == 0);
            }
        }
        r
    }

    /// Register `keyword`. The payload is `clean_name`, or the keyword itself
    /// when none is given; `case_sensitive` overrides the registry policy for
    /// this call. Returns whether the keyword was new — an update of the
    /// payload of a known keyword returns false.
    pub fn add_keyword(
        &mut self,
        keyword: &str,
        clean_name: Option<Payload>,
        case_sensitive: Option<bool>,
    ) -> (added: bool)
        requires
            old(self).wf(),
        ensures
            final(self).wf(),
            final(self).case_sensitive == old(self).case_sensitive,
            final(self).non_word_boundaries == old(self).non_word_boundaries,
            ({
                let cs = eff_cs(case_sensitive, old(self).case_sensitive);
                &&& insert_effect(*old(self), *final(self), keyword@, cs, added)
                &&& (match clean_name {
                    Some(q) => final(self).lookup_spec(keyword@, cs) == Some(q),
                    None => match final(self).lookup_spec(keyword@, cs)->0 {
                        Payload::Scalar(s) => s@ == keyword@,
                        Payload::Multi(_) => false,
                    },
                })
                &&& final(self).nodes@.len() >= old(self).nodes@.len()
                &&& (old(self).lookup_spec(keyword@, cs) is Some ==> final(self).nodes@.len()
                    == old(self).nodes@.len())
                &&& (!cs && old(self).is_dual() ==> final(self).is_dual())
            }),
    {
        let ghost pre = self.nodes@;
        let ghost cs_spec = eff_cs(case_sensitive, self.case_sensitive);
        let cs = match case_sensitive {
            Some(b) => b,
            None => self.case_sensitive,
        };
        let kw = crate::text::str_chars(keyword);
        let n_chars = kw.len();
        let mut cur: usize = 0;
        let mut i: usize = 0;
        proof {
            assert(kw@.take(0) =~= Seq::<char>::empty());
        }
        while i < n_chars
            invariant
                self.case_sensitive == old(self).case_sensitive,
                self.non_word_boundaries == old(self).non_word_boundaries,
                arena_wf(self.nodes@),
                edges_consistent(self.nodes@),
                kw@ == keyword@,
                n_chars == kw@.len(),
                i <= n_chars,
                cs == cs_spec,
                pre == old(self).nodes@,
                cur < self.nodes@.len(),
                walk(self.nodes@, 0, kw@.take(i as int), cs_spec) == Some(cur as int),
                forall|s: Seq<char>| #[trigger]
                    lookup_in(self.nodes@, s, cs_spec) == lookup_in(pre, s, cs_spec),
                count_terminals(self.nodes@) == count_terminals(pre),
                self.nodes@.len() >= pre.len(),
                lookup_in(pre, keyword@, cs_spec) is Some ==> self.nodes@.len() == pre.len()
                    && walk(self.nodes@, 0, kw@, cs_spec) is Some,
                !cs_spec && dual(pre) ==> dual(self.nodes@),
            decreases n_chars - i,
        {
            let c = kw[i];
            let ghost before = self.nodes@;
            if cs {
                match self.nodes[cur].children.get(c) {
                    Some(j) => {
                        proof {
                            assert(step(before, cur as int, c, cs_spec) == Some(j));
                            lemma_step_bound(before, cur as int, c, cs_spec);
                            lemma_walk_snoc(before, 0, kw@.take(i as int), c, cs_spec);
                            assert(kw@.take(i + 1) =~= kw@.take(i as int).push(c));
                        }
                        cur = j;
                    },
                    None => {
                        proof {
                            if lookup_in(pre, keyword@, cs_spec) is Some {
                                lemma_walk_split(before, 0, kw@, i as int, cs_spec);
                                assert(kw@.skip(i as int)[0] == kw@[i as int]);
                                assert(false);
                            }
                        }
                        let n = self.nodes.len();
                        self.nodes.push(TrieNode::new());
                        let n_now = self.nodes.len();
                        proof {
                            assert(self.nodes@[cur as int] == before[cur as int]);
                            assert(node_wf(before, cur as int));
                        }
                        self.nodes[cur].children.set(c, n);
                        proof {
                            let now = self.nodes@;
                            assert(before.len() < usize::MAX) by {
                                assert(n_now == now.len());
                            }
                            assert(linked_fresh(before, now, cur as int, c, c)) by {
                                assert(now[n as int].children@.len() == 0);
                                assert(forall|q: int|
                                    0 <= q < before.len() && q != cur ==> #[trigger] now[q]
                                        == before[q]);
                            }
                            lemma_wf_link_fresh(before, now, cur as int, c, c);
                            assert forall|s: Seq<char>| #[trigger]
                                lookup_in(now, s, cs_spec) == lookup_in(pre, s, cs_spec) by {
                                lemma_lookup_link_fresh(
                                    before,
                                    now,
                                    cur as int,
                                    c,
                                    c,
                                    cs_spec,
                                    0,
                                    s,
                                );
                                assert(lookup_in(now, s, cs_spec) == lookup_in(
                                    before,
                                    s,
                                    cs_spec,
                                ));
                                assert(lookup_in(before, s, cs_spec) == lookup_in(
                                    pre,
                                    s,
                                    cs_spec,
                                ));
                            }
                            lemma_walk_preserved_link_fresh(
                                before,
                                now,
                                cur as int,
                                c,
                                c,
                                cs_spec,
                                0,
                                kw@.take(i as int),
                            );
                            assert(spec_get(now[cur as int].children@, c) == Some(n));
                            assert(step(now, cur as int, c, cs_spec) == Some(n));
                            lemma_walk_snoc(now, 0, kw@.take(i as int), c, cs_spec);
                            assert(kw@.take(i + 1) =~= kw@.take(i as int).push(c));
                        }
                        cur = n;
                    },
                }
            } else {
                let cl = to_lower(c);
                let cu = to_upper(c);
                proof {
                    crate::chars::lemma_case_pair(c);
                }
                let found = match self.nodes[cur].children.get(cl) {
                    Some(j) => Some(j),
                    None => self.nodes[cur].children.get(cu),
                };
                match found {
                    Some(j) => {
                        proof {
                            assert(step(before, cur as int, c, false) == Some(j));
                            lemma_step_bound(before, cur as int, c, false);
                            assert(node_wf(before, cur as int));
                        }
                        self.nodes[cur].children.set(cl, j);
                        self.nodes[cur].children.set(cu, j);
                        proof {
                            let now = self.nodes@;
                            assert(linked_existing(before, now, cur as int, cl, cu, j)) by {
                                assert(forall|q: int|
                                    0 <= q < before.len() && q != cur ==> #[trigger] now[q]
                                        == before[q]);
                            }
                            lemma_wf_link_existing(before, now, cur as int, cl, cu, j);
                            assert forall|s: Seq<char>| #[trigger]
                                lookup_in(now, s, cs_spec) == lookup_in(pre, s, cs_spec) by {
                                lemma_lookup_link_existing(
                                    before,
                                    now,
                                    cur as int,
                                    cl,
                                    cu,
                                    j,
                                    0,
                                    s,
                                );
                                assert(lookup_in(now, s, cs_spec) == lookup_in(
                                    before,
                                    s,
                                    cs_spec,
                                ));
                                assert(lookup_in(before, s, cs_spec) == lookup_in(
                                    pre,
                                    s,
                                    cs_spec,
                                ));
                            }
                            lemma_walk_eq_link_existing(
                                before,
                                now,
                                cur as int,
                                cl,
                                cu,
                                j,
                                0,
                                kw@.take(i as int),
                            );
                            lemma_walk_eq_link_existing(
                                before,
                                now,
                                cur as int,
                                cl,
                                cu,
                                j,
                                0,
                                kw@,
                            );
                            if dual(pre) {
                                lemma_dual_link_existing(before, now, cur as int, cl, cu, j);
                            }
                            assert(spec_get(now[cur as int].children@, cl) == Some(j));
                            assert(step(now, cur as int, c, false) == Some(j));
                            lemma_walk_snoc(now, 0, kw@.take(i as int), c, false);
                            assert(kw@.take(i + 1) =~= kw@.take(i as int).push(c));
                        }
                        cur = j;
                    },
                    None => {
                        proof {
                            if lookup_in(pre, keyword@, cs_spec) is Some {
                                lemma_walk_split(before, 0, kw@, i as int, cs_spec);
                                assert(kw@.skip(i as int)[0] == kw@[i as int]);
                                assert(false);
                            }
                        }
                        let n = self.nodes.len();
                        self.nodes.push(TrieNode::new());
                        let n_now = self.nodes.len();
                        proof {
                            assert(self.nodes@[cur as int] == before[cur as int]);
                            assert(node_wf(before, cur as int));
                        }
                        self.nodes[cur].children.set(cl, n);
                        self.nodes[cur].children.set(cu, n);
                        proof {
                            let now = self.nodes@;
                            assert(before.len() < usize::MAX) by {
                                assert(n_now == now.len());
                            }
                            assert(linked_fresh(before, now, cur as int, cl, cu)) by {
                                assert(now[n as int].children@.len() == 0);
                                assert(forall|q: int|
                                    0 <= q < before.len() && q != cur ==> #[trigger] now[q]
                                        == before[q]);
                            }
                            lemma_wf_link_fresh(before, now, cur as int, cl, cu);
                            assert forall|s: Seq<char>| #[trigger]
                                lookup_in(now, s, cs_spec) == lookup_in(pre, s, cs_spec) by {
                                lemma_lookup_link_fresh(
                                    before,
                                    now,
                                    cur as int,
                                    cl,
                                    cu,
                                    cs_spec,
                                    0,
                                    s,
                                );
                                assert(lookup_in(now, s, cs_spec) == lookup_in(
                                    before,
                                    s,
                                    cs_spec,
                                ));
                                assert(lookup_in(before, s, cs_spec) == lookup_in(
                                    pre,
                                    s,
                                    cs_spec,
                                ));
                            }
                            lemma_walk_preserved_link_fresh(
                                before,
                                now,
                                cur as int,
                                cl,
                                cu,
                                cs_spec,
                                0,
                                kw@.take(i as int),
                            );
                            if dual(pre) {
                                lemma_dual_link_fresh(before, now, cur as int, cl, cu);
                            }
                            assert(spec_get(now[cur as int].children@, cl) == Some(n));
                            assert(step(now, cur as int, c, false) == Some(n));
                            lemma_walk_snoc(now, 0, kw@.take(i as int), c, false);
                            assert(kw@.take(i + 1) =~= kw@.take(i as int).push(c));
                        }
                        cur = n;
                    },
                }
            }
            i += 1;
        }
        proof {
            assert(kw@.take(n_chars as int) =~= kw@);
        }
        let ghost walked = self.nodes@;
        let added = self.nodes[cur].clean_name.is_none();
        let payload = match clean_name {
            Some(p) => p,
            None => Payload::Scalar(keyword.to_owned()),
        };
        self.nodes[cur].clean_name = Some(payload);
        proof {
            let now = self.nodes@;
            assert(forall|q: int|
                0 <= q < walked.len() && q != cur ==> #[trigger] now[q] == walked[q]);
            assert(now[cur as int].children == walked[cur as int].children);
            lemma_wf_payload_update(walked, now, cur as int);
            // every walk is unchanged by a payload write
            assert forall|s: Seq<char>, b: bool| #[trigger] walk(now, 0, s, b) == walk(
                walked,
                0,
                s,
                b,
            ) by {
                lemma_walk_same_children(walked, now, 0, s, b);
            }
            assert(walk(now, 0, keyword@, cs_spec) == Some(cur as int));
            assert(lookup_in(now, keyword@, cs_spec) == now[cur as int].clean_name);
            assert(added == (lookup_in(walked, keyword@, cs_spec) is None)) by {
                assert(lookup_in(walked, keyword@, cs_spec) == walked[cur as int].clean_name);
            }
            assert(added == (lookup_in(pre, keyword@, cs_spec) is None));
            assert forall|s: Seq<char>|
                fold_seq(s) != fold_seq(keyword@) implies #[trigger] lookup_in(now, s, cs_spec)
                == lookup_in(pre, s, cs_spec) by {
                match walk(walked, 0, s, cs_spec) {
                    Some(t) => {
                        if t == cur {
                            lemma_walk_injective(walked, s, cs_spec, keyword@, cs_spec);
                            assert(false);
                        } else {
                            assert(now[t].clean_name == walked[t].clean_name) by {
                                lemma_walk_bounds(walked, 0, s, cs_spec);
                            }
                            assert(lookup_in(now, s, cs_spec) == lookup_in(walked, s, cs_spec));
                        }
                    },
                    None => {
                        assert(lookup_in(now, s, cs_spec) is None);
                        assert(lookup_in(walked, s, cs_spec) is None);
                    },
                }
            }
            assert forall|s: Seq<char>|
                lookup_in(pre, s, cs_spec) is Some implies #[trigger] lookup_in(
                now,
                s,
                cs_spec,
            ) is Some by {
                assert(lookup_in(walked, s, cs_spec) == lookup_in(pre, s, cs_spec));
                match walk(walked, 0, s, cs_spec) {
                    Some(t) => {
                        if t != cur {
                            lemma_walk_bounds(walked, 0, s, cs_spec);
                            assert(now[t].clean_name == walked[t].clean_name);
                        }
                    },
                    None => {
                        assert(lookup_in(walked, s, cs_spec) is None);
                    },
                }
            }
            lemma_count_update(walked, cur as int, now);
        }
        added
    }
}

impl KeywordProcessor {
    /// Unregister `keyword`, following the registry's case policy. When the
    /// keyword was present its payload is cleared and nodes that became
    /// childless and non-terminal are pruned, walking toward the root.
    /// Returns whether anything was removed.
    ///
    /// The sharp lookup clauses hold for a case-sensitive registry, or for a
    /// case-insensitive one whose trie still has both case forms of every
    /// edge (`is_dual`, the normal state); after an insert with a
    /// case-sensitivity override the mixed trie can re-route a pruned edge
    /// through the other case form, exactly as the scanner then resolves it.
    pub fn remove_keyword(&mut self, keyword: &str) -> (removed: bool)
        requires
            old(self).wf(),
        ensures
            final(self).wf(),
            final(self).case_sensitive == old(self).case_sensitive,
            final(self).non_word_boundaries == old(self).non_word_boundaries,
            ({
                let cs = old(self).case_sensitive;
                &&& removed == (old(self).lookup_spec(keyword@, cs) is Some)
                &&& (!removed ==> *final(self) == *old(self))
                &&& (removed ==> final(self).size_spec() + 1 == old(self).size_spec())
                &&& final(self).nodes@.len() == old(self).nodes@.len()
                &&& (removed && (cs || old(self).is_dual()) ==> remove_effect(
                    *old(self),
                    *final(self),
                    keyword@,
                    cs,
                ))
                &&& (!cs && old(self).is_dual() ==> final(self).is_dual())
            }),
    {
        let ghost pre = self.nodes@;
        let cs = self.case_sensitive;
        let kw = crate::text::str_chars(keyword);
        let n_chars = kw.len();
        let mut path: Vec<(usize, char)> = Vec::new();
        let mut cur: usize = 0;
        let mut i: usize = 0;
        proof {
            assert(kw@.take(0) =~= Seq::<char>::empty());
        }
        while i < n_chars
            invariant
                *self == *old(self),
                pre == self.nodes@,
                arena_wf(pre),
                edges_consistent(pre),
                cs == old(self).case_sensitive,
                kw@ == keyword@,
                n_chars == kw@.len(),
                i <= n_chars,
                path@.len() == i,
                cur < pre.len(),
                walk(pre, 0, kw@.take(i as int), cs) == Some(cur as int),
                forall|m: int|
                    0 <= m < i ==> (#[trigger] path@[m]).1 == kw@[m] && walk(
                        pre,
                        0,
                        kw@.take(m),
                        cs,
                    ) == Some(path@[m].0 as int) && path@[m].0 < pre.len(),
                forall|m1: int, m2: int|
                    0 <= m1 < m2 < i ==> (#[trigger] path@[m1]).0 < (#[trigger] path@[m2]).0,
                forall|m: int| 0 <= m < i ==> (#[trigger] path@[m]).0 < cur,
            decreases n_chars - i,
        {
            let c = kw[i];
            let next = if cs {
                self.nodes[cur].children.get(c)
            } else {
                let cl = to_lower(c);
                let cu = to_upper(c);
                match self.nodes[cur].children.get(cl) {
                    Some(j) => Some(j),
                    None => self.nodes[cur].children.get(cu),
                }
            };
            match next {
                Some(j) => {
                    proof {
                        assert(step(pre, cur as int, c, cs) == Some(j));
                        lemma_step_bound(pre, cur as int, c, cs);
                        lemma_walk_snoc(pre, 0, kw@.take(i as int), c, cs);
                        assert(kw@.take(i + 1) =~= kw@.take(i as int).push(c));
                    }
                    path.push((cur, c));
                    cur = j;
                },
                None => {
                    proof {
                        assert(step(pre, cur as int, c, cs) is None);
                        lemma_walk_split(pre, 0, kw@, i as int, cs);
                        assert(kw@.skip(i as int)[0] == kw@[i as int]);
                        assert(walk(pre, cur as int, kw@.skip(i as int), cs) is None);
                        assert(lookup_in(pre, keyword@, cs) is None);
                    }
                    return false;
                },
            }
            i += 1;
        }
        proof {
            assert(kw@.take(n_chars as int) =~= kw@);
            assert(lookup_in(pre, keyword@, cs) == pre[cur as int].clean_name);
        }
        if self.nodes[cur].clean_name.is_none() {
            return false;
        }
        // Clear the payload of the terminal node.
        let ghost walked = self.nodes@;
        self.nodes[cur].clean_name = None;
        let ghost cleared = self.nodes@;
        proof {
            assert(forall|q: int|
                0 <= q < walked.len() && q != cur ==> #[trigger] cleared[q] == walked[q]);
            assert(cleared[cur as int].children == walked[cur as int].children);
            lemma_wf_payload_update(walked, cleared, cur as int);
            assert forall|s: Seq<char>, b: bool| #[trigger] walk(cleared, 0, s, b) == walk(
                walked,
                0,
                s,
                b,
            ) by {
                lemma_walk_same_children(walked, cleared, 0, s, b);
            }
            assert(lookup_in(cleared, keyword@, cs) is None);
            assert forall|s: Seq<char>|
                fold_seq(s) != fold_seq(keyword@) implies #[trigger] lookup_in(cleared, s, cs)
                == lookup_in(walked, s, cs) by {
                match walk(walked, 0, s, cs) {
                    Some(t) => {
                        if t == cur {
                            lemma_walk_injective(walked, s, cs, keyword@, cs);
                            assert(false);
                        } else {
                            lemma_walk_bounds(walked, 0, s, cs);
                        }
                    },
                    None => {},
                }
            }
            lemma_count_update(walked, cur as int, cleared);
        }
        // Prune childless non-terminal nodes toward the root.
        let mut child: usize = cur;
        let mut k: usize = path.len();
        while k > 0
            invariant
                self.case_sensitive == old(self).case_sensitive,
                self.non_word_boundaries == old(self).non_word_boundaries,
                arena_wf(self.nodes@),
                edges_consistent(self.nodes@),
                self.nodes@.len() == cleared.len(),
                cs == old(self).case_sensitive,
                kw@ == keyword@,
                n_chars == kw@.len(),
                path@.len() == n_chars,
                k <= n_chars,
                arena_wf(cleared),
                cur < cleared.len(),
                forall|m: int|
                    0 <= m < n_chars ==> (#[trigger] path@[m]).1 == kw@[m] && walk(
                        cleared,
                        0,
                        kw@.take(m),
                        cs,
                    ) == Some(path@[m].0 as int) && path@[m].0 < cleared.len(),
                forall|m1: int, m2: int|
                    0 <= m1 < m2 < n_chars ==> (#[trigger] path@[m1]).0 < (
                    #[trigger] path@[m2]).0,
                forall|m: int| 0 <= m < n_chars ==> (#[trigger] path@[m]).0 < cur,
                walk(cleared, 0, kw@, cs) == Some(cur as int),
                child as int == (if k == n_chars {
                    cur as int
                } else {
                    path@[k as int].0 as int
                }),
                child < cleared.len(),
                forall|m: int|
                    0 <= m < k ==> self.nodes@[(#[trigger] path@[m]).0 as int] == cleared[path@[m].0 as int],
                k == n_chars ==> self.nodes@ == cleared,
                count_terminals(self.nodes@) == count_terminals(cleared),
                cs ==> forall|s: Seq<char>| #[trigger]
                    lookup_in(self.nodes@, s, cs) == lookup_in(cleared, s, cs),
                !cs && dual(cleared) ==> (dual(self.nodes@) && forall|s: Seq<char>| #[trigger]
                    lookup_in(self.nodes@, s, cs) == lookup_in(cleared, s, cs)),
            decreases k,
        {
            let dead = self.nodes[child].children.is_empty() && self.nodes[child].clean_name.is_none();
            if !dead {
                break ;
            }
            k -= 1;
            let pc = path[k];
            let p = pc.0;
            let c = pc.1;
            let ghost before = self.nodes@;
            proof {
                // The parent still carries its original children map, and its
                // edge for this character still reaches `child`.
                assert(before[p as int] == cleared[p as int]);
                lemma_walk_snoc(cleared, 0, kw@.take(k as int), kw@[k as int], cs);
                assert(kw@.take(k + 1) =~= kw@.take(k as int).push(kw@[k as int]));
                assert(walk(cleared, 0, kw@.take(k + 1), cs) == Some(child as int)) by {
                    if k + 1 == n_chars {
                        assert(kw@.take(n_chars as int) =~= kw@);
                    }
                }
                assert(step(cleared, p as int, c, cs) == Some(child as usize));
                assert(node_wf(before, p as int));
            }
            if cs {
                self.nodes[p].children.unset(c);
                proof {
                    let now = self.nodes@;
                    assert(spec_get(before[p as int].children@, c) == Some(child as usize));
                    assert(pruned_at(before, now, p as int, child)) by {
                        assert(forall|q: int|
                            0 <= q < before.len() && q != p ==> #[trigger] now[q] == before[q]);
                    }
                    lemma_wf_prune(before, now, p as int, child);
                    assert forall|s: Seq<char>| #[trigger] lookup_in(now, s, cs) == lookup_in(
                        cleared,
                        s,
                        cs,
                    ) by {
                        lemma_lookup_prune(before, now, p as int, child, cs, 0, s);
                        assert(lookup_in(before, s, cs) == lookup_in(cleared, s, cs));
                    }
                }
            } else {
                let cl = to_lower(c);
                let cu = to_upper(c);
                match self.nodes[p].children.get(cl) {
                    Some(x) => {
                        if x == child {
                            self.nodes[p].children.unset(cl);
                        }
                    },
                    None => {},
                }
                match self.nodes[p].children.get(cu) {
                    Some(x) => {
                        if x == child {
                            self.nodes[p].children.unset(cu);
                        }
                    },
                    None => {},
                }
                proof {
                    let now = self.nodes@;
                    crate::chars::lemma_case_pair(c);
                    assert(pruned_at(before, now, p as int, child)) by {
                        assert(forall|q: int|
                            0 <= q < before.len() && q != p ==> #[trigger] now[q] == before[q]);
                    }
                    lemma_wf_prune(before, now, p as int, child);
                    if dual(cleared) {
                        assert(dual(before));
                        assert forall|d: char|
                            #[trigger] spec_get(now[p as int].children@, d) != spec_get(
                                before[p as int].children@,
                                d,
                            ) implies spec_get(
                            before[p as int].children@,
                            crate::chars::swap_char(d),
                        ) == Some(child as usize) && spec_get(
                            now[p as int].children@,
                            crate::chars::swap_char(d),
                        ) is None by {
                            assert(d == cl || d == cu);
                            crate::chars::lemma_case_pair(cl);
                            crate::chars::lemma_case_pair(cu);
                            assert(child_of(before, p as int, d) == child_of(
                                before,
                                p as int,
                                crate::chars::swap_char(d),
                            ));
                        }
                        assert forall|s: Seq<char>| #[trigger] lookup_in(now, s, cs)
                            == lookup_in(cleared, s, cs) by {
                            lemma_lookup_prune(before, now, p as int, child, cs, 0, s);
                            assert(lookup_in(before, s, cs) == lookup_in(cleared, s, cs));
                        }
                        lemma_dual_prune(before, now, p as int, child);
                    }
                }
            }
            child = p;
        }
        proof {
            let now = self.nodes@;
            assert(walked == pre);
            if cs || dual(pre) {
                assert forall|s: Seq<char>|
                    fold_seq(s) != fold_seq(keyword@) implies #[trigger] lookup_in(now, s, cs)
                    == lookup_in(pre, s, cs) by {
                    assert(lookup_in(now, s, cs) == lookup_in(cleared, s, cs));
                    assert(lookup_in(cleared, s, cs) == lookup_in(walked, s, cs));
                }
                assert(lookup_in(now, keyword@, cs) is None) by {
                    assert(lookup_in(now, keyword@, cs) == lookup_in(cleared, keyword@, cs));
                }
                assert forall|s: Seq<char>|
                    #[trigger] lookup_in(now, s, cs) == lookup_in(pre, s, cs) || lookup_in(
                        now,
                        s,
                        cs,
                    ) is None by {
                    assert(lookup_in(now, s, cs) == lookup_in(cleared, s, cs));
                    match walk(walked, 0, s, cs) {
                        Some(t) => {
                            if t == cur {
                                assert(lookup_in(cleared, s, cs) is None);
                            } else {
                                lemma_walk_bounds(walked, 0, s, cs);
                            }
                        },
                        None => {},
                    }
                }
            }
        }
        true
    }
}

impl KeywordProcessor {
    /// The payload registered under `word`, following the registry's case
    /// policy.
    pub fn get_keyword(&self, word: &str) -> (r: Option<Payload>)
        requires
            self.wf(),
        ensures
            match r {
                Some(p) => self.lookup_spec(word@, self.case_sensitive) is Some && p.equiv(
                    self.lookup_spec(word@, self.case_sensitive)->0,
                ),
                None => self.lookup_spec(word@, self.case_sensitive) is None,
            },
    {
        let cs = self.case_sensitive;
        let kw = crate::text::str_chars(word);
        let n_chars = kw.len();
        let mut cur: usize = 0;
        let mut i: usize = 0;
        proof {
            assert(kw@.take(0) =~= Seq::<char>::empty());
        }
        while i < n_chars
            invariant
                self.wf(),
                cs == self.case_sensitive,
                kw@ == word@,
                n_chars == kw@.len(),
                i <= n_chars,
                cur < self.nodes@.len(),
                walk(self.nodes@, 0, kw@.take(i as int), cs) == Some(cur as int),
            decreases n_chars - i,
        {
            let c = kw[i];
            let next = if cs {
                self.nodes[cur].children.get(c)
            } else {
                let cl = to_lower(c);
                let cu = to_upper(c);
                match self.nodes[cur].children.get(cl) {
                    Some(j) => Some(j),
                    None => self.nodes[cur].children.get(cu),
                }
            };
            match next {
                Some(j) => {
                    proof {
                        assert(step(self.nodes@, cur as int, c, cs) == Some(j));
                        lemma_step_bound(self.nodes@, cur as int, c, cs);
                        lemma_walk_snoc(self.nodes@, 0, kw@.take(i as int), c, cs);
                        assert(kw@.take(i + 1) =~= kw@.take(i as int).push(c));
                    }
                    cur = j;
                },
                None => {
                    proof {
                        assert(step(self.nodes@, cur as int, c, cs) is None);
                        lemma_walk_split(self.nodes@, 0, kw@, i as int, cs);
                        assert(kw@.skip(i as int)[0] == kw@[i as int]);
                    }
                    return None;
                },
            }
            i += 1;
        }
        proof {
            assert(kw@.take(n_chars as int) =~= kw@);
        }
        match &self.nodes[cur].clean_name {
            Some(p) => Some(p.duplicate()),
            None => None,
        }
    }

    /// Whether `word` is a registered keyword.
    pub fn contains(&self, word: &str) -> (r: bool)
        requires
            self.wf(),
        ensures
            r == (self.lookup_spec(word@, self.case_sensitive) is Some),
    {
        self.get_keyword(word).is_some()
    }

    /// The payload registered under `word`, or a key error naming it.
    pub fn get_item(&self, word: &str) -> (r: Result<Payload, crate::errors::KpError>)
        requires
            self.wf(),
        ensures
            match r {
                Ok(p) => self.lookup_spec(word@, self.case_sensitive) is Some && p.equiv(
                    self.lookup_spec(word@, self.case_sensitive)->0,
                ),
                Err(e) => self.lookup_spec(word@, self.case_sensitive) is None && (match e {
                    crate::errors::KpError::KeyNotFound(k) => k@ == word@,
                }),
            },
    {
        match self.get_keyword(word) {
            Some(p) => Ok(p),
            None => Err(crate::errors::KpError::KeyNotFound(word.to_owned())),
        }
    }

    /// Register `word` with the given payload, under the registry's policy.
    pub fn set_item(&mut self, word: &str, clean_name: Payload)
        requires
            old(self).wf(),
        ensures
            final(self).wf(),
            final(self).case_sensitive == old(self).case_sensitive,
            final(self).non_word_boundaries == old(self).non_word_boundaries,
            final(self).lookup_spec(word@, old(self).case_sensitive) == Some(clean_name),
            forall|s: Seq<char>|
                fold_seq(s) != fold_seq(word@) ==> final(self).lookup_spec(
                    s,
                    old(self).case_sensitive,
                ) == old(self).lookup_spec(s, old(self).case_sensitive),
            !old(self).case_sensitive && old(self).is_dual() ==> final(self).is_dual(),
    {
        self.add_keyword(word, Some(clean_name), None);
    }

    /// Unregister `word`; a missing keyword is a key error naming it.
    pub fn del_item(&mut self, word: &str) -> (r: Result<(), crate::errors::KpError>)
        requires
            old(self).wf(),
        ensures
            final(self).wf(),
            final(self).case_sensitive == old(self).case_sensitive,
            final(self).non_word_boundaries == old(self).non_word_boundaries,
            match r {
                Ok(()) => old(self).lookup_spec(word@, old(self).case_sensitive) is Some,
                Err(e) => old(self).lookup_spec(word@, old(self).case_sensitive) is None
                    && *final(self) == *old(self) && (match e {
                    crate::errors::KpError::KeyNotFound(k) => k@ == word@,
                }),
            },
            ({
                let cs = old(self).case_sensitive;
                r is Ok && (cs || old(self).is_dual()) ==> remove_effect(
                    *old(self),
                    *final(self),
                    word@,
                    cs,
                )
            }),
    {
        if self.remove_keyword(word) {
            Ok(())
        } else {
            Err(crate::errors::KpError::KeyNotFound(word.to_owned()))
        }
    }

    /// How many keywords are registered.
    pub fn len(&self) -> (r: usize)
        ensures
            r == self.size_spec(),
    {
        let n = self.nodes.len();
        let mut cnt: usize = 0;
        let mut i: usize = 0;
        proof {
            assert(self.nodes@.take(0) =~= Seq::<TrieNode>::empty());
        }
        while i < n
            invariant
                n == self.nodes@.len(),
                i <= n,
                cnt <= i,
                cnt == count_terminals(self.nodes@.take(i as int)),
            decreases n - i,
        {
            proof {
                assert(self.nodes@.take(i + 1).drop_last() =~= self.nodes@.take(i as int));
                assert(self.nodes@.take(i + 1).last() == self.nodes@[i as int]);
            }
            if self.nodes[i].clean_name.is_some() {
                cnt += 1;
            }
            i += 1;
        }
        proof {
            assert(self.nodes@.take(n as int) =~= self.nodes@);
        }
        cnt
    }

    /// Register every keyword of the list, each as its own clean name. A
    /// keyword whose folded form recurs later in the list ends with the later
    /// entry's payload; every other keyword carries itself.
    pub fn add_keywords_from_list(&mut self, keywords: &Vec<String>)
        requires
            old(self).wf(),
        ensures
            final(self).wf(),
            final(self).case_sensitive == old(self).case_sensitive,
            final(self).non_word_boundaries == old(self).non_word_boundaries,
            forall|m: int|
                0 <= m < keywords@.len() ==> final(self).lookup_spec(
                    (#[trigger] keywords@[m])@,
                    old(self).case_sensitive,
                ) is Some,
            forall|m: int|
                0 <= m < keywords@.len() && (forall|m2: int|
                    m < m2 < keywords@.len() ==> fold_seq((#[trigger] keywords@[m2])@) != fold_seq(
                        keywords@[m]@,
                    )) ==> match final(self).lookup_spec(
                    (#[trigger] keywords@[m])@,
                    old(self).case_sensitive,
                ) {
                    Some(p) => match p {
                        Payload::Scalar(s) => s@ == keywords@[m]@,
                        Payload::Multi(_) => false,
                    },
                    None => false,
                },
            !old(self).case_sensitive && old(self).is_dual() ==> final(self).is_dual(),
    {
        let n = keywords.len();
        let mut i: usize = 0;
        while i < n
            invariant
                self.wf(),
                n == keywords@.len(),
                i <= n,
                self.case_sensitive == old(self).case_sensitive,
                self.non_word_boundaries == old(self).non_word_boundaries,
                forall|m: int|
                    0 <= m < i ==> self.lookup_spec(
                        (#[trigger] keywords@[m])@,
                        old(self).case_sensitive,
                    ) is Some,
                forall|m: int|
                    0 <= m < i && (forall|m2: int|
                        m < m2 < i ==> fold_seq((#[trigger] keywords@[m2])@) != fold_seq(
                            keywords@[m]@,
                        )) ==> match self.lookup_spec(
                        (#[trigger] keywords@[m])@,
                        old(self).case_sensitive,
                    ) {
                        Some(p) => match p {
                            Payload::Scalar(s) => s@ == keywords@[m]@,
                            Payload::Multi(_) => false,
                        },
                        None => false,
                    },
                !old(self).case_sensitive && old(self).is_dual() ==> self.is_dual(),
            decreases n - i,
        {
            self.add_keyword(keywords[i].as_str(), None, None);
            i += 1;
        }
    }

    /// Unregister every keyword of the list, under the registry's policy.
    pub fn remove_keywords_from_list(&mut self, keywords: &Vec<String>)
        requires
            old(self).wf(),
        ensures
            final(self).wf(),
            final(self).case_sensitive == old(self).case_sensitive,
            final(self).non_word_boundaries == old(self).non_word_boundaries,
            !old(self).case_sensitive && old(self).is_dual() ==> final(self).is_dual(),
            old(self).case_sensitive || old(self).is_dual() ==> forall|m: int|
                0 <= m < keywords@.len() ==> final(self).lookup_spec(
                    (#[trigger] keywords@[m])@,
                    old(self).case_sensitive,
                ) is None,
    {
        let n = keywords.len();
        let mut i: usize = 0;
        while i < n
            invariant
                self.wf(),
                n == keywords@.len(),
                i <= n,
                self.case_sensitive == old(self).case_sensitive,
                self.non_word_boundaries == old(self).non_word_boundaries,
                !old(self).case_sensitive && old(self).is_dual() ==> self.is_dual(),
                old(self).case_sensitive || old(self).is_dual() ==> forall|m: int|
                    0 <= m < i ==> self.lookup_spec(
                        (#[trigger] keywords@[m])@,
                        old(self).case_sensitive,
                    ) is None,
            decreases n - i,
        {
            self.remove_keyword(keywords[i].as_str());
            i += 1;
        }
    }
}

impl KeywordProcessor {
    /// Replace the boundary set: these characters now count as word
    /// characters.
    pub fn set_non_word_boundaries(&mut self, boundaries: Vec<char>)
        ensures
            final(self).nodes == old(self).nodes,
            final(self).case_sensitive == old(self).case_sensitive,
            final(self).non_word_boundaries@ == boundaries@,
    {
        self.non_word_boundaries = boundaries;
    }

    /// Replace the boundary set with the characters of a string.
    pub fn set_non_word_boundaries_str(&mut self, boundaries: &str)
        ensures
            final(self).nodes == old(self).nodes,
            final(self).case_sensitive == old(self).case_sensitive,
            final(self).non_word_boundaries@ == boundaries@,
    {
        self.non_word_boundaries = crate::text::str_chars(boundaries);
    }

    /// A copy of the current boundary set.
    pub fn get_non_word_boundaries(&self) -> (r: Vec<char>)
        ensures
            r@ == self.non_word_boundaries@,
    {
        let n = self.non_word_boundaries.len();
        let mut out: Vec<char> = Vec::new();
        let mut i: usize = 0;
        while i < n
            invariant
                n == self.non_word_boundaries@.len(),
                i <= n,
                out@ == self.non_word_boundaries@.take(i as int),
            decreases n - i,
        {
            out.push(self.non_word_boundaries[i]);
            proof {
                assert(out@ =~= self.non_word_boundaries@.take(i + 1));
            }
            i += 1;
        }
        proof {
            assert(self.non_word_boundaries@.take(n as int) =~= self.non_word_boundaries@);
        }
        out
    }
}

/// In a one-node arena nothing can be found.
proof fn lemma_empty_lookup(nodes: Seq<TrieNode>, s: Seq<char>, b: bool)
    requires
        nodes.len() == 1,
        nodes[0].children@.len() == 0,
        nodes[0].clean_name is None,
    ensures
        lookup_in(nodes, s, b) is None,
{
    if s.len() > 0 {
        assert(spec_get(nodes[0].children@, s[0]) is None);
        assert(spec_get(nodes[0].children@, lower_char(s[0])) is None);
        assert(spec_get(nodes[0].children@, upper_char(s[0])) is None);
        assert(step(nodes, 0, s[0], b) is None);
    }
}

} // verus!
