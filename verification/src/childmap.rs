use vstd::prelude::*;

verus! {

/// The children of one trie node: a small association list from character to
/// child handle, with pairwise distinct keys.
pub struct ChildMap {
    pub entries: Vec<(char, usize)>,
}

/// The handle stored under key `c`, scanning entries from the front.
pub open spec fn spec_get(s: Seq<(char, usize)>, c: char) -> Option<usize>
    decreases s.len(),
{
    if s.len() == 0 {
        None
    } else if s[0].0 == c {
        Some(s[0].1)
    } else {
        spec_get(s.drop_first(), c)
    }
}

pub open spec fn unique_keys(s: Seq<(char, usize)>) -> bool {
    forall|i: int, j: int| 0 <= i < j < s.len() ==> s[i].0 != s[j].0
}

proof fn lemma_get_skip_step(s: Seq<(char, usize)>, i: int, c: char)
    requires
        0 <= i < s.len(),
        s[i].0 != c,
    ensures
        spec_get(s.skip(i), c) == spec_get(s.skip(i + 1), c),
{
    assert(s.skip(i)[0] == s[i]);
    assert(s.skip(i).drop_first() =~= s.skip(i + 1));
}

/// A key that occurs nowhere among the entries is not found.
pub proof fn lemma_get_none(s: Seq<(char, usize)>, c: char)
    requires
        forall|i: int| 0 <= i < s.len() ==> s[i].0 != c,
    ensures
        spec_get(s, c) is None,
    decreases s.len(),
{
    if s.len() > 0 {
        lemma_get_none(s.drop_first(), c);
    }
}

/// A found handle always comes from some entry.
pub proof fn lemma_get_entry(s: Seq<(char, usize)>, c: char)
    requires
        spec_get(s, c) is Some,
    ensures
        exists|i: int| 0 <= i < s.len() && s[i] == (c, spec_get(s, c)->0),
    decreases s.len(),
{
    if s.len() > 0 && s[0].0 != c {
        lemma_get_entry(s.drop_first(), c);
        let i = choose|i: int|
            0 <= i < s.drop_first().len() && s.drop_first()[i] == (
            c,
            spec_get(s.drop_first(), c)->0,
            );
        assert(s[i + 1] == (c, spec_get(s, c)->0));
    }
}

/// With distinct keys, each entry is exactly what a search for its key finds.
pub proof fn lemma_entry_get(s: Seq<(char, usize)>, i: int)
    requires
        unique_keys(s),
        0 <= i < s.len(),
    ensures
        spec_get(s, s[i].0) == Some(s[i].1),
    decreases i,
{
    if i > 0 {
        lemma_entry_get(s.drop_first(), i - 1);
        assert(s.drop_first()[i - 1] == s[i]);
    }
}

proof fn lemma_get_update(s: Seq<(char, usize)>, i: int, c: char, v: usize, d: char)
    requires
        unique_keys(s),
        0 <= i < s.len(),
        s[i].0 == c,
    ensures
        spec_get(s.update(i, (c, v)), d) == if d == c {
            Some(v)
        } else {
            spec_get(s, d)
        },
    decreases i,
{
    let s2 = s.update(i, (c, v));
    if i == 0 {
        if d != c {
            assert(s2.drop_first() =~= s.drop_first());
        }
    } else {
        assert(s2[0] == s[0]);
        assert(s[0].0 != c);
        if s[0].0 == d {
        } else {
            assert(s2.drop_first() =~= s.drop_first().update(i - 1, (c, v)));
            assert(s.drop_first()[i - 1].0 == c);
            lemma_get_update(s.drop_first(), i - 1, c, v, d);
        }
    }
}

proof fn lemma_get_push(s: Seq<(char, usize)>, c: char, v: usize, d: char)
    requires
        spec_get(s, c) is None,
    ensures
        spec_get(s.push((c, v)), d) == if d == c {
            Some(v)
        } else {
            spec_get(s, d)
        },
    decreases s.len(),
{
    let s2 = s.push((c, v));
    assert(s2.len() == s.len() + 1);
    if s.len() == 0 {
        assert(s2[0] == (c, v));
        if d == c {
            assert(spec_get(s2, d) == Some(v));
        } else {
            assert(s2.drop_first() =~= Seq::<(char, usize)>::empty());
            assert(spec_get(s2, d) is None);
            assert(spec_get(s, d) is None);
        }
    } else {
        assert(s2[0] == s[0]);
        if s[0].0 == c {
            assert(spec_get(s, c) == Some(s[0].1));
            assert(false);
        }
        if s[0].0 == d {
            assert(spec_get(s2, d) == Some(s[0].1));
            assert(spec_get(s, d) == Some(s[0].1));
        } else {
            assert(s2.drop_first() =~= s.drop_first().push((c, v)));
            lemma_get_push(s.drop_first(), c, v, d);
            assert(spec_get(s2, d) == spec_get(s2.drop_first(), d));
            assert(spec_get(s, d) == spec_get(s.drop_first(), d));
        }
    }
}

impl ChildMap {
    pub open spec fn view(self) -> Seq<(char, usize)> {
        self.entries@
    }

    pub open spec fn wf(self) -> bool {
        unique_keys(self.entries@)
    }

    pub fn new() -> (r: ChildMap)
        ensures
            r.wf(),
            r@.len() == 0,
            forall|d: char| spec_get(r@, d) is None,
    {
        let r = ChildMap { entries: Vec::new() };
        proof {
            assert forall|d: char| spec_get(r@, d) is None by {
                lemma_get_none(r@, d);
            }
        }
        r
    }

    pub fn get(&self, c: char) -> (r: Option<usize>)
        ensures
            r == spec_get(self@, c),
    {
        let n = self.entries.len();
        let mut i: usize = 0;
        proof {
            assert(self.entries@.skip(0) =~= self.entries@);
        }
        while i < n
            invariant
                n == self.entries@.len(),
                i <= n,
                spec_get(self.entries@, c) == spec_get(self.entries@.skip(i as int), c),
            decreases n - i,
        {
            let k = self.entries[i].0;
            let v = self.entries[i].1;
            if k == c {
                proof {
                    assert(self.entries@.skip(i as int)[0] == self.entries@[i as int]);
                }
                return Some(v);
            }
            proof {
                lemma_get_skip_step(self.entries@, i as int, c);
            }
            i += 1;
        }
        proof {
            assert(self.entries@.skip(n as int) =~= Seq::<(char, usize)>::empty());
        }
        None
    }

    /// Bind `c` to `v`, replacing any earlier binding of `c`.
    pub fn set(&mut self, c: char, v: usize)
        requires
            old(self).wf(),
        ensures
            final(self).wf(),
            forall|d: char|
                spec_get(final(self)@, d) == if d == c {
                    Some(v)
                } else {
                    spec_get(old(self)@, d)
                },
            forall|k: int|
                0 <= k < final(self)@.len() ==> final(self)@[k] == (c, v) || (0 <= k < old(
                    self,
                )@.len() && final(self)@[k] == old(self)@[k]),
    {
        let ghost pre = self.entries@;
        let n = self.entries.len();
        let mut i: usize = 0;
        while i < n
            invariant
                self.entries@ == pre,
                pre == old(self)@,
                unique_keys(pre),
                n == pre.len(),
                i <= n,
                forall|j: int| 0 <= j < i ==> pre[j].0 != c,
            decreases n - i,
        {
            if self.entries[i].0 == c {
                self.entries[i] = (c, v);
                proof {
                    assert forall|d: char|
                        spec_get(self.entries@, d) == (if d == c {
                            Some(v)
                        } else {
                            spec_get(pre, d)
                        }) by {
                        lemma_get_update(pre, i as int, c, v, d);
                    }
                }
                return ;
            }
            i += 1;
        }
        proof {
            lemma_get_none(pre, c);
        }
        self.entries.push((c, v));
        proof {
            assert forall|d: char|
                spec_get(self.entries@, d) == (if d == c {
                    Some(v)
                } else {
                    spec_get(pre, d)
                }) by {
                lemma_get_push(pre, c, v, d);
            }
        }
    }

    /// Drop the binding of `c`, if any.
    pub fn unset(&mut self, c: char)
        requires
            old(self).wf(),
        ensures
            final(self).wf(),
            forall|d: char|
                spec_get(final(self)@, d) == if d == c {
                    None::<usize>
                } else {
                    spec_get(old(self)@, d)
                },
            forall|k: int|
                0 <= k < final(self)@.len() ==> old(self)@.contains(#[trigger] final(self)@[k]),
            final(self)@.len() <= old(self)@.len(),
    {
        let ghost pre = self.entries@;
        let n = self.entries.len();
        let mut i: usize = 0;
        while i < n
            invariant
                self.entries@ == pre,
                pre == old(self)@,
                unique_keys(pre),
                n == pre.len(),
                i <= n,
                forall|j: int| 0 <= j < i ==> pre[j].0 != c,
            decreases n - i,
        {
            if self.entries[i].0 == c {
                self.entries.remove(i);
                proof {
                    let post = self.entries@;
                    assert forall|d: char|
                        spec_get(post, d) == (if d == c {
                            None::<usize>
                        } else {
                            spec_get(pre, d)
                        }) by {
                        lemma_get_remove(pre, i as int, c, d);
                    }
                    assert forall|k: int| 0 <= k < post.len() implies pre.contains(
                        #[trigger] post[k],
                    ) by {
                        if k < i {
                            assert(post[k] == pre[k]);
                        } else {
                            assert(post[k] == pre[k + 1]);
                        }
                    }
                }
                return ;
            }
            i += 1;
        }
        proof {
            lemma_get_none(pre, c);
        }
    }

    pub fn is_empty(&self) -> (r: bool)
        ensures
            r == (self@.len() == 0),
    {
        self.entries.len() == 0
    }
}

proof fn lemma_get_remove(s: Seq<(char, usize)>, i: int, c: char, d: char)
    requires
        unique_keys(s),
        0 <= i < s.len(),
        s[i].0 == c,
    ensures
        unique_keys(s.remove(i)),
        spec_get(s.remove(i), d) == if d == c {
            None::<usize>
        } else {
            spec_get(s, d)
        },
    decreases i,
{
    let s2 = s.remove(i);
    assert(unique_keys(s2)) by {
        assert forall|a: int, b: int| 0 <= a < b < s2.len() implies s2[a].0 != s2[b].0 by {
            let a0 = if a < i {
                a
            } else {
                a + 1
            };
            let b0 = if b < i {
                b
            } else {
                b + 1
            };
            assert(s2[a] == s[a0] && s2[b] == s[b0]);
        }
    }
    if i == 0 {
        assert(s2 =~= s.drop_first());
        if d == c {
            assert forall|j: int| 0 <= j < s2.len() implies s2[j].0 != c by {
                assert(s2[j] == s[j + 1]);
            }
            lemma_get_none(s2, c);
        }
    } else {
        assert(s2[0] == s[0]);
        assert(s[0].0 != c);
        if s[0].0 == d {
        } else {
            assert(s2.drop_first() =~= s.drop_first().remove(i - 1));
            assert(s.drop_first()[i - 1].0 == c);
            lemma_get_remove(s.drop_first(), i - 1, c, d);
        }
    }
}

} // verus!
