use vstd::prelude::*;
use crate::chars::{lower_char, upper_char, fold_seq};
use crate::childmap::{ChildMap, spec_get, lemma_get_entry, lemma_get_none};
use crate::payload::Payload;

verus! {

/// One node of the arena-backed trie: a children map from character to child
/// handle, and the optional terminal payload.
pub struct TrieNode {
    pub children: ChildMap,
    pub clean_name: Option<Payload>,
}

impl TrieNode {
    pub fn new() -> (r: TrieNode)
        ensures
            r.children@.len() == 0,
            r.children.wf(),
            r.clean_name is None,
    {
        TrieNode { children: ChildMap::new(), clean_name: None }
    }
}

/// The handle the node `i` maps `c` to, if any.
pub open spec fn child_of(nodes: Seq<TrieNode>, i: int, c: char) -> Option<usize> {
    spec_get(nodes[i].children@, c)
}

/// One step of a trie walk. A case-sensitive step follows the character as
/// it stands; a case-insensitive step tries its lowercase form first, then
/// its uppercase form.
pub open spec fn step(nodes: Seq<TrieNode>, i: int, c: char, cs: bool) -> Option<usize> {
    if cs {
        child_of(nodes, i, c)
    } else {
        match child_of(nodes, i, lower_char(c)) {
            Some(j) => Some(j),
            None => child_of(nodes, i, upper_char(c)),
        }
    }
}

/// The node reached from `i` by walking the characters of `s`.
pub open spec fn walk(nodes: Seq<TrieNode>, i: int, s: Seq<char>, cs: bool) -> Option<int>
    decreases s.len(),
{
    if s.len() == 0 {
        Some(i)
    } else {
        match step(nodes, i, s[0], cs) {
            Some(j) => walk(nodes, j as int, s.drop_first(), cs),
            None => None,
        }
    }
}

/// The payload found by walking `s` from node `i`.
pub open spec fn lookup_from(nodes: Seq<TrieNode>, i: int, s: Seq<char>, cs: bool) -> Option<
    Payload,
> {
    match walk(nodes, i, s, cs) {
        Some(t) => if 0 <= t < nodes.len() {
            nodes[t].clean_name
        } else {
            None
        },
        None => None,
    }
}

/// The payload registered under keyword `s`.
pub open spec fn lookup_in(nodes: Seq<TrieNode>, s: Seq<char>, cs: bool) -> Option<Payload> {
    lookup_from(nodes, 0, s, cs)
}

pub open spec fn node_wf(nodes: Seq<TrieNode>, i: int) -> bool {
    &&& nodes[i].children.wf()
    &&& forall|k: int|
        0 <= k < nodes[i].children@.len() ==> i < (#[trigger] nodes[i].children@[k]).1
            < nodes.len()
}

/// Arena well-formedness: the root exists, and every child handle points
/// past its parent and into the arena, so the structure is acyclic and
/// walks stay in bounds.
pub open spec fn arena_wf(nodes: Seq<TrieNode>) -> bool {
    &&& 1 <= nodes.len()
    &&& forall|i: int| 0 <= i < nodes.len() ==> node_wf(nodes, i)
}

/// Any two edges that point at the same node leave the same parent under the
/// same letter up to ASCII case. Inserts only ever link a node from one
/// place, writing at most the two case forms of one character.
pub open spec fn edges_consistent(nodes: Seq<TrieNode>) -> bool {
    forall|p1: int, k1: int, p2: int, k2: int|
        0 <= p1 < nodes.len() && 0 <= k1 < nodes[p1].children@.len() && 0 <= p2 < nodes.len() && 0
            <= k2 < nodes[p2].children@.len() && (#[trigger] nodes[p1].children@[k1]).1 == (
        #[trigger] nodes[p2].children@[k2]).1 ==> p1 == p2 && lower_char(
            nodes[p1].children@[k1].0,
        ) == lower_char(nodes[p2].children@[k2].0)
}

/// A trie whose every edge is written in both case forms: the two forms of
/// any character always map to the same place. This holds as long as no
/// insert or remove is made with case sensitivity switched on.
pub open spec fn dual(nodes: Seq<TrieNode>) -> bool {
    forall|i: int, c: char|
        0 <= i < nodes.len() ==> #[trigger] child_of(nodes, i, c) == child_of(
            nodes,
            i,
            crate::chars::swap_char(c),
        )
}

/// How many keywords are registered: the number of terminal nodes.
pub open spec fn count_terminals(nodes: Seq<TrieNode>) -> nat
    decreases nodes.len(),
{
    if nodes.len() == 0 {
        0
    } else {
        count_terminals(nodes.drop_last()) + if nodes.last().clean_name is Some {
            1nat
        } else {
            0nat
        }
    }
}

/// A successful step follows some stored edge of the parent.
pub proof fn lemma_step_edge(nodes: Seq<TrieNode>, p: int, c: char, cs: bool)
    requires
        0 <= p < nodes.len(),
        nodes[p].children.wf(),
        step(nodes, p, c, cs) is Some,
    ensures
        exists|k: int|
            0 <= k < nodes[p].children@.len() && (#[trigger] nodes[p].children@[k]).1 == step(
                nodes,
                p,
                c,
                cs,
            )->0 && lower_char(nodes[p].children@[k].0) == lower_char(c),
{
    let j = step(nodes, p, c, cs)->0;
    if cs {
        lemma_get_entry(nodes[p].children@, c);
        let k = choose|k: int|
            0 <= k < nodes[p].children@.len() && nodes[p].children@[k] == (c, j);
        assert(nodes[p].children@[k].1 == j && lower_char(nodes[p].children@[k].0) == lower_char(
            c,
        ));
    } else {
        if child_of(nodes, p, lower_char(c)) is Some {
            lemma_get_entry(nodes[p].children@, lower_char(c));
            let k = choose|k: int|
                0 <= k < nodes[p].children@.len() && nodes[p].children@[k] == (lower_char(c), j);
            assert(nodes[p].children@[k].1 == j);
            assert(lower_char(nodes[p].children@[k].0) == lower_char(c)) by {
                crate::chars::lemma_case_pair(c);
            }
        } else {
            lemma_get_entry(nodes[p].children@, upper_char(c));
            let k = choose|k: int|
                0 <= k < nodes[p].children@.len() && nodes[p].children@[k] == (upper_char(c), j);
            assert(nodes[p].children@[k].1 == j);
            assert(lower_char(nodes[p].children@[k].0) == lower_char(c)) by {
                crate::chars::lemma_case_pair(c);
            }
        }
    }
}

/// A walk stays inside the arena and only ever moves to higher handles.
pub proof fn lemma_walk_bounds(nodes: Seq<TrieNode>, i: int, s: Seq<char>, cs: bool)
    requires
        arena_wf(nodes),
        0 <= i < nodes.len(),
        walk(nodes, i, s, cs) is Some,
    ensures
        i <= walk(nodes, i, s, cs)->0 < nodes.len(),
        s.len() > 0 ==> i < walk(nodes, i, s, cs)->0,
    decreases s.len(),
{
    if s.len() > 0 {
        let j = step(nodes, i, s[0], cs)->0;
        assert(node_wf(nodes, i));
        lemma_step_edge(nodes, i, s[0], cs);
        let k = choose|k: int|
            0 <= k < nodes[i].children@.len() && (#[trigger] nodes[i].children@[k]).1 == j
                && lower_char(nodes[i].children@[k].0) == lower_char(s[0]);
        assert(i < nodes[i].children@[k].1 < nodes.len());
        lemma_walk_bounds(nodes, j as int, s.drop_first(), cs);
    }
}

/// Extending a walk by one character takes one more step.
pub proof fn lemma_walk_snoc(nodes: Seq<TrieNode>, i: int, s: Seq<char>, c: char, cs: bool)
    ensures
        walk(nodes, i, s.push(c), cs) == match walk(nodes, i, s, cs) {
            Some(j) => match step(nodes, j, c, cs) {
                Some(k) => Some(k as int),
                None => None::<int>,
            },
            None => None::<int>,
        },
    decreases s.len(),
{
    let s2 = s.push(c);
    if s.len() == 0 {
        assert(s2[0] == c);
        assert(s2.drop_first() =~= Seq::<char>::empty());
        match step(nodes, i, c, cs) {
            Some(j) => {
                assert(walk(nodes, j as int, s2.drop_first(), cs) == Some(j as int));
            },
            None => {},
        }
    } else {
        assert(s2[0] == s[0]);
        match step(nodes, i, s[0], cs) {
            Some(j) => {
                assert(s2.drop_first() =~= s.drop_first().push(c));
                lemma_walk_snoc(nodes, j as int, s.drop_first(), c, cs);
            },
            None => {},
        }
    }
}

/// Changing payloads but no children map moves no walk.
pub proof fn lemma_walk_same_children(
    nodes: Seq<TrieNode>,
    n2: Seq<TrieNode>,
    i: int,
    s: Seq<char>,
    cs: bool,
)
    requires
        arena_wf(nodes),
        0 <= i < nodes.len(),
        n2.len() == nodes.len(),
        forall|q: int| 0 <= q < nodes.len() ==> #[trigger] n2[q].children == nodes[q].children,
    ensures
        walk(n2, i, s, cs) == walk(nodes, i, s, cs),
    decreases s.len(),
{
    if s.len() > 0 {
        assert(n2[i].children == nodes[i].children);
        assert(step(n2, i, s[0], cs) == step(nodes, i, s[0], cs));
        match step(nodes, i, s[0], cs) {
            Some(j) => {
                assert(node_wf(nodes, i));
                lemma_step_edge(nodes, i, s[0], cs);
                let k = choose|k: int|
                    0 <= k < nodes[i].children@.len() && (#[trigger] nodes[i].children@[k]).1 == j
                        && lower_char(nodes[i].children@[k].0) == lower_char(s[0]);
                assert(i < nodes[i].children@[k].1 < nodes.len());
                lemma_walk_same_children(nodes, n2, j as int, s.drop_first(), cs);
            },
            None => {},
        }
    }
}

/// Two walks from the root that land on the same node follow the same
/// letters up to ASCII case, whatever their case policies.
pub proof fn lemma_walk_injective(
    nodes: Seq<TrieNode>,
    s1: Seq<char>,
    b1: bool,
    s2: Seq<char>,
    b2: bool,
)
    requires
        arena_wf(nodes),
        edges_consistent(nodes),
        walk(nodes, 0, s1, b1) is Some,
        walk(nodes, 0, s2, b2) == walk(nodes, 0, s1, b1),
    ensures
        fold_seq(s1) == fold_seq(s2),
    decreases s1.len() + s2.len(),
{
    let t = walk(nodes, 0, s1, b1)->0;
    if s1.len() == 0 && s2.len() == 0 {
        assert(fold_seq(s1) =~= fold_seq(s2));
    } else if s1.len() == 0 {
        // t is the root, but a nonempty walk ends on a child handle, which is
        // always positive.
        lemma_last_step_positive(nodes, s2, b2);
        assert(false);
    } else if s2.len() == 0 {
        lemma_last_step_positive(nodes, s1, b1);
        assert(false);
    } else {
        let r1 = s1.take(s1.len() - 1);
        let r2 = s2.take(s2.len() - 1);
        let c1 = s1.last();
        let c2 = s2.last();
        assert(s1 =~= r1.push(c1));
        assert(s2 =~= r2.push(c2));
        lemma_walk_snoc(nodes, 0, r1, c1, b1);
        lemma_walk_snoc(nodes, 0, r2, c2, b2);
        let p1 = walk(nodes, 0, r1, b1)->0;
        let p2 = walk(nodes, 0, r2, b2)->0;
        lemma_walk_bounds(nodes, 0, r1, b1);
        lemma_walk_bounds(nodes, 0, r2, b2);
        assert(node_wf(nodes, p1));
        assert(node_wf(nodes, p2));
        lemma_step_edge(nodes, p1, c1, b1);
        lemma_step_edge(nodes, p2, c2, b2);
        let k1 = choose|k: int|
            0 <= k < nodes[p1].children@.len() && (#[trigger] nodes[p1].children@[k]).1 == step(
                nodes,
                p1,
                c1,
                b1,
            )->0 && lower_char(nodes[p1].children@[k].0) == lower_char(c1);
        let k2 = choose|k: int|
            0 <= k < nodes[p2].children@.len() && (#[trigger] nodes[p2].children@[k]).1 == step(
                nodes,
                p2,
                c2,
                b2,
            )->0 && lower_char(nodes[p2].children@[k].0) == lower_char(c2);
        assert(nodes[p1].children@[k1].1 == nodes[p2].children@[k2].1);
        assert(p1 == p2 && lower_char(c1) == lower_char(c2));
        lemma_walk_injective(nodes, r1, b1, r2, b2);
        assert(fold_seq(s1) =~= fold_seq(r1).push(lower_char(c1)));
        assert(fold_seq(s2) =~= fold_seq(r2).push(lower_char(c2)));
    }
}

/// A nonempty walk from the root never lands back on the root.
proof fn lemma_last_step_positive(nodes: Seq<TrieNode>, s: Seq<char>, cs: bool)
    requires
        arena_wf(nodes),
        s.len() > 0,
        walk(nodes, 0, s, cs) is Some,
    ensures
        walk(nodes, 0, s, cs)->0 > 0,
{
    lemma_walk_bounds(nodes, 0, s, cs);
    let r = s.take(s.len() - 1);
    let c = s.last();
    assert(s =~= r.push(c));
    lemma_walk_snoc(nodes, 0, r, c, cs);
    let p = walk(nodes, 0, r, cs)->0;
    lemma_walk_bounds(nodes, 0, r, cs);
    assert(node_wf(nodes, p));
    lemma_step_edge(nodes, p, c, cs);
    let k = choose|k: int|
        0 <= k < nodes[p].children@.len() && (#[trigger] nodes[p].children@[k]).1 == step(
            nodes,
            p,
            c,
            cs,
        )->0 && lower_char(nodes[p].children@[k].0) == lower_char(c);
    assert(p < nodes[p].children@[k].1);
}

/// Counting terminals node by node: changing one node changes the count by
/// the difference its payload makes.
pub proof fn lemma_count_update(nodes: Seq<TrieNode>, t: int, n2: Seq<TrieNode>)
    requires
        0 <= t < nodes.len(),
        n2.len() == nodes.len(),
        forall|i: int| 0 <= i < nodes.len() && i != t ==> n2[i] == nodes[i],
    ensures
        count_terminals(n2) + (if nodes[t].clean_name is Some {
            1nat
        } else {
            0nat
        }) == count_terminals(nodes) + (if n2[t].clean_name is Some {
            1nat
        } else {
            0nat
        }),
    decreases nodes.len(),
{
    if nodes.len() > 0 {
        if t == nodes.len() - 1 {
            assert(n2.drop_last() =~= nodes.drop_last());
        } else {
            assert(n2.last() == nodes.last());
            lemma_count_update(nodes.drop_last(), t, n2.drop_last());
        }
    }
}

/// The shape of an arena right after a fresh empty node was appended and
/// linked from node `p` under the keys `cl` and `cu` (which may coincide),
/// both of which were previously unbound at `p`.
pub open spec fn linked_fresh(
    nodes: Seq<TrieNode>,
    n2: Seq<TrieNode>,
    p: int,
    cl: char,
    cu: char,
) -> bool {
    let n = nodes.len() as int;
    &&& nodes.len() < usize::MAX
    &&& n2.len() == n + 1
    &&& n2[n].children@.len() == 0
    &&& n2[n].children.wf()
    &&& n2[n].clean_name is None
    &&& forall|q: int| 0 <= q < n ==> #[trigger] n2[q].clean_name == nodes[q].clean_name
    &&& forall|q: int| 0 <= q < n && q != p ==> #[trigger] n2[q].children == nodes[q].children
    &&& n2[p].children.wf()
    &&& spec_get(nodes[p].children@, cl) is None
    &&& spec_get(nodes[p].children@, cu) is None
    &&& forall|d: char|
        #[trigger] spec_get(n2[p].children@, d) == if d == cl || d == cu {
            Some(nodes.len() as usize)
        } else {
            spec_get(nodes[p].children@, d)
        }
    &&& forall|k: int|
        0 <= k < n2[p].children@.len() ==> (#[trigger] n2[p].children@[k]) == (
        cl,
        nodes.len() as usize,
        ) || n2[p].children@[k] == (cu, nodes.len() as usize) || nodes[p].children@.contains(
            n2[p].children@[k],
        )
}

/// Linking a fresh node preserves well-formedness and edge consistency.
pub proof fn lemma_wf_link_fresh(nodes: Seq<TrieNode>, n2: Seq<TrieNode>, p: int, cl: char, cu: char)
    requires
        arena_wf(nodes),
        edges_consistent(nodes),
        0 <= p < nodes.len(),
        lower_char(cl) == lower_char(cu),
        linked_fresh(nodes, n2, p, cl, cu),
    ensures
        arena_wf(n2),
        edges_consistent(n2),
        count_terminals(n2) == count_terminals(nodes),
{
    let n = nodes.len() as int;
    assert forall|i: int| 0 <= i < n2.len() implies node_wf(n2, i) by {
        assert(node_wf(nodes, i) || i == n || i == p);
        if i == n {
        } else if i == p {
            assert forall|k: int| 0 <= k < n2[p].children@.len() implies p < (
            #[trigger] n2[p].children@[k]).1 < n2.len() by {
                if nodes[p].children@.contains(n2[p].children@[k]) {
                    let k0 = choose|k0: int|
                        0 <= k0 < nodes[p].children@.len() && nodes[p].children@[k0]
                            == n2[p].children@[k];
                    assert(node_wf(nodes, p));
                    assert(p < (nodes[p].children@[k0]).1 < nodes.len());
                }
            }
        } else {
            assert(n2[i].children == nodes[i].children);
            assert forall|k: int| 0 <= k < n2[i].children@.len() implies i < (
            #[trigger] n2[i].children@[k]).1 < n2.len() by {
                assert(node_wf(nodes, i));
                assert(i < (nodes[i].children@[k]).1 < nodes.len());
            }
        }
    }
    assert(edges_consistent(n2)) by {
        assert forall|p1: int, k1: int, p2: int, k2: int|
            0 <= p1 < n2.len() && 0 <= k1 < n2[p1].children@.len() && 0 <= p2 < n2.len() && 0 <= k2
                < n2[p2].children@.len() && (#[trigger] n2[p1].children@[k1]).1 == (
            #[trigger] n2[p2].children@[k2]).1 implies p1 == p2 && lower_char(
            n2[p1].children@[k1].0,
        ) == lower_char(n2[p2].children@[k2].0) by {
            lemma_edge_origin(nodes, n2, p, cl, cu, p1, k1);
            lemma_edge_origin(nodes, n2, p, cl, cu, p2, k2);
        }
    }
    assert(count_terminals(n2) == count_terminals(nodes)) by {
        let trimmed = n2.drop_last();
        assert(n2.last().clean_name is None);
        assert(count_terminals(n2) == count_terminals(trimmed));
        lemma_count_same_payloads(nodes, trimmed);
    }
}

/// Every edge of the extended arena is an old edge or one of the two new
/// edges into the fresh node; old edges never reach the fresh node.
proof fn lemma_edge_origin(
    nodes: Seq<TrieNode>,
    n2: Seq<TrieNode>,
    p: int,
    cl: char,
    cu: char,
    q: int,
    k: int,
)
    requires
        arena_wf(nodes),
        0 <= p < nodes.len(),
        linked_fresh(nodes, n2, p, cl, cu),
        0 <= q < n2.len(),
        0 <= k < n2[q].children@.len(),
    ensures
        (n2[q].children@[k].1 == nodes.len() && q == p && (n2[q].children@[k].0 == cl
            || n2[q].children@[k].0 == cu)) || (n2[q].children@[k].1 < nodes.len() && 0 <= q
            < nodes.len() && nodes[q].children@.contains(n2[q].children@[k])),
{
    let n = nodes.len() as int;
    if q == n {
        assert(false);
    } else if q == p {
        if nodes[p].children@.contains(n2[p].children@[k]) {
            let k0 = choose|k0: int|
                0 <= k0 < nodes[p].children@.len() && nodes[p].children@[k0] == n2[p].children@[k];
            assert(node_wf(nodes, p));
            assert((nodes[p].children@[k0]).1 < nodes.len());
        }
    } else {
        assert(n2[q].children == nodes[q].children);
        assert(node_wf(nodes, q));
        assert((nodes[q].children@[k]).1 < nodes.len());
        assert(nodes[q].children@.contains(n2[q].children@[k]));
    }
}

/// Two arenas with identical payloads node for node count the same terminals.
proof fn lemma_count_same_payloads(nodes: Seq<TrieNode>, n2: Seq<TrieNode>)
    requires
        n2.len() == nodes.len(),
        forall|q: int| 0 <= q < nodes.len() ==> #[trigger] n2[q].clean_name == nodes[q].clean_name,
    ensures
        count_terminals(n2) == count_terminals(nodes),
    decreases nodes.len(),
{
    if nodes.len() > 0 {
        assert(n2.last().clean_name == nodes.last().clean_name);
        lemma_count_same_payloads(nodes.drop_last(), n2.drop_last());
    }
}

/// Nothing can be looked up through a childless, payload-free node.
proof fn lemma_lookup_dead(n2: Seq<TrieNode>, j: int, s: Seq<char>, cs: bool)
    requires
        0 <= j < n2.len(),
        n2[j].children@.len() == 0,
        n2[j].clean_name is None,
    ensures
        lookup_from(n2, j, s, cs) is None,
{
    if s.len() > 0 {
        assert(spec_get(n2[j].children@, s[0]) is None);
        assert(spec_get(n2[j].children@, lower_char(s[0])) is None);
        assert(spec_get(n2[j].children@, upper_char(s[0])) is None);
        assert(step(n2, j, s[0], cs) is None);
    }
}

/// A step that succeeds lands strictly deeper inside the arena.
pub proof fn lemma_step_bound(nodes: Seq<TrieNode>, i: int, c: char, cs: bool)
    requires
        arena_wf(nodes),
        0 <= i < nodes.len(),
        step(nodes, i, c, cs) is Some,
    ensures
        i < step(nodes, i, c, cs)->0 < nodes.len(),
{
    assert(node_wf(nodes, i));
    lemma_step_edge(nodes, i, c, cs);
    let j = step(nodes, i, c, cs)->0;
    let k = choose|k: int|
        0 <= k < nodes[i].children@.len() && (#[trigger] nodes[i].children@[k]).1 == j
            && lower_char(nodes[i].children@[k].0) == lower_char(c);
    assert(i < nodes[i].children@[k].1 < nodes.len());
}

/// After linking a fresh node, only the keys `cl` and `cu` changed at `p`,
/// and both were unbound before.
proof fn lemma_new_key(
    nodes: Seq<TrieNode>,
    n2: Seq<TrieNode>,
    p: int,
    cl: char,
    cu: char,
    d: char,
)
    requires
        arena_wf(nodes),
        0 <= p < nodes.len(),
        linked_fresh(nodes, n2, p, cl, cu),
    ensures
        d == cl || d == cu ==> spec_get(nodes[p].children@, d) is None && spec_get(
            n2[p].children@,
            d,
        ) == Some(nodes.len() as usize),
        !(d == cl || d == cu) ==> spec_get(n2[p].children@, d) == spec_get(nodes[p].children@, d)
            && spec_get(n2[p].children@, d) != Some(nodes.len() as usize),
{
    if !(d == cl || d == cu) {
        if spec_get(nodes[p].children@, d) == Some(nodes.len() as usize) {
            lemma_get_entry_bound(nodes, p, d);
            assert(false);
        }
    }
}

/// Linking a fresh empty node changes no lookup made under the policy of the
/// insert that linked it.
pub proof fn lemma_lookup_link_fresh(
    nodes: Seq<TrieNode>,
    n2: Seq<TrieNode>,
    p: int,
    cl: char,
    cu: char,
    cs: bool,
    i: int,
    s: Seq<char>,
)
    requires
        arena_wf(nodes),
        0 <= p < nodes.len(),
        0 <= i < nodes.len(),
        linked_fresh(nodes, n2, p, cl, cu),
        !cs ==> lower_char(cl) == cl && upper_char(cl) == cu && lower_char(cu) == cl && upper_char(
            cu,
        ) == cu,
    ensures
        lookup_from(n2, i, s, cs) == lookup_from(nodes, i, s, cs),
    decreases s.len(),
{
    let n = nodes.len() as int;
    if s.len() == 0 {
        assert(n2[i].clean_name == nodes[i].clean_name);
    } else {
        let c = s[0];
        let rest = s.drop_first();
        let s_old = step(nodes, i, c, cs);
        let s_new = step(n2, i, c, cs);
        if i != p {
            assert(n2[i].children == nodes[i].children);
            assert(s_new == s_old);
            match s_old {
                Some(j) => {
                    lemma_step_bound(nodes, i, c, cs);
                    lemma_lookup_link_fresh(nodes, n2, p, cl, cu, cs, j as int, rest);
                },
                None => {},
            }
        } else {
            if cs {
                lemma_new_key(nodes, n2, p, cl, cu, c);
                if c == cl || c == cu {
                    assert(s_old is None);
                    assert(s_new == Some(nodes.len() as usize));
                    lemma_lookup_dead(n2, n, rest, cs);
                    assert(lookup_from(n2, i, s, cs) is None);
                    assert(lookup_from(nodes, i, s, cs) is None);
                } else {
                    assert(s_new == s_old);
                    match s_old {
                        Some(j) => {
                            lemma_step_bound(nodes, i, c, cs);
                            lemma_lookup_link_fresh(nodes, n2, p, cl, cu, cs, j as int, rest);
                        },
                        None => {},
                    }
                }
            } else {
                let lc = lower_char(c);
                let uc = upper_char(c);
                crate::chars::lemma_case_pair(c);
                lemma_new_key(nodes, n2, p, cl, cu, lc);
                lemma_new_key(nodes, n2, p, cl, cu, uc);
                if lc == cl || lc == cu {
                    // The lower form is one of the new keys; then so is the
                    // upper form, because the pair {cl, cu} is a case pair.
                    if lc == cu {
                        assert(lower_char(cu) == cl);
                        assert(lower_char(lc) == lc);
                        assert(lc == cl);
                    }
                    assert(lc == cl);
                    assert(uc == upper_char(lc) == upper_char(cl) == cu);
                    assert(spec_get(nodes[p].children@, lc) is None);
                    assert(spec_get(nodes[p].children@, uc) is None);
                    assert(s_old is None);
                    assert(s_new == Some(nodes.len() as usize));
                    lemma_lookup_dead(n2, n, rest, cs);
                    assert(lookup_from(n2, i, s, cs) is None);
                    assert(lookup_from(nodes, i, s, cs) is None);
                } else if uc == cl || uc == cu {
                    // Only the upper form is a new key.
                    if uc == cl {
                        assert(upper_char(cl) == cu);
                        assert(upper_char(uc) == uc);
                        assert(uc == cu);
                    }
                    assert(uc == cu);
                    assert(spec_get(nodes[p].children@, uc) is None);
                    assert(spec_get(n2[p].children@, lc) == spec_get(nodes[p].children@, lc));
                    match spec_get(nodes[p].children@, lc) {
                        Some(j) => {
                            assert(s_old == Some(j));
                            assert(s_new == Some(j));
                            lemma_step_bound(nodes, i, c, cs);
                            lemma_lookup_link_fresh(nodes, n2, p, cl, cu, cs, j as int, rest);
                        },
                        None => {
                            assert(s_old is None);
                            assert(s_new == Some(nodes.len() as usize));
                            lemma_lookup_dead(n2, n, rest, cs);
                            assert(lookup_from(n2, i, s, cs) is None);
                            assert(lookup_from(nodes, i, s, cs) is None);
                        },
                    }
                } else {
                    assert(spec_get(n2[p].children@, lc) == spec_get(nodes[p].children@, lc));
                    assert(spec_get(n2[p].children@, uc) == spec_get(nodes[p].children@, uc));
                    assert(s_new == s_old);
                    match s_old {
                        Some(j) => {
                            lemma_step_bound(nodes, i, c, cs);
                            lemma_lookup_link_fresh(nodes, n2, p, cl, cu, cs, j as int, rest);
                        },
                        None => {},
                    }
                }
            }
        }
    }
}

/// The shape of an arena after the two case forms `cl`, `cu` of a character
/// were both bound at `p` to the already existing child `j`, which one of
/// them already reached.
pub open spec fn linked_existing(
    nodes: Seq<TrieNode>,
    n2: Seq<TrieNode>,
    p: int,
    cl: char,
    cu: char,
    j: usize,
) -> bool {
    &&& n2.len() == nodes.len()
    &&& forall|q: int| 0 <= q < nodes.len() && q != p ==> #[trigger] n2[q] == nodes[q]
    &&& n2[p].clean_name == nodes[p].clean_name
    &&& n2[p].children.wf()
    &&& (spec_get(nodes[p].children@, cl) == Some(j) || (spec_get(nodes[p].children@, cl) is None
        && spec_get(nodes[p].children@, cu) == Some(j)))
    &&& forall|d: char|
        #[trigger] spec_get(n2[p].children@, d) == if d == cl || d == cu {
            Some(j)
        } else {
            spec_get(nodes[p].children@, d)
        }
    &&& forall|k: int|
        0 <= k < n2[p].children@.len() ==> (#[trigger] n2[p].children@[k]) == (cl, j)
            || n2[p].children@[k] == (cu, j) || nodes[p].children@.contains(n2[p].children@[k])
}

/// Rewriting a case pair onto its existing child keeps the arena well formed
/// and its edges consistent.
pub proof fn lemma_wf_link_existing(
    nodes: Seq<TrieNode>,
    n2: Seq<TrieNode>,
    p: int,
    cl: char,
    cu: char,
    j: usize,
)
    requires
        arena_wf(nodes),
        edges_consistent(nodes),
        0 <= p < nodes.len(),
        lower_char(cl) == cl,
        lower_char(cu) == cl,
        linked_existing(nodes, n2, p, cl, cu, j),
    ensures
        arena_wf(n2),
        edges_consistent(n2),
        count_terminals(n2) == count_terminals(nodes),
{
    let witness = if spec_get(nodes[p].children@, cl) == Some(j) {
        cl
    } else {
        cu
    };
    lemma_get_entry_bound(nodes, p, witness);
    lemma_get_entry(nodes[p].children@, witness);
    let kw = choose|k: int|
        0 <= k < nodes[p].children@.len() && nodes[p].children@[k] == (witness, j);
    assert(p < j < nodes.len());
    assert forall|i: int| 0 <= i < n2.len() implies node_wf(n2, i) by {
        assert(node_wf(nodes, i));
        if i == p {
            assert forall|k: int| 0 <= k < n2[p].children@.len() implies p < (
            #[trigger] n2[p].children@[k]).1 < n2.len() by {
                if nodes[p].children@.contains(n2[p].children@[k]) {
                    let k0 = choose|k0: int|
                        0 <= k0 < nodes[p].children@.len() && nodes[p].children@[k0]
                            == n2[p].children@[k];
                    assert(p < (nodes[p].children@[k0]).1 < nodes.len());
                }
            }
        }
    }
    assert(edges_consistent(n2)) by {
        assert forall|p1: int, k1: int, p2: int, k2: int|
            0 <= p1 < n2.len() && 0 <= k1 < n2[p1].children@.len() && 0 <= p2 < n2.len() && 0 <= k2
                < n2[p2].children@.len() && (#[trigger] n2[p1].children@[k1]).1 == (
            #[trigger] n2[p2].children@[k2]).1 implies p1 == p2 && lower_char(
            n2[p1].children@[k1].0,
        ) == lower_char(n2[p2].children@[k2].0) by {
            lemma_edge_origin_existing(nodes, n2, p, cl, cu, j, kw, p1, k1);
            lemma_edge_origin_existing(nodes, n2, p, cl, cu, j, kw, p2, k2);
        }
    }
    lemma_count_same_payloads_mixed(nodes, n2, p);
}

/// Each edge of the rewritten arena is an old edge, or one of the two
/// rewritten edges, whose parent and class agree with the old edge into `j`.
proof fn lemma_edge_origin_existing(
    nodes: Seq<TrieNode>,
    n2: Seq<TrieNode>,
    p: int,
    cl: char,
    cu: char,
    j: usize,
    kw: int,
    q: int,
    k: int,
)
    requires
        arena_wf(nodes),
        edges_consistent(nodes),
        0 <= p < nodes.len(),
        lower_char(cl) == cl,
        lower_char(cu) == cl,
        linked_existing(nodes, n2, p, cl, cu, j),
        0 <= kw < nodes[p].children@.len(),
        nodes[p].children@[kw].1 == j,
        lower_char(nodes[p].children@[kw].0) == cl,
        0 <= q < n2.len(),
        0 <= k < n2[q].children@.len(),
    ensures
        (0 <= q < nodes.len() && nodes[q].children@.contains(n2[q].children@[k])) || (q == p
            && n2[q].children@[k].1 == j && lower_char(n2[q].children@[k].0) == cl),
{
    if q == p {
        if !nodes[p].children@.contains(n2[p].children@[k]) {
            assert(n2[p].children@[k] == (cl, j) || n2[p].children@[k] == (cu, j));
        }
    } else {
        assert(n2[q] == nodes[q]);
        assert(nodes[q].children@.contains(n2[q].children@[k])) by {
            assert(n2[q].children@[k] == nodes[q].children@[k]);
        }
    }
}

/// Payloads agree node for node except possibly at `p`, where they also
/// agree; so the count is unchanged.
proof fn lemma_count_same_payloads_mixed(nodes: Seq<TrieNode>, n2: Seq<TrieNode>, p: int)
    requires
        n2.len() == nodes.len(),
        forall|q: int| 0 <= q < nodes.len() && q != p ==> #[trigger] n2[q] == nodes[q],
        0 <= p < nodes.len() ==> n2[p].clean_name == nodes[p].clean_name,
    ensures
        count_terminals(n2) == count_terminals(nodes),
    decreases nodes.len(),
{
    if nodes.len() > 0 {
        assert(n2.last().clean_name == nodes.last().clean_name);
        lemma_count_same_payloads_mixed(nodes.drop_last(), n2.drop_last(), p);
    }
}

/// Rewriting a case pair onto its existing child moves no case-insensitive
/// lookup.
pub proof fn lemma_lookup_link_existing(
    nodes: Seq<TrieNode>,
    n2: Seq<TrieNode>,
    p: int,
    cl: char,
    cu: char,
    j: usize,
    i: int,
    s: Seq<char>,
)
    requires
        arena_wf(nodes),
        0 <= p < nodes.len(),
        0 <= i < nodes.len(),
        lower_char(cl) == cl,
        upper_char(cl) == cu,
        lower_char(cu) == cl,
        upper_char(cu) == cu,
        linked_existing(nodes, n2, p, cl, cu, j),
    ensures
        lookup_from(n2, i, s, false) == lookup_from(nodes, i, s, false),
    decreases s.len(),
{
    if s.len() == 0 {
        assert(n2[i].clean_name == nodes[i].clean_name);
    } else {
        let c = s[0];
        let rest = s.drop_first();
        let s_old = step(nodes, i, c, false);
        let s_new = step(n2, i, c, false);
        if i != p {
            assert(n2[i] == nodes[i]);
            assert(s_new == s_old);
        } else {
            let lc = lower_char(c);
            let uc = upper_char(c);
            crate::chars::lemma_case_pair(c);
            if lc == cl {
                assert(uc == upper_char(lc) == cu);
                assert(spec_get(n2[p].children@, lc) == Some(j));
                assert(s_new == Some(j));
                assert(s_old == Some(j)) by {
                    assert(spec_get(nodes[p].children@, cl) == Some(j) || (spec_get(
                        nodes[p].children@,
                        cl,
                    ) is None && spec_get(nodes[p].children@, cu) == Some(j)));
                }
            } else {
                // Neither form of `c` is a rewritten key.
                assert(lc != cl && lc != cu) by {
                    if lc == cu {
                        assert(lower_char(cu) == cl);
                        assert(lower_char(lc) == lc);
                    }
                }
                assert(uc != cl && uc != cu) by {
                    if uc == cl {
                        assert(upper_char(cl) == cu);
                        assert(upper_char(uc) == uc);
                        assert(uc == cu);
                        assert(lower_char(cu) == cl);
                        assert(lower_char(uc) == lc);
                    }
                    if uc == cu {
                        assert(lower_char(cu) == cl);
                        assert(lower_char(uc) == lc);
                    }
                }
                assert(spec_get(n2[p].children@, lc) == spec_get(nodes[p].children@, lc));
                assert(spec_get(n2[p].children@, uc) == spec_get(nodes[p].children@, uc));
                assert(s_new == s_old);
            }
        }
        match s_old {
            Some(j2) => {
                if s_new == s_old {
                    lemma_step_bound(nodes, i, c, false);
                    lemma_lookup_link_existing(nodes, n2, p, cl, cu, j, j2 as int, rest);
                } else {
                    // only possible when both step to j
                    assert(s_new == Some(j) && s_old == Some(j) && false);
                }
            },
            None => {
                assert(s_new is None);
            },
        }
    }
}

/// The shape of an arena after some bindings of node `p` that pointed at the
/// dead node `j` were dropped.
pub open spec fn pruned_at(nodes: Seq<TrieNode>, n2: Seq<TrieNode>, p: int, j: usize) -> bool {
    &&& n2.len() == nodes.len()
    &&& forall|q: int| 0 <= q < nodes.len() && q != p ==> #[trigger] n2[q] == nodes[q]
    &&& n2[p].clean_name == nodes[p].clean_name
    &&& n2[p].children.wf()
    &&& p < j < nodes.len()
    &&& nodes[j as int].children@.len() == 0
    &&& nodes[j as int].clean_name is None
    &&& forall|d: char|
        #[trigger] spec_get(n2[p].children@, d) == spec_get(nodes[p].children@, d) || (spec_get(
            n2[p].children@,
            d,
        ) is None && spec_get(nodes[p].children@, d) == Some(j))
    &&& forall|k: int|
        0 <= k < n2[p].children@.len() ==> nodes[p].children@.contains(
            #[trigger] n2[p].children@[k],
        )
}

/// Dropping bindings keeps the arena well formed and its edges consistent,
/// and no payload moves.
pub proof fn lemma_wf_prune(nodes: Seq<TrieNode>, n2: Seq<TrieNode>, p: int, j: usize)
    requires
        arena_wf(nodes),
        edges_consistent(nodes),
        0 <= p < nodes.len(),
        pruned_at(nodes, n2, p, j),
    ensures
        arena_wf(n2),
        edges_consistent(n2),
        count_terminals(n2) == count_terminals(nodes),
{
    assert forall|i: int| 0 <= i < n2.len() implies node_wf(n2, i) by {
        assert(node_wf(nodes, i));
        if i == p {
            assert forall|k: int| 0 <= k < n2[p].children@.len() implies p < (
            #[trigger] n2[p].children@[k]).1 < n2.len() by {
                let k0 = choose|k0: int|
                    0 <= k0 < nodes[p].children@.len() && nodes[p].children@[k0]
                        == n2[p].children@[k];
                assert(p < (nodes[p].children@[k0]).1 < nodes.len());
            }
        }
    }
    assert(edges_consistent(n2)) by {
        assert forall|p1: int, k1: int, p2: int, k2: int|
            0 <= p1 < n2.len() && 0 <= k1 < n2[p1].children@.len() && 0 <= p2 < n2.len() && 0 <= k2
                < n2[p2].children@.len() && (#[trigger] n2[p1].children@[k1]).1 == (
            #[trigger] n2[p2].children@[k2]).1 implies p1 == p2 && lower_char(
            n2[p1].children@[k1].0,
        ) == lower_char(n2[p2].children@[k2].0) by {
            lemma_edge_origin_prune(nodes, n2, p, j, p1, k1);
            lemma_edge_origin_prune(nodes, n2, p, j, p2, k2);
        }
    }
    lemma_count_same_payloads_mixed(nodes, n2, p);
}

proof fn lemma_edge_origin_prune(
    nodes: Seq<TrieNode>,
    n2: Seq<TrieNode>,
    p: int,
    j: usize,
    q: int,
    k: int,
)
    requires
        arena_wf(nodes),
        0 <= p < nodes.len(),
        pruned_at(nodes, n2, p, j),
        0 <= q < n2.len(),
        0 <= k < n2[q].children@.len(),
    ensures
        nodes[q].children@.contains(n2[q].children@[k]),
{
    if q != p {
        assert(n2[q] == nodes[q]);
        assert(n2[q].children@[k] == nodes[q].children@[k]);
    }
}

/// Dropping bindings onto a dead node changes no lookup made under the
/// policy of the remove that dropped them: a walk through such a binding
/// found nothing anyway.
pub proof fn lemma_lookup_prune(
    nodes: Seq<TrieNode>,
    n2: Seq<TrieNode>,
    p: int,
    j: usize,
    cs: bool,
    i: int,
    s: Seq<char>,
)
    requires
        arena_wf(nodes),
        0 <= p < nodes.len(),
        0 <= i < nodes.len(),
        pruned_at(nodes, n2, p, j),
        // under the case-insensitive policy, bindings leave only with their
        // whole case class
        !cs ==> forall|d: char|
            #[trigger] spec_get(n2[p].children@, d) != spec_get(nodes[p].children@, d) ==> spec_get(
                nodes[p].children@,
                crate::chars::swap_char(d),
            ) == Some(j) && spec_get(n2[p].children@, crate::chars::swap_char(d)) is None,
    ensures
        lookup_from(n2, i, s, cs) == lookup_from(nodes, i, s, cs),
    decreases s.len(),
{
    if s.len() == 0 {
        assert(n2[i].clean_name == nodes[i].clean_name);
    } else {
        let c = s[0];
        let rest = s.drop_first();
        let s_old = step(nodes, i, c, cs);
        let s_new = step(n2, i, c, cs);
        if i != p {
            assert(n2[i] == nodes[i]);
            assert(s_new == s_old);
            match s_old {
                Some(j2) => {
                    lemma_step_bound(nodes, i, c, cs);
                    lemma_lookup_prune(nodes, n2, p, j, cs, i, Seq::<char>::empty());
                    lemma_lookup_prune(nodes, n2, p, j, cs, j2 as int, rest);
                },
                None => {},
            }
        } else {
            if cs {
                if spec_get(n2[p].children@, c) == spec_get(nodes[p].children@, c) {
                    assert(s_new == s_old);
                    match s_old {
                        Some(j2) => {
                            lemma_step_bound(nodes, i, c, cs);
                            lemma_lookup_prune(nodes, n2, p, j, cs, j2 as int, rest);
                        },
                        None => {},
                    }
                } else {
                    assert(s_old == Some(j));
                    assert(s_new is None);
                    assert(n2[j as int] == nodes[j as int]);
                    lemma_lookup_dead(nodes, j as int, rest, cs);
                    assert(lookup_from(nodes, i, s, cs) is None);
                }
            } else {
                let lc = lower_char(c);
                let uc = upper_char(c);
                crate::chars::lemma_case_pair(c);
                assert(crate::chars::swap_char(lc) == uc && crate::chars::swap_char(uc) == lc)
                    by {
                    crate::chars::lemma_case_pair(lc);
                    crate::chars::lemma_case_pair(uc);
                }
                let l_changed = spec_get(n2[p].children@, lc) != spec_get(nodes[p].children@, lc);
                let u_changed = spec_get(n2[p].children@, uc) != spec_get(nodes[p].children@, uc);
                if l_changed {
                    // both forms pointed at the dead node and are gone
                    assert(spec_get(nodes[p].children@, uc) == Some(j));
                    assert(spec_get(n2[p].children@, uc) is None);
                    assert(spec_get(nodes[p].children@, lc) == Some(j));
                    assert(spec_get(n2[p].children@, lc) is None);
                    assert(s_old == Some(j));
                    assert(s_new is None);
                    assert(n2[j as int] == nodes[j as int]);
                    lemma_lookup_dead(nodes, j as int, rest, false);
                    assert(lookup_from(nodes, i, s, false) is None);
                } else if u_changed {
                    assert(spec_get(nodes[p].children@, lc) == Some(j));
                    assert(false);
                } else {
                    assert(s_new == s_old);
                    match s_old {
                        Some(j2) => {
                            lemma_step_bound(nodes, i, c, false);
                            lemma_lookup_prune(nodes, n2, p, j, false, j2 as int, rest);
                        },
                        None => {},
                    }
                }
            }
        }
    }
}

/// Case-insensitive pruning keeps the dual shape of the trie.
pub proof fn lemma_dual_prune(nodes: Seq<TrieNode>, n2: Seq<TrieNode>, p: int, j: usize)
    requires
        dual(nodes),
        0 <= p < nodes.len(),
        pruned_at(nodes, n2, p, j),
        forall|d: char|
            #[trigger] spec_get(n2[p].children@, d) != spec_get(nodes[p].children@, d) ==> spec_get(
                n2[p].children@,
                crate::chars::swap_char(d),
            ) is None,
    ensures
        dual(n2),
{
    assert forall|i: int, c: char| 0 <= i < n2.len() implies #[trigger] child_of(n2, i, c)
        == child_of(n2, i, crate::chars::swap_char(c)) by {
        let sc = crate::chars::swap_char(c);
        crate::chars::lemma_swap_involution(c);
        if i != p {
            assert(n2[i] == nodes[i]);
            assert(child_of(nodes, i, c) == child_of(nodes, i, sc));
        } else {
            let c_changed = spec_get(n2[p].children@, c) != spec_get(nodes[p].children@, c);
            let sc_changed = spec_get(n2[p].children@, sc) != spec_get(nodes[p].children@, sc);
            assert(child_of(nodes, p, c) == child_of(nodes, p, sc));
            if c_changed {
                assert(spec_get(n2[p].children@, sc) is None);
                assert(spec_get(n2[p].children@, c) is None);
            } else if sc_changed {
                assert(spec_get(n2[p].children@, crate::chars::swap_char(sc)) is None);
                assert(spec_get(n2[p].children@, c) is None);
                assert(spec_get(n2[p].children@, sc) is None);
            }
        }
    }
}

/// Linking a fresh node under both case forms keeps the dual shape.
pub proof fn lemma_dual_link_fresh(
    nodes: Seq<TrieNode>,
    n2: Seq<TrieNode>,
    p: int,
    cl: char,
    cu: char,
)
    requires
        dual(nodes),
        0 <= p < nodes.len(),
        linked_fresh(nodes, n2, p, cl, cu),
        lower_char(cl) == cl,
        upper_char(cl) == cu,
        lower_char(cu) == cl,
        upper_char(cu) == cu,
    ensures
        dual(n2),
{
    let n = nodes.len() as int;
    assert forall|i: int, c: char| 0 <= i < n2.len() implies #[trigger] child_of(n2, i, c)
        == child_of(n2, i, crate::chars::swap_char(c)) by {
        let sc = crate::chars::swap_char(c);
        crate::chars::lemma_swap_involution(c);
        lemma_swap_pair(cl, cu);
        if i == n {
            assert(spec_get(n2[n].children@, c) is None);
            assert(spec_get(n2[n].children@, sc) is None);
        } else if i != p {
            assert(n2[i].children == nodes[i].children);
            assert(child_of(nodes, i, c) == child_of(nodes, i, sc));
        } else {
            if c == cl || c == cu {
                assert(sc == cl || sc == cu);
            } else {
                assert(sc != cl && sc != cu);
                assert(child_of(nodes, p, c) == child_of(nodes, p, sc));
            }
        }
    }
}

/// Rewriting a case pair onto its existing child keeps the dual shape.
pub proof fn lemma_dual_link_existing(
    nodes: Seq<TrieNode>,
    n2: Seq<TrieNode>,
    p: int,
    cl: char,
    cu: char,
    j: usize,
)
    requires
        dual(nodes),
        0 <= p < nodes.len(),
        linked_existing(nodes, n2, p, cl, cu, j),
        lower_char(cl) == cl,
        upper_char(cl) == cu,
        lower_char(cu) == cl,
        upper_char(cu) == cu,
    ensures
        dual(n2),
{
    assert forall|i: int, c: char| 0 <= i < n2.len() implies #[trigger] child_of(n2, i, c)
        == child_of(n2, i, crate::chars::swap_char(c)) by {
        let sc = crate::chars::swap_char(c);
        crate::chars::lemma_swap_involution(c);
        lemma_swap_pair(cl, cu);
        if i != p {
            assert(n2[i] == nodes[i]);
            assert(child_of(nodes, i, c) == child_of(nodes, i, sc));
        } else {
            if c == cl || c == cu {
                assert(sc == cl || sc == cu);
            } else {
                assert(sc != cl && sc != cu);
                assert(child_of(nodes, p, c) == child_of(nodes, p, sc));
            }
        }
    }
}

/// A walk that succeeded before a fresh node was linked takes the same
/// steps afterwards.
pub proof fn lemma_walk_preserved_link_fresh(
    nodes: Seq<TrieNode>,
    n2: Seq<TrieNode>,
    p: int,
    cl: char,
    cu: char,
    cs: bool,
    i: int,
    s: Seq<char>,
)
    requires
        arena_wf(nodes),
        0 <= p < nodes.len(),
        0 <= i < nodes.len(),
        linked_fresh(nodes, n2, p, cl, cu),
        !cs ==> lower_char(cl) == cl && upper_char(cl) == cu && lower_char(cu) == cl && upper_char(
            cu,
        ) == cu,
        walk(nodes, i, s, cs) is Some,
    ensures
        walk(n2, i, s, cs) == walk(nodes, i, s, cs),
    decreases s.len(),
{
    if s.len() > 0 {
        let c = s[0];
        let rest = s.drop_first();
        let s_old = step(nodes, i, c, cs);
        let j = s_old->0;
        if i != p {
            assert(n2[i].children == nodes[i].children);
        } else {
            if cs {
                lemma_new_key(nodes, n2, p, cl, cu, c);
                assert(!(c == cl || c == cu));
            } else {
                let lc = lower_char(c);
                let uc = upper_char(c);
                crate::chars::lemma_case_pair(c);
                lemma_new_key(nodes, n2, p, cl, cu, lc);
                lemma_new_key(nodes, n2, p, cl, cu, uc);
                if spec_get(nodes[p].children@, lc) is Some {
                    assert(!(lc == cl || lc == cu));
                } else {
                    assert(spec_get(nodes[p].children@, uc) == Some(j));
                    assert(!(uc == cl || uc == cu));
                    assert(!(lc == cl || lc == cu)) by {
                        if lc == cl {
                            assert(upper_char(lc) == uc);
                            assert(upper_char(cl) == cu);
                        }
                        if lc == cu {
                            assert(lower_char(cu) == cl);
                            assert(lower_char(lc) == lc);
                            assert(upper_char(lc) == uc);
                            assert(upper_char(cl) == cu);
                        }
                    }
                }
            }
        }
        assert(step(n2, i, c, cs) == s_old);
        lemma_step_bound(nodes, i, c, cs);
        lemma_walk_preserved_link_fresh(nodes, n2, p, cl, cu, cs, j as int, rest);
    }
}

/// Rewriting a case pair onto its existing child moves no case-insensitive
/// walk at all.
pub proof fn lemma_walk_eq_link_existing(
    nodes: Seq<TrieNode>,
    n2: Seq<TrieNode>,
    p: int,
    cl: char,
    cu: char,
    j: usize,
    i: int,
    s: Seq<char>,
)
    requires
        arena_wf(nodes),
        0 <= p < nodes.len(),
        0 <= i < nodes.len(),
        lower_char(cl) == cl,
        upper_char(cl) == cu,
        lower_char(cu) == cl,
        upper_char(cu) == cu,
        linked_existing(nodes, n2, p, cl, cu, j),
    ensures
        walk(n2, i, s, false) == walk(nodes, i, s, false),
    decreases s.len(),
{
    if s.len() > 0 {
        let c = s[0];
        let rest = s.drop_first();
        let s_old = step(nodes, i, c, false);
        if i != p {
            assert(n2[i] == nodes[i]);
        } else {
            let lc = lower_char(c);
            let uc = upper_char(c);
            crate::chars::lemma_case_pair(c);
            if lc == cl {
                assert(uc == upper_char(lc) == cu);
                assert(spec_get(n2[p].children@, lc) == Some(j));
                assert(s_old == Some(j));
            } else {
                assert(lc != cl && lc != cu) by {
                    if lc == cu {
                        assert(lower_char(cu) == cl);
                        assert(lower_char(lc) == lc);
                    }
                }
                assert(uc != cl && uc != cu) by {
                    if uc == cl {
                        assert(upper_char(cl) == cu);
                        assert(upper_char(uc) == uc);
                        assert(uc == cu);
                        assert(lower_char(cu) == cl);
                        assert(lower_char(uc) == lc);
                    }
                    if uc == cu {
                        assert(lower_char(cu) == cl);
                        assert(lower_char(uc) == lc);
                    }
                }
                assert(spec_get(n2[p].children@, lc) == spec_get(nodes[p].children@, lc));
                assert(spec_get(n2[p].children@, uc) == spec_get(nodes[p].children@, uc));
            }
        }
        assert(step(n2, i, c, false) == s_old);
        match s_old {
            Some(j2) => {
                lemma_step_bound(nodes, i, c, false);
                lemma_walk_eq_link_existing(nodes, n2, p, cl, cu, j, j2 as int, rest);
            },
            None => {},
        }
    }
}

/// Replacing one payload keeps the arena well formed, its edges consistent,
/// and its dual shape.
pub proof fn lemma_wf_payload_update(nodes: Seq<TrieNode>, n2: Seq<TrieNode>, t: int)
    requires
        arena_wf(nodes),
        edges_consistent(nodes),
        0 <= t < nodes.len(),
        n2.len() == nodes.len(),
        forall|q: int| 0 <= q < nodes.len() && q != t ==> #[trigger] n2[q] == nodes[q],
        n2[t].children == nodes[t].children,
    ensures
        arena_wf(n2),
        edges_consistent(n2),
        dual(nodes) ==> dual(n2),
        forall|q: int| 0 <= q < nodes.len() ==> #[trigger] n2[q].children == nodes[q].children,
{
    assert forall|q: int| 0 <= q < nodes.len() implies #[trigger] n2[q].children
        == nodes[q].children by {}
    assert forall|i: int| 0 <= i < n2.len() implies node_wf(n2, i) by {
        assert(node_wf(nodes, i));
        assert(n2[i].children == nodes[i].children);
    }
    assert(edges_consistent(n2)) by {
        assert forall|p1: int, k1: int, p2: int, k2: int|
            0 <= p1 < n2.len() && 0 <= k1 < n2[p1].children@.len() && 0 <= p2 < n2.len() && 0 <= k2
                < n2[p2].children@.len() && (#[trigger] n2[p1].children@[k1]).1 == (
            #[trigger] n2[p2].children@[k2]).1 implies p1 == p2 && lower_char(
            n2[p1].children@[k1].0,
        ) == lower_char(n2[p2].children@[k2].0) by {
            assert(n2[p1].children == nodes[p1].children);
            assert(n2[p2].children == nodes[p2].children);
        }
    }
    if dual(nodes) {
        assert forall|i: int, c: char| 0 <= i < n2.len() implies #[trigger] child_of(n2, i, c)
            == child_of(n2, i, crate::chars::swap_char(c)) by {
            assert(n2[i].children == nodes[i].children);
            assert(child_of(nodes, i, c) == child_of(nodes, i, crate::chars::swap_char(c)));
        }
    }
}

/// A case-insensitive walk sees only the folded form of its keyword.
pub proof fn lemma_walk_fold(nodes: Seq<TrieNode>, i: int, s1: Seq<char>, s2: Seq<char>)
    requires
        fold_seq(s1) == fold_seq(s2),
    ensures
        walk(nodes, i, s1, false) == walk(nodes, i, s2, false),
    decreases s1.len(),
{
    assert(fold_seq(s1).len() == s1.len());
    assert(fold_seq(s2).len() == s2.len());
    if s1.len() > 0 {
        assert(fold_seq(s1)[0] == lower_char(s1[0]));
        assert(fold_seq(s2)[0] == lower_char(s2[0]));
        assert(lower_char(s1[0]) == lower_char(s2[0]));
        assert(upper_char(s1[0]) == upper_char(s2[0])) by {
            crate::chars::lemma_case_pair(s1[0]);
            crate::chars::lemma_case_pair(s2[0]);
        }
        assert(step(nodes, i, s1[0], false) == step(nodes, i, s2[0], false));
        match step(nodes, i, s1[0], false) {
            Some(j) => {
                assert(fold_seq(s1.drop_first()) =~= fold_seq(s1).drop_first());
                assert(fold_seq(s2.drop_first()) =~= fold_seq(s2).drop_first());
                lemma_walk_fold(nodes, j as int, s1.drop_first(), s2.drop_first());
            },
            None => {},
        }
    }
}

/// A walk splits at any point into the walk of the prefix followed by the
/// walk of the rest.
pub proof fn lemma_walk_split(nodes: Seq<TrieNode>, i: int, s: Seq<char>, k: int, cs: bool)
    requires
        0 <= k <= s.len(),
    ensures
        walk(nodes, i, s, cs) == match walk(nodes, i, s.take(k), cs) {
            Some(j) => walk(nodes, j, s.skip(k), cs),
            None => None::<int>,
        },
    decreases k,
{
    if k == 0 {
        assert(s.take(0) =~= Seq::<char>::empty());
        assert(s.skip(0) =~= s);
    } else {
        assert(s.take(k)[0] == s[0]);
        assert(s.len() > 0);
        match step(nodes, i, s[0], cs) {
            Some(j) => {
                assert(s.take(k).drop_first() =~= s.drop_first().take(k - 1));
                assert(s.skip(k) =~= s.drop_first().skip(k - 1));
                lemma_walk_split(nodes, j as int, s.drop_first(), k - 1, cs);
            },
            None => {},
        }
    }
}

/// Case swapping maps a case pair onto itself.
proof fn lemma_swap_pair(cl: char, cu: char)
    requires
        lower_char(cl) == cl,
        upper_char(cl) == cu,
        lower_char(cu) == cl,
        upper_char(cu) == cu,
    ensures
        crate::chars::swap_char(cl) == cu,
        crate::chars::swap_char(cu) == cl,
{
}

/// A stored binding leads into the arena.
pub proof fn lemma_get_entry_bound(nodes: Seq<TrieNode>, p: int, d: char)
    requires
        arena_wf(nodes),
        0 <= p < nodes.len(),
        spec_get(nodes[p].children@, d) is Some,
    ensures
        p < spec_get(nodes[p].children@, d)->0 < nodes.len(),
{
    assert(node_wf(nodes, p));
    lemma_get_entry(nodes[p].children@, d);
    let k = choose|k: int|
        0 <= k < nodes[p].children@.len() && nodes[p].children@[k] == (
        d,
        spec_get(nodes[p].children@, d)->0,
        );
    assert(p < (nodes[p].children@[k]).1 < nodes.len());
}

} // verus!
