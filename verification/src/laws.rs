use vstd::prelude::*;
use crate::chars::{fold_seq, swap_seq, lemma_fold_swap};
use crate::processor::{KeywordProcessor, insert_effect, remove_effect};
use crate::trie::lemma_walk_fold;

verus! {

/// A lookup after any run of inserts returns the most recently set payload:
/// the insert of a keyword makes it registered, and every keyword of a
/// different folded form keeps whatever an earlier insert gave it. Two
/// inserts in a row therefore leave both keywords registered.
pub proof fn lemma_latest_insert_wins(
    s0: KeywordProcessor,
    s1: KeywordProcessor,
    s2: KeywordProcessor,
    kw1: Seq<char>,
    kw2: Seq<char>,
    cs: bool,
    a1: bool,
    a2: bool,
)
    requires
        insert_effect(s0, s1, kw1, cs, a1),
        insert_effect(s1, s2, kw2, cs, a2),
        fold_seq(kw1) != fold_seq(kw2),
    ensures
        s2.lookup_spec(kw2, cs) is Some,
        s2.lookup_spec(kw1, cs) == s1.lookup_spec(kw1, cs),
        s2.lookup_spec(kw1, cs) is Some,
{
}

/// Inserting a fresh keyword and then removing it leaves no trace: the
/// keyword is unregistered again, the size is back where it was, and every
/// other folded form reads as before.
pub proof fn lemma_insert_remove_roundtrip(
    s0: KeywordProcessor,
    s1: KeywordProcessor,
    s2: KeywordProcessor,
    kw: Seq<char>,
    cs: bool,
    added: bool,
)
    requires
        s0.lookup_spec(kw, cs) is None,
        insert_effect(s0, s1, kw, cs, added),
        remove_effect(s1, s2, kw, cs),
    ensures
        added,
        s2.lookup_spec(kw, cs) is None,
        s2.size_spec() == s0.size_spec(),
        forall|s: Seq<char>|
            fold_seq(s) != fold_seq(kw) ==> s2.lookup_spec(s, cs) == s0.lookup_spec(s, cs),
{
}

/// In case-insensitive mode a lookup cannot tell a keyword from its
/// case-swapped form.
pub proof fn lemma_lookup_swapcase(kp: KeywordProcessor, s: Seq<char>)
    ensures
        kp.lookup_spec(s, false) == kp.lookup_spec(swap_seq(s), false),
{
    lemma_fold_swap(s);
    lemma_walk_fold(kp.nodes@, 0, s, swap_seq(s));
}

} // verus!
