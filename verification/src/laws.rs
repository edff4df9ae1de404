//! The laws the trie obeys, stated over the map abstraction that the
//! operations' contracts are written in: `insert` turns the view `t@` into
//! `old(t)@.insert(key, value)`, `remove` into `old(t)@.remove(key)`, and
//! `find` answers from `t@` alone, so each law below connects the state an
//! operation leaves behind with what later operations will report.

use vstd::prelude::*;

use crate::element::{children_ordered, elem_wf, Element};
use crate::lemmas::lemma_forest_wf_index;
use crate::trie::RadixTrie;

verus! {

/// Round-trip: storing `value` under a non-empty key and looking that key up
/// yields exactly `value`, whatever entries the trie held before.
pub proof fn lemma_insert_then_find<T>(
    pre: RadixTrie<T>,
    post: RadixTrie<T>,
    key: Seq<char>,
    value: T,
)
    requires
        key.len() > 0,
        post@ == pre@.insert(key, value),
    ensures
        post@.dom().contains(key),
        post@[key] == value,
{
}

/// Overwrite: inserting the same key twice leaves only the second value
/// retrievable, and every other key, longer keys sharing the prefix
/// included, keeps exactly the entry it had before either insertion.
pub proof fn lemma_overwrite<T>(
    pre: RadixTrie<T>,
    mid: RadixTrie<T>,
    post: RadixTrie<T>,
    key: Seq<char>,
    first: T,
    second: T,
)
    requires
        key.len() > 0,
        mid@ == pre@.insert(key, first),
        post@ == mid@.insert(key, second),
    ensures
        post@.dom().contains(key),
        post@[key] == second,
        forall|k: Seq<char>|
            k != key ==> (#[trigger] post@.dom().contains(k) <==> pre@.dom().contains(k)),
        forall|k: Seq<char>|
            k != key && #[trigger] pre@.dom().contains(k) ==> post@[k] == pre@[k],
{
}

/// Delete-then-absent: after removing a key a lookup of it reports nothing,
/// removing it again changes nothing, and every other key keeps exactly the
/// entry it had.
pub proof fn lemma_delete_then_absent<T>(pre: RadixTrie<T>, post: RadixTrie<T>, key: Seq<char>)
    requires
        post@ == pre@.remove(key),
    ensures
        !post@.dom().contains(key),
        post@.remove(key) == post@,
        forall|k: Seq<char>|
            k != key ==> (#[trigger] post@.dom().contains(k) <==> pre@.dom().contains(k)),
        forall|k: Seq<char>|
            k != key && #[trigger] pre@.dom().contains(k) ==> post@[k] == pre@[k],
{
    assert(post@.remove(key) =~= post@);
}

/// Invariant preservation, spelled out: in a well-formed trie (`wf` is what
/// `new`, `insert`, `remove` and `find_mut` establish and preserve) the root's
/// sibling list is strictly ordered by leading character, so no two siblings
/// share one, and each subtree is recursively well-formed (`elem_wf`:
/// non-empty labels, ordered sibling lists, and no valueless branch with
/// fewer than two children).
pub proof fn lemma_invariant_structure<T>(t: RadixTrie<T>)
    requires
        t.wf(),
    ensures
        children_ordered(t.entry.spec_children()),
        forall|i: int|
            0 <= i < t.entry.spec_children().len() ==> elem_wf(
                #[trigger] t.entry.spec_children()[i],
            ),
{
    lemma_forest_wf_index(t.entry.spec_children());
}

} // verus!
