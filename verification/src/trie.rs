//! The trie engine: owns the root sentinel and implements insertion, lookup,
//! removal and prefix enumeration by descending through the matching
//! classifier.

use vstd::prelude::*;
use vstd::string::StrSliceExecFns;

use crate::element::{
    bfs_of, children_ordered, elem_has, elem_size, elem_val, elem_wf, emitted_pairs, forest_has,
    forest_size, forest_val, forest_wf, lead, same_shell, shift_pairs, siblings_wf, Element,
};
use crate::lemmas::{
    lemma_base_has, lemma_elem_has_props, lemma_forest_absent, lemma_forest_has_index,
    lemma_forest_insert_elem, lemma_forest_only_candidate, lemma_forest_remove_elem,
    lemma_forest_size_insert, lemma_forest_size_update, lemma_forest_update_grow,
    lemma_forest_update_same, lemma_forest_update_shrink, lemma_forest_val_resolve,
    lemma_forest_wf_index, lemma_label_splice, lemma_leaf_has,
};
use crate::util;

verus! {

/// A radix trie: string keys, values of type `T`, stored in a compressed
/// prefix tree whose sibling lists stay ordered by leading character.
pub struct RadixTrie<T> {
    /// The root sentinel; it has an empty label, carries no value, and owns
    /// the top-level sibling list.
    pub entry: Element<T>,
}

/// Outcome of matching a key suffix against an ordered sibling list.
enum FindOutcome {
    /// A sibling's label equals the key exactly.
    ExactMatch(usize),
    /// The sibling's label is a strict prefix of the key: the descend case.
    SiblingIsPrefixOfKey(usize),
    /// The key is a strict prefix of the sibling's label.
    KeyIsPrefixOfSibling(usize),
    /// The key and the sibling share a non-empty prefix shorter than both;
    /// the shared length in characters is carried along.
    PartialOverlap(usize, usize),
    /// A candidate exists at this insertion index but shares no leading
    /// character with the key.
    NoMatch(usize),
    /// Every sibling's leading character sorts before the key's.
    NoCandidate,
}

/// A node standing in parent position during removal: either the root
/// sentinel over a well-formed forest, or a well-formed interior node.
pub open spec fn parent_ok<T>(e: Element<T>) -> bool {
    if e is Base {
        siblings_wf(e.spec_children())
    } else {
        elem_wf(e)
    }
}

/// The pairs a prefix query yields, in order: descend the sibling lists
/// along `prefix`, consuming matched labels into `acc`; once the whole
/// remaining prefix lands inside a single sibling's subtree, the result is
/// that subtree's breadth-first enumeration behind the labels consumed so
/// far.  Anything else matches nothing.
pub open spec fn prefix_pairs<T>(s: Seq<Element<T>>, prefix: Seq<char>, acc: Seq<char>) -> Seq<
    (Seq<char>, T),
>
    decreases prefix.len(),
{
    if exists|i: int| 0 <= i < s.len() && lead(#[trigger] s[i]) == prefix[0] {
        let i = choose|i: int| 0 <= i < s.len() && lead(#[trigger] s[i]) == prefix[0];
        let lab = s[i].spec_label();
        if prefix.is_prefix_of(lab) {
            shift_pairs(acc, bfs_of(s[i]))
        } else if 0 < lab.len() < prefix.len() && lab.is_prefix_of(prefix) {
            prefix_pairs(s[i].spec_children(), prefix.skip(lab.len() as int), acc + lab)
        } else {
            Seq::empty()
        }
    } else {
        Seq::empty()
    }
}

impl<T> View for RadixTrie<T> {
    type V = Map<Seq<char>, T>;

    open spec fn view(&self) -> Map<Seq<char>, T> {
        self.as_map()
    }
}

impl<T> RadixTrie<T> {
    /// The structural invariant: a labelless root sentinel over an ordered,
    /// well-formed forest (sibling lists sorted by leading character with no
    /// duplicates, no branch with fewer than two children).
    pub open spec fn wf(self) -> bool {
        &&& self.entry is Base
        &&& self.entry.spec_label() == Seq::<char>::empty()
        &&& siblings_wf(self.entry.spec_children())
    }

    /// The trie, read as a map from keys to stored values.
    pub open spec fn as_map(self) -> Map<Seq<char>, T> {
        Map::new(
            |k: Seq<char>| elem_has(self.entry, k),
            |k: Seq<char>| elem_val(self.entry, k),
        )
    }

    /// Construct an empty trie.
    pub fn new() -> (r: Self)
        ensures
            r.wf(),
            r@ == Map::<Seq<char>, T>::empty(),
    {
        let r = RadixTrie { entry: Element::Base { label: String::new(), children: Vec::new() } };
        proof {
            assert forall|k: Seq<char>| !elem_has(r.entry, k) by {
                lemma_base_has(r.entry, k);
            }
            assert(r.as_map() =~= Map::<Seq<char>, T>::empty());
        }
        r
    }

    /// Classify `label` against the sibling list: which of the six
    /// relationships holds between the key suffix and its best-matching
    /// sibling.
    fn find_from_entry(entry: &Vec<Element<T>>, label: &str) -> (r: FindOutcome)
        requires
            siblings_wf(entry@),
            label@.len() > 0,
        ensures
            match r {
                FindOutcome::NoCandidate => forall|j: int|
                    0 <= j < entry@.len() ==> (lead(#[trigger] entry@[j]) as u32) < (label@[0]
                        as u32),
                FindOutcome::NoMatch(i) => {
                    &&& i < entry@.len()
                    &&& forall|j: int|
                        0 <= j < i ==> (lead(#[trigger] entry@[j]) as u32) < (label@[0] as u32)
                    &&& forall|j: int|
                        i <= j < entry@.len() ==> (lead(#[trigger] entry@[j]) as u32) > (label@[0]
                            as u32)
                },
                FindOutcome::ExactMatch(i) => {
                    &&& i < entry@.len()
                    &&& entry@[i as int].spec_label() == label@
                    &&& lead(entry@[i as int]) == label@[0]
                    &&& forall|j: int|
                        0 <= j < i ==> (lead(#[trigger] entry@[j]) as u32) < (label@[0] as u32)
                    &&& forall|j: int|
                        i < j < entry@.len() ==> (lead(#[trigger] entry@[j]) as u32) > (label@[0]
                            as u32)
                },
                FindOutcome::SiblingIsPrefixOfKey(i) => {
                    &&& i < entry@.len()
                    &&& entry@[i as int].spec_label().is_prefix_of(label@)
                    &&& entry@[i as int].spec_label().len() < label@.len()
                    &&& lead(entry@[i as int]) == label@[0]
                    &&& forall|j: int|
                        0 <= j < i ==> (lead(#[trigger] entry@[j]) as u32) < (label@[0] as u32)
                    &&& forall|j: int|
                        i < j < entry@.len() ==> (lead(#[trigger] entry@[j]) as u32) > (label@[0]
                            as u32)
                },
                FindOutcome::KeyIsPrefixOfSibling(i) => {
                    &&& i < entry@.len()
                    &&& label@.is_prefix_of(entry@[i as int].spec_label())
                    &&& label@.len() < entry@[i as int].spec_label().len()
                    &&& lead(entry@[i as int]) == label@[0]
                    &&& forall|j: int|
                        0 <= j < i ==> (lead(#[trigger] entry@[j]) as u32) < (label@[0] as u32)
                    &&& forall|j: int|
                        i < j < entry@.len() ==> (lead(#[trigger] entry@[j]) as u32) > (label@[0]
                            as u32)
                },
                FindOutcome::PartialOverlap(i, l) => {
                    &&& i < entry@.len()
                    &&& 0 < l < label@.len()
                    &&& l < entry@[i as int].spec_label().len()
                    &&& label@.subrange(0, l as int) == entry@[i as int].spec_label().subrange(
                        0,
                        l as int,
                    )
                    &&& label@[l as int] != entry@[i as int].spec_label()[l as int]
                    &&& lead(entry@[i as int]) == label@[0]
                    &&& forall|j: int|
                        0 <= j < i ==> (lead(#[trigger] entry@[j]) as u32) < (label@[0] as u32)
                    &&& forall|j: int|
                        i < j < entry@.len() ==> (lead(#[trigger] entry@[j]) as u32) > (label@[0]
                            as u32)
                },
            },
    {
        proof {
            lemma_forest_wf_index(entry@);
        }
        let c = util::first_char(label);
        let idx = util::binary_search(c, entry.as_slice());
        if idx >= entry.len() {
            return FindOutcome::NoCandidate;
        }
        let target = entry[idx].label();
        let l = util::shared_prefix_len(target, label);
        let tlen = target.unicode_len();
        let klen = label.unicode_len();
        if l == 0 {
            proof {
                assert(target@[0] != label@[0]);
                assert forall|j: int| idx <= j < entry@.len() implies (lead(
                    #[trigger] entry@[j],
                ) as u32) > (label@[0] as u32) by {
                    if j > idx {
                        assert((lead(entry@[idx as int]) as u32) < (lead(entry@[j]) as u32));
                    }
                }
            }
            FindOutcome::NoMatch(idx)
        } else {
            proof {
                assert(lead(entry@[idx as int]) == label@[0]);
                assert forall|j: int| idx < j < entry@.len() implies (lead(
                    #[trigger] entry@[j],
                ) as u32) > (label@[0] as u32) by {
                    assert((lead(entry@[idx as int]) as u32) < (lead(entry@[j]) as u32));
                }
            }
            if l == tlen && l == klen {
                proof {
                    assert(target@ =~= label@);
                }
                FindOutcome::ExactMatch(idx)
            } else if l == tlen {
                proof {
                    assert(target@ =~= label@.subrange(0, target@.len() as int));
                }
                FindOutcome::SiblingIsPrefixOfKey(idx)
            } else if l == klen {
                proof {
                    assert(label@ =~= target@.subrange(0, label@.len() as int));
                }
                FindOutcome::KeyIsPrefixOfSibling(idx)
            } else {
                proof {
                    assert(label@.subrange(0, l as int) =~= target@.subrange(0, l as int));
                }
                FindOutcome::PartialOverlap(idx, l)
            }
        }
    }

    /// The new key terminates above an existing sibling: replace that
    /// sibling by a new value node labelled with the key, carrying the
    /// label-stripped sibling as its only child.
    fn insert_prefix_node(entry: &mut Vec<Element<T>>, index: usize, label: &str, value: T)
        requires
            siblings_wf(old(entry)@),
            index < old(entry)@.len(),
            label@.len() > 0,
            label@.is_prefix_of(old(entry)@[index as int].spec_label()),
            label@.len() < old(entry)@[index as int].spec_label().len(),
        ensures
            siblings_wf(final(entry)@),
            final(entry)@.len() == old(entry)@.len(),
            forest_size(final(entry)@) == forest_size(old(entry)@) + 1,
            forall|k: Seq<char>|
                #![trigger forest_has(final(entry)@, k)]
                #![trigger forest_has(old(entry)@, k)]
                forest_has(final(entry)@, k) <==> (forest_has(old(entry)@, k) || k == label@),
            forest_val(final(entry)@, label@) == value,
            forall|k: Seq<char>|
                k != label@ && #[trigger] forest_has(old(entry)@, k) ==> forest_val(
                    final(entry)@,
                    k,
                ) == forest_val(old(entry)@, k),
    {
        let ghost s = entry@;
        let ghost oldt = s[index as int];
        proof {
            lemma_forest_wf_index(s);
        }
        let klen = label.unicode_len();
        let mut origin = entry.remove(index);
        origin.remove_label_prefix(klen);
        let ghost orig1 = origin;
        let mut children: Vec<Element<T>> = Vec::new();
        children.push(origin);
        let x = util::value_element(label, value, children);
        let ghost gx = x;
        entry.insert(index, x);
        proof {
            s.remove_ensures(index as int);
            s.remove(index as int).insert_ensures(index as int, gx);
            assert(entry@ =~= s.update(index as int, gx));
            assert(oldt.spec_label() =~= label@ + orig1.spec_label());
            assert(elem_wf(orig1));
            assert(elem_wf(gx)) by {
                assert(gx.spec_children() =~= seq![orig1]);
                lemma_forest_wf_index(gx.spec_children());
            }
            assert forall|k: Seq<char>| #[trigger] elem_has(gx, k) == (elem_has(oldt, k) || k
                == label@) by {
                lemma_label_splice(orig1, oldt, label@, k);
                assert(gx.spec_children().drop_first() =~= Seq::<Element<T>>::empty());
                if label@.is_prefix_of(k) {
                    let rest = k.skip(label@.len() as int);
                    if rest.len() == 0 {
                        assert(k =~= label@);
                    } else {
                        lemma_forest_has_index(gx.spec_children(), rest);
                        assert(forest_has(gx.spec_children(), rest) == elem_has(orig1, rest));
                    }
                }
                if k == label@ {
                    assert(label@.is_prefix_of(k)) by {
                        assert(label@ =~= k.subrange(0, label@.len() as int));
                    }
                    assert(k.skip(label@.len() as int).len() == 0);
                }
                if elem_has(oldt, k) {
                    lemma_elem_has_props(oldt, k);
                    assert(label@.is_prefix_of(k)) by {
                        assert(label@ =~= k.subrange(0, label@.len() as int));
                    }
                }
            }
            assert(elem_val(gx, label@) == value) by {
                assert(label@.skip(label@.len() as int).len() == 0);
            }
            assert forall|k: Seq<char>| k != label@ && #[trigger] elem_has(oldt, k) implies
                elem_val(gx, k) == elem_val(oldt, k) by {
                lemma_label_splice(orig1, oldt, label@, k);
                let rest = k.skip(label@.len() as int);
                assert(rest.len() > 0) by {
                    if rest.len() == 0 {
                        assert(k =~= label@);
                    }
                }
                assert(elem_has(orig1, rest));
                lemma_forest_has_index(gx.spec_children(), rest);
                assert(forest_val(gx.spec_children(), rest) == elem_val(orig1, rest));
            }
            assert(lead(gx) == label@[0] && lead(oldt) == label@[0]) by {
                assert(oldt.spec_label()[0] == label@[0]);
            }
            lemma_forest_update_grow(s, index as int, gx, label@);
            assert(elem_size(gx) == elem_size(oldt) + 1) by {
                assert(gx.spec_children()[0] == orig1);
                assert(gx.spec_children().drop_first() =~= Seq::<Element<T>>::empty());
                assert(forest_size(Seq::<Element<T>>::empty()) == 0);
                assert(forest_size(gx.spec_children()) == elem_size(orig1));
            }
            lemma_forest_size_update(s, index as int, gx);
        }
    }

    /// Two labels overlap without either being a prefix of the other: hang
    /// the stripped original and the new value node under a fresh branch
    /// labelled with the shared prefix.
    fn join_intersected_nodes(original: Element<T>, new: Element<T>, shared_prefix: String) -> (r:
        Element<T>)
        requires
            elem_wf(original),
            shared_prefix@.len() > 0,
            shared_prefix@.is_prefix_of(original.spec_label()),
            shared_prefix@.len() < original.spec_label().len(),
            new is Value,
            new.spec_children().len() == 0,
            new.spec_label().len() > 0,
            new.spec_label()[0] != original.spec_label()[shared_prefix@.len() as int],
        ensures
            elem_wf(r),
            r is Node,
            r.spec_label() == shared_prefix@,
            elem_size(r) == elem_size(original) + 2,
            forall|k: Seq<char>|
                #[trigger] elem_has(r, k) <==> (elem_has(original, k) || k == shared_prefix@
                    + new.spec_label()),
            elem_val(r, shared_prefix@ + new.spec_label()) == new.spec_value().unwrap(),
            forall|k: Seq<char>|
                k != shared_prefix@ + new.spec_label() && #[trigger] elem_has(original, k)
                    ==> elem_val(r, k) == elem_val(original, k),
    {
        let ghost orig0 = original;
        let ghost kk = shared_prefix@ + new.spec_label();
        let mut original = original;
        let n = shared_prefix.as_str().unicode_len();
        original.remove_label_prefix(n);
        let ghost orig1 = original;
        let c1 = util::first_char(original.label());
        let c2 = util::first_char(new.label());
        let ghost gnew = new;
        let mut children: Vec<Element<T>> = Vec::new();
        if (c1 as u32) < (c2 as u32) {
            children.push(original);
            children.push(new);
        } else {
            children.push(new);
            children.push(original);
        }
        let r = Element::Node { label: shared_prefix, children };
        proof {
            let pair = r.spec_children();
            assert(orig0.spec_label() =~= shared_prefix@ + orig1.spec_label());
            assert(elem_wf(orig1));
            assert(elem_wf(gnew)) by {
                lemma_forest_wf_index(gnew.spec_children());
            }
            assert(lead(orig1) == c1 && lead(gnew) == c2);
            assert(c1 != c2) by {
                assert(orig1.spec_label()[0] == orig0.spec_label()[shared_prefix@.len() as int]);
            }
            assert(forest_wf(pair) && children_ordered(pair)) by {
                lemma_forest_wf_index(pair);
                assert(pair.len() == 2);
                assert((lead(pair[0]) as u32) < (lead(pair[1]) as u32));
            }
            let oi: int = if (c1 as u32) < (c2 as u32) {
                0
            } else {
                1
            };
            let ni: int = 1 - oi;
            assert(pair[oi] == orig1 && pair[ni] == gnew);
            assert(kk.skip(shared_prefix@.len() as int) =~= gnew.spec_label());
            assert(shared_prefix@.is_prefix_of(kk)) by {
                assert(shared_prefix@ =~= kk.subrange(0, shared_prefix@.len() as int));
            }
            assert forall|k: Seq<char>| #[trigger] elem_has(r, k) == (elem_has(orig0, k) || k
                == kk) by {
                lemma_label_splice(orig1, orig0, shared_prefix@, k);
                if elem_has(r, k) {
                    let rest = k.skip(shared_prefix@.len() as int);
                    assert(rest.len() > 0);
                    lemma_forest_has_index(pair, rest);
                    let j = choose|j: int| 0 <= j < pair.len() && elem_has(pair[j], rest);
                    if j == ni {
                        lemma_leaf_has(gnew, rest);
                        assert(k =~= shared_prefix@ + rest);
                    }
                }
                if elem_has(orig0, k) {
                    let rest = k.skip(shared_prefix@.len() as int);
                    assert(elem_has(orig1, rest));
                    lemma_elem_has_props(orig1, rest);
                    lemma_forest_has_index(pair, rest);
                    assert(elem_has(r, k));
                }
                if k == kk {
                    let rest = k.skip(shared_prefix@.len() as int);
                    assert(rest =~= gnew.spec_label());
                    lemma_leaf_has(gnew, rest);
                    lemma_forest_has_index(pair, rest);
                    assert(rest.len() > 0);
                    assert(elem_has(r, k));
                }
            }
            assert(elem_val(r, kk) == gnew.spec_value().unwrap()) by {
                let rest = kk.skip(shared_prefix@.len() as int);
                assert(rest =~= gnew.spec_label());
                lemma_leaf_has(gnew, rest);
                lemma_forest_val_resolve(pair, rest, ni);
            }
            assert forall|k: Seq<char>| k != kk && #[trigger] elem_has(orig0, k) implies elem_val(
                r,
                k,
            ) == elem_val(orig0, k) by {
                lemma_label_splice(orig1, orig0, shared_prefix@, k);
                let rest = k.skip(shared_prefix@.len() as int);
                assert(elem_has(orig1, rest));
                lemma_elem_has_props(orig1, rest);
                lemma_forest_val_resolve(pair, rest, oi);
            }
            assert(elem_size(r) == elem_size(orig0) + 2) by {
                assert(pair.drop_first()[0] == pair[1]);
                assert(pair.drop_first().drop_first() =~= Seq::<Element<T>>::empty());
                assert(forest_size(Seq::<Element<T>>::empty()) == 0);
                assert(forest_size(pair.drop_first()) == elem_size(pair[1]));
                assert(forest_size(pair) == elem_size(pair[0]) + elem_size(pair[1]));
                assert(elem_size(orig1) == elem_size(orig0));
                assert(elem_size(gnew) == 1) by {
                    assert(forest_size(gnew.spec_children()) == 0);
                }
            }
        }
        r
    }

    /// Insert `label` with `value` into an ordered sibling list, splitting or
    /// promoting nodes as the classifier dictates.
    fn insert_into(entry: &mut Vec<Element<T>>, label: &str, value: T)
        requires
            siblings_wf(old(entry)@),
            label@.len() > 0,
        ensures
            siblings_wf(final(entry)@),
            final(entry)@.len() >= old(entry)@.len(),
            forest_size(final(entry)@) <= forest_size(old(entry)@) + 2,
            forall|k: Seq<char>|
                #![trigger forest_has(final(entry)@, k)]
                #![trigger forest_has(old(entry)@, k)]
                forest_has(final(entry)@, k) <==> (forest_has(old(entry)@, k) || k == label@),
            forest_val(final(entry)@, label@) == value,
            forall|k: Seq<char>|
                k != label@ && #[trigger] forest_has(old(entry)@, k) ==> forest_val(
                    final(entry)@,
                    k,
                ) == forest_val(old(entry)@, k),
        decreases label@.len(),
    {
        let ghost s = entry@;
        proof {
            lemma_forest_wf_index(s);
        }
        match Self::find_from_entry(entry, label) {
            FindOutcome::NoCandidate => {
                let x = util::value_element(label, value, Vec::new());
                let ghost gx = x;
                entry.push(x);
                proof {
                    assert(entry@ =~= s.insert(s.len() as int, gx)) by {
                        s.insert_ensures(s.len() as int, gx);
                    }
                    assert(elem_wf(gx));
                    assert forall|k: Seq<char>| #[trigger] elem_has(gx, k) == (k == label@) by {
                        lemma_leaf_has(gx, k);
                    }
                    lemma_leaf_has(gx, label@);
                    lemma_forest_insert_elem(s, s.len() as int, gx, label@);
                    assert(elem_size(gx) == 1) by {
                        assert(forest_size(gx.spec_children()) == 0);
                    }
                    lemma_forest_size_insert(s, s.len() as int, gx);
                }
            },
            FindOutcome::NoMatch(i) => {
                let x = util::value_element(label, value, Vec::new());
                let ghost gx = x;
                entry.insert(i, x);
                proof {
                    assert(elem_wf(gx));
                    assert forall|k: Seq<char>| #[trigger] elem_has(gx, k) == (k == label@) by {
                        lemma_leaf_has(gx, k);
                    }
                    lemma_leaf_has(gx, label@);
                    lemma_forest_insert_elem(s, i as int, gx, label@);
                    assert(elem_size(gx) == 1) by {
                        assert(forest_size(gx.spec_children()) == 0);
                    }
                    lemma_forest_size_insert(s, i as int, gx);
                }
            },
            FindOutcome::ExactMatch(i) => {
                let ghost oldt = s[i as int];
                if entry[i].is_node() {
                    let old_elem = entry.remove(i);
                    let children = old_elem.children_own();
                    let x = util::value_element(label, value, children);
                    let ghost gx = x;
                    entry.insert(i, x);
                    proof {
                        s.remove_ensures(i as int);
                        s.remove(i as int).insert_ensures(i as int, gx);
                        assert(entry@ =~= s.update(i as int, gx));
                        Self::lemma_same_label_children(oldt, gx, label@);
                        lemma_forest_update_grow(s, i as int, gx, label@);
                        assert(elem_size(gx) == elem_size(oldt));
                        lemma_forest_size_update(s, i as int, gx);
                    }
                } else {
                    let target = &mut entry[i];
                    let m = target.value_mut();
                    match m {
                        Some(v) => {
                            *v = value;
                        },
                        None => {
                            proof {
                                assert(false);
                            }
                        },
                    }
                    proof {
                        let gx = entry@[i as int];
                        assert(entry@ =~= s.update(i as int, gx));
                        Self::lemma_same_label_children(oldt, gx, label@);
                        lemma_forest_update_grow(s, i as int, gx, label@);
                        assert(elem_size(gx) == elem_size(oldt));
                        lemma_forest_size_update(s, i as int, gx);
                    }
                }
            },
            FindOutcome::KeyIsPrefixOfSibling(i) => {
                Self::insert_prefix_node(entry, i, label, value);
            },
            FindOutcome::PartialOverlap(i, l) => {
                let ghost oldt = s[i as int];
                let shared = {
                    let target_label = entry[i].label();
                    String::from_str(target_label.substring_char(0, l))
                };
                let klen = label.unicode_len();
                let rest_label = label.substring_char(l, klen);
                let new_elem = util::value_element(rest_label, value, Vec::new());
                let origin = entry.remove(i);
                proof {
                    assert(shared@ =~= label@.subrange(0, l as int));
                    assert(shared@.is_prefix_of(oldt.spec_label())) by {
                        assert(shared@ =~= oldt.spec_label().subrange(0, l as int));
                    }
                    assert(rest_label@ =~= label@.skip(l as int));
                    assert(shared@ + rest_label@ =~= label@);
                }
                let x = Self::join_intersected_nodes(origin, new_elem, shared);
                let ghost gx = x;
                entry.insert(i, x);
                proof {
                    s.remove_ensures(i as int);
                    s.remove(i as int).insert_ensures(i as int, gx);
                    assert(entry@ =~= s.update(i as int, gx));
                    assert(lead(gx) == label@[0] && lead(oldt) == label@[0]) by {
                        assert(oldt.spec_label()[0] == label@[0]);
                    }
                    lemma_forest_update_grow(s, i as int, gx, label@);
                    assert(elem_size(gx) == elem_size(oldt) + 2);
                    lemma_forest_size_update(s, i as int, gx);
                }
            },
            FindOutcome::SiblingIsPrefixOfKey(i) => {
                let ghost oldt = s[i as int];
                let tlen = entry[i].label().unicode_len();
                let klen = label.unicode_len();
                let rest = label.substring_char(tlen, klen);
                proof {
                    assert(rest@ =~= label@.skip(tlen as int));
                }
                let target = &mut entry[i];
                let children = target.children_mut();
                Self::insert_into(children, rest, value);
                proof {
                    let gx = entry@[i as int];
                    assert(entry@ =~= s.update(i as int, gx));
                    Self::lemma_descend_grow(oldt, gx, label@, rest@, value);
                    lemma_forest_update_grow(s, i as int, gx, label@);
                    assert(elem_size(gx) <= elem_size(oldt) + 2) by {
                        assert(forest_size(gx.spec_children()) <= forest_size(oldt.spec_children())
                            + 2);
                    }
                    lemma_forest_size_update(s, i as int, gx);
                }
            },
        }
    }

    /// After an in-place value write or a branch promotion, the node holds
    /// its old keys plus its own label, with other stored values untouched.
    proof fn lemma_same_label_children(oldt: Element<T>, gx: Element<T>, kk: Seq<char>)
        requires
            elem_wf(oldt),
            gx is Value,
            gx.spec_label() == oldt.spec_label(),
            gx.spec_label() == kk,
            gx.spec_children() == oldt.spec_children(),
            lead(oldt) == kk[0],
        ensures
            elem_wf(gx),
            lead(gx) == kk[0],
            kk.len() > 0,
            forall|k: Seq<char>| #[trigger] elem_has(gx, k) <==> (elem_has(oldt, k) || k == kk),
            elem_val(gx, kk) == gx.spec_value().unwrap(),
            forall|k: Seq<char>|
                k != kk && #[trigger] elem_has(oldt, k) ==> elem_val(gx, k) == elem_val(oldt, k),
    {
        assert forall|k: Seq<char>| #[trigger] elem_has(gx, k) == (elem_has(oldt, k) || k == kk)
            by {
            if kk.is_prefix_of(k) {
                let rest = k.skip(kk.len() as int);
                if rest.len() == 0 {
                    assert(k =~= kk);
                }
            }
            if k == kk {
                assert(kk.is_prefix_of(k)) by {
                    assert(kk =~= k.subrange(0, kk.len() as int));
                }
                assert(k.skip(kk.len() as int).len() == 0);
            }
        }
        assert(elem_val(gx, kk) == gx.spec_value().unwrap()) by {
            assert(kk.is_prefix_of(kk)) by {
                assert(kk =~= kk.subrange(0, kk.len() as int));
            }
            assert(kk.skip(kk.len() as int).len() == 0);
        }
        assert forall|k: Seq<char>| k != kk && #[trigger] elem_has(oldt, k) implies elem_val(gx, k)
            == elem_val(oldt, k) by {
            let rest = k.skip(kk.len() as int);
            assert(rest.len() > 0) by {
                if rest.len() == 0 {
                    assert(k =~= kk);
                }
            }
        }
    }

    /// Lifting a child-list edit through an unchanged node shell: the node
    /// gains exactly the key `kk`, whose suffix past the label is `rest`.
    proof fn lemma_descend_grow(
        oldt: Element<T>,
        gx: Element<T>,
        kk: Seq<char>,
        rest: Seq<char>,
        value: T,
    )
        requires
            elem_wf(oldt),
            same_shell(gx, oldt),
            oldt.spec_label().is_prefix_of(kk),
            rest == kk.skip(oldt.spec_label().len() as int),
            rest.len() > 0,
            siblings_wf(gx.spec_children()),
            gx.spec_children().len() >= oldt.spec_children().len(),
            forall|k: Seq<char>|
                #![trigger forest_has(gx.spec_children(), k)]
                #![trigger forest_has(oldt.spec_children(), k)]
                forest_has(gx.spec_children(), k) <==> (forest_has(oldt.spec_children(), k) || k
                    == rest),
            forest_val(gx.spec_children(), rest) == value,
            forall|k: Seq<char>|
                k != rest && #[trigger] forest_has(oldt.spec_children(), k) ==> forest_val(
                    gx.spec_children(),
                    k,
                ) == forest_val(oldt.spec_children(), k),
        ensures
            elem_wf(gx),
            lead(gx) == lead(oldt),
            kk.len() > 0,
            kk[0] == lead(oldt),
            forall|k: Seq<char>| #[trigger] elem_has(gx, k) <==> (elem_has(oldt, k) || k == kk),
            elem_val(gx, kk) == value,
            forall|k: Seq<char>|
                k != kk && #[trigger] elem_has(oldt, k) ==> elem_val(gx, k) == elem_val(oldt, k),
    {
        let lab = oldt.spec_label();
        assert(kk =~= lab + rest);
        assert(kk[0] == lab[0]);
        assert forall|k: Seq<char>| #[trigger] elem_has(gx, k) == (elem_has(oldt, k) || k == kk)
            by {
            if lab.is_prefix_of(k) {
                let r = k.skip(lab.len() as int);
                if r.len() == 0 {
                    assert(elem_has(gx, k) == elem_has(oldt, k));
                    assert(k != kk) by {
                        assert(k.len() == lab.len() < kk.len());
                    }
                } else {
                    assert(forest_has(gx.spec_children(), r) == (forest_has(
                        oldt.spec_children(),
                        r,
                    ) || r == rest));
                    assert(k == kk <==> r == rest) by {
                        if r == rest {
                            assert(k =~= lab + r);
                        }
                    }
                }
            } else {
                if k == kk {
                    assert(lab.is_prefix_of(kk));
                }
            }
        }
        assert(elem_val(gx, kk) == value) by {
            assert(lab.is_prefix_of(kk));
            assert(kk.skip(lab.len() as int) == rest);
        }
        assert forall|k: Seq<char>| k != kk && #[trigger] elem_has(oldt, k) implies elem_val(gx, k)
            == elem_val(oldt, k) by {
            let r = k.skip(lab.len() as int);
            if r.len() > 0 {
                assert(forest_has(oldt.spec_children(), r));
                assert(r != rest) by {
                    if r == rest {
                        assert(k =~= lab + r);
                    }
                }
                assert(forest_val(gx.spec_children(), r) == forest_val(oldt.spec_children(), r));
            }
        }
    }

    /// Lifting a child-list edit through an unchanged node shell: the node
    /// loses exactly the key `kk`, whose suffix past the label is `rest`.
    proof fn lemma_descend_shrink(oldt: Element<T>, gx: Element<T>, kk: Seq<char>, rest: Seq<char>)
        requires
            same_shell(gx, oldt),
            oldt.spec_label().is_prefix_of(kk),
            rest == kk.skip(oldt.spec_label().len() as int),
            rest.len() > 0,
            forall|k: Seq<char>|
                #![trigger forest_has(gx.spec_children(), k)]
                #![trigger forest_has(oldt.spec_children(), k)]
                forest_has(gx.spec_children(), k) <==> (forest_has(oldt.spec_children(), k) && k
                    != rest),
            forall|k: Seq<char>|
                k != rest && #[trigger] forest_has(oldt.spec_children(), k) ==> forest_val(
                    gx.spec_children(),
                    k,
                ) == forest_val(oldt.spec_children(), k),
        ensures
            forall|k: Seq<char>| #[trigger] elem_has(gx, k) <==> (elem_has(oldt, k) && k != kk),
            forall|k: Seq<char>|
                k != kk && #[trigger] elem_has(oldt, k) ==> elem_val(gx, k) == elem_val(oldt, k),
    {
        let lab = oldt.spec_label();
        assert(kk =~= lab + rest);
        assert forall|k: Seq<char>| #[trigger] elem_has(gx, k) == (elem_has(oldt, k) && k != kk)
            by {
            if lab.is_prefix_of(k) {
                let r = k.skip(lab.len() as int);
                if r.len() == 0 {
                    assert(elem_has(gx, k) == elem_has(oldt, k));
                    assert(k != kk) by {
                        assert(k.len() == lab.len() < kk.len());
                    }
                } else {
                    assert(forest_has(gx.spec_children(), r) == (forest_has(
                        oldt.spec_children(),
                        r,
                    ) && r != rest));
                    assert(k == kk <==> r == rest) by {
                        if r == rest {
                            assert(k =~= lab + r);
                        }
                    }
                }
            } else {
                if k == kk {
                    assert(lab.is_prefix_of(kk));
                }
            }
        }
        assert forall|k: Seq<char>| k != kk && #[trigger] elem_has(oldt, k) implies elem_val(gx, k)
            == elem_val(oldt, k) by {
            let r = k.skip(lab.len() as int);
            if r.len() > 0 {
                assert(forest_has(oldt.spec_children(), r));
                assert(r != rest) by {
                    if r == rest {
                        assert(k =~= lab + r);
                    }
                }
                assert(forest_val(gx.spec_children(), r) == forest_val(oldt.spec_children(), r));
            }
        }
    }

    /// Remove `label` from the subtree under `e` (`e` itself may be the root
    /// sentinel or any interior node), re-merging any chain that the removal
    /// leaves needlessly split, including through `e` itself.
    fn remove_from(e: &mut Element<T>, label: &str) -> (r: Option<T>)
        requires
            parent_ok(*old(e)),
            label@.len() > 0,
        ensures
            parent_ok(*final(e)),
            *final(e) is Base <==> *old(e) is Base,
            *old(e) is Base ==> final(e).spec_label() == old(e).spec_label(),
            old(e).spec_label().is_prefix_of(final(e).spec_label()),
            r is Some <==> elem_has(*old(e), old(e).spec_label() + label@),
            r matches Some(v) ==> v == elem_val(*old(e), old(e).spec_label() + label@),
            forall|k: Seq<char>|
                #![trigger elem_has(*final(e), k)]
                #![trigger elem_has(*old(e), k)]
                elem_has(*final(e), k) <==> (elem_has(*old(e), k) && k != old(e).spec_label()
                    + label@),
            forall|k: Seq<char>|
                k != old(e).spec_label() + label@ && #[trigger] elem_has(*old(e), k) ==> elem_val(
                    *final(e),
                    k,
                ) == elem_val(*old(e), k),
        decreases label@.len(),
    {
        let ghost e0 = *e;
        let ghost s = e0.spec_children();
        let ghost lab0 = e0.spec_label();
        let ghost kk = lab0 + label@;
        proof {
            lemma_forest_wf_index(s);
            assert(lab0.is_prefix_of(kk)) by {
                assert(lab0 =~= kk.subrange(0, lab0.len() as int));
            }
            assert(kk.skip(lab0.len() as int) =~= label@);
        }
        let parent_is_node = e.is_node();
        let out = Self::find_from_entry(e.children(), label);
        match out {
            FindOutcome::NoCandidate => {
                proof {
                    lemma_forest_absent(s, label@);
                }
                None
            },
            FindOutcome::NoMatch(_i) => {
                proof {
                    lemma_forest_absent(s, label@);
                }
                None
            },
            FindOutcome::KeyIsPrefixOfSibling(i) => {
                proof {
                    lemma_forest_only_candidate(s, label@, i as int);
                    assert(!elem_has(s[i as int], label@));
                }
                None
            },
            FindOutcome::PartialOverlap(i, l) => {
                proof {
                    lemma_forest_only_candidate(s, label@, i as int);
                    let t = s[i as int];
                    assert(!elem_has(t, label@)) by {
                        if t.spec_label().is_prefix_of(label@) {
                            assert(label@[l as int] == t.spec_label()[l as int]);
                        }
                    }
                }
                None
            },
            FindOutcome::ExactMatch(i) => {
                let ghost oldt = s[i as int];
                proof {
                    lemma_forest_only_candidate(s, label@, i as int);
                    assert(label@.is_prefix_of(label@)) by {
                        assert(label@ =~= label@.subrange(0, label@.len() as int));
                    }
                    assert(label@.skip(label@.len() as int).len() == 0);
                    assert(elem_has(oldt, label@) == (oldt is Value));
                }
                let cs = e.children_mut();
                let removed = cs.remove(i);
                let unpacked = removed.unpack();
                let lab = unpacked.0;
                let val = unpacked.1;
                let mut orphans = unpacked.2;
                let orphan_count = orphans.len();
                if orphan_count > 1 {
                    let x = Element::Node { label: lab, children: orphans };
                    let ghost gx = x;
                    cs.insert(i, x);
                    proof {
                        s.remove_ensures(i as int);
                        s.remove(i as int).insert_ensures(i as int, gx);
                        assert(cs@ =~= s.update(i as int, gx));
                        assert(elem_wf(gx));
                        assert forall|k: Seq<char>| #[trigger] elem_has(gx, k) == (elem_has(
                            oldt,
                            k,
                        ) && k != label@) by {
                            if label@.is_prefix_of(k) {
                                let rest2 = k.skip(label@.len() as int);
                                if rest2.len() == 0 {
                                    assert(k =~= label@);
                                } else {
                                    assert(k != label@) by {
                                        assert(k.len() > label@.len());
                                    }
                                }
                            }
                        }
                        assert forall|k: Seq<char>| k != label@ && #[trigger] elem_has(oldt, k)
                            implies elem_val(gx, k) == elem_val(oldt, k) by {
                            let rest2 = k.skip(label@.len() as int);
                            assert(rest2.len() > 0) by {
                                if rest2.len() == 0 {
                                    assert(k =~= label@);
                                }
                            }
                        }
                        lemma_forest_update_shrink(s, i as int, gx, label@);
                    }
                } else if orphan_count == 1 {
                    let mut child = orphans.pop().unwrap();
                    let ghost c0 = child;
                    child.add_label_prefix(lab.as_str());
                    let ghost c1 = child;
                    cs.insert(i, child);
                    proof {
                        s.remove_ensures(i as int);
                        s.remove(i as int).insert_ensures(i as int, c1);
                        assert(cs@ =~= s.update(i as int, c1));
                        assert(oldt is Value);
                        assert(oldt.spec_children() =~= seq![c0]);
                        assert(elem_wf(c0)) by {
                            lemma_forest_wf_index(oldt.spec_children());
                        }
                        assert(elem_wf(c1));
                        assert(lead(c1) == lead(oldt)) by {
                            assert(c1.spec_label()[0] == label@[0]);
                        }
                        assert forall|k: Seq<char>| #[trigger] elem_has(c1, k) == (elem_has(
                            oldt,
                            k,
                        ) && k != label@) by {
                            lemma_label_splice(c0, c1, label@, k);
                            lemma_forest_has_index(oldt.spec_children(), k.skip(label@.len() as int));
                            if label@.is_prefix_of(k) {
                                let rest2 = k.skip(label@.len() as int);
                                if rest2.len() == 0 {
                                    assert(k =~= label@);
                                    assert(!elem_has(c1, k)) by {
                                        assert(c1.spec_label().len() > k.len());
                                    }
                                } else {
                                    assert(k != label@) by {
                                        assert(k.len() > label@.len());
                                    }
                                }
                            } else {
                                assert(!elem_has(c1, k)) by {
                                    if elem_has(c1, k) {
                                        assert(label@.is_prefix_of(k));
                                    }
                                }
                            }
                        }
                        assert forall|k: Seq<char>| k != label@ && #[trigger] elem_has(oldt, k)
                            implies elem_val(c1, k) == elem_val(oldt, k) by {
                            lemma_label_splice(c0, c1, label@, k);
                            let rest2 = k.skip(label@.len() as int);
                            assert(rest2.len() > 0) by {
                                if rest2.len() == 0 {
                                    assert(k =~= label@);
                                }
                            }
                            lemma_forest_has_index(oldt.spec_children(), rest2);
                            assert(elem_has(c0, rest2));
                            assert(forest_val(oldt.spec_children(), rest2) == elem_val(c0, rest2));
                        }
                        lemma_forest_update_shrink(s, i as int, c1, label@);
                    }
                } else {
                    proof {
                        assert(oldt is Value);
                        assert forall|k: Seq<char>| #[trigger] elem_has(oldt, k) == (k == label@)
                            by {
                            lemma_leaf_has(oldt, k);
                        }
                        lemma_forest_remove_elem(s, i as int, label@);
                        assert(cs@ =~= s.remove(i as int));
                    }
                }
                let ghost s2 = cs@;
                proof {
                    lemma_forest_wf_index(s2);
                    assert(siblings_wf(s2));
                    assert(forall|k: Seq<char>|
                        #![trigger forest_has(s2, k)]
                        #![trigger forest_has(s, k)]
                        forest_has(s2, k) <==> (forest_has(s, k) && k != label@));
                    assert(forall|k: Seq<char>|
                        k != label@ && #[trigger] forest_has(s, k) ==> forest_val(s2, k)
                            == forest_val(s, k));
                }
                if cs.len() == 1 && parent_is_node {
                    let mut another = cs.pop().unwrap();
                    let ghost c = another;
                    another.add_label_prefix(e.label());
                    *e = another;
                    proof {
                        assert(c == s2[0]);
                        assert(elem_wf(c));
                        assert(e.spec_label() == lab0 + c.spec_label());
                        assert(elem_wf(*e));
                        assert(lab0.is_prefix_of(e.spec_label())) by {
                            assert(lab0 =~= e.spec_label().subrange(0, lab0.len() as int));
                        }
                        assert forall|k: Seq<char>| #[trigger] elem_has(*e, k) == (elem_has(
                            e0,
                            k,
                        ) && k != kk) by {
                            lemma_label_splice(c, *e, lab0, k);
                            if lab0.is_prefix_of(k) {
                                let r2 = k.skip(lab0.len() as int);
                                if r2.len() == 0 {
                                    assert(!elem_has(e0, k));
                                    assert(!elem_has(*e, k)) by {
                                        if elem_has(*e, k) {
                                            lemma_elem_has_props(c, r2);
                                        }
                                    }
                                } else {
                                    lemma_forest_has_index(s, r2);
                                    lemma_forest_has_index(s2, r2);
                                    assert(forest_has(s2, r2) == elem_has(c, r2));
                                    assert(k == kk <==> r2 == label@) by {
                                        if r2 == label@ {
                                            assert(k =~= lab0 + r2);
                                        }
                                    }
                                }
                            } else {
                                if k == kk {
                                    assert(lab0.is_prefix_of(kk));
                                }
                            }
                        }
                        assert forall|k: Seq<char>| k != kk && #[trigger] elem_has(e0, k) implies
                            elem_val(*e, k) == elem_val(e0, k) by {
                            lemma_label_splice(c, *e, lab0, k);
                            let r2 = k.skip(lab0.len() as int);
                            assert(r2.len() > 0);
                            assert(r2 != label@) by {
                                if r2 == label@ {
                                    assert(k =~= lab0 + r2);
                                }
                            }
                            assert(forest_has(s, r2));
                            assert(forest_val(s2, r2) == forest_val(s, r2));
                            assert(elem_has(c, r2)) by {
                                lemma_forest_has_index(s2, r2);
                            }
                            assert(forest_val(s2, r2) == elem_val(c, r2));
                        }
                    }
                } else {
                    proof {
                        Self::lemma_descend_shrink(e0, *e, kk, label@);
                        assert(parent_ok(*e)) by {
                            if !(e0 is Base) {
                                if e0 is Node {
                                    assert(s.len() >= 2);
                                    assert(s2.len() >= 2) by {
                                        if orphan_count == 0 {
                                            assert(s2.len() == s.len() - 1);
                                        }
                                    }
                                }
                            }
                        }
                        assert(lab0.is_prefix_of(e.spec_label())) by {
                            assert(lab0 =~= e.spec_label().subrange(0, lab0.len() as int));
                        }
                    }
                }
                proof {
                    assert(elem_has(e0, kk) == forest_has(s, label@));
                    if oldt is Value {
                        lemma_forest_val_resolve(s, label@, i as int);
                        assert(elem_val(e0, kk) == elem_val(oldt, label@));
                    }
                }
                val
            },
            FindOutcome::SiblingIsPrefixOfKey(i) => {
                let ghost oldt = s[i as int];
                let tlen = {
                    let cs_read = e.children();
                    cs_read[i].label().unicode_len()
                };
                let klen = label.unicode_len();
                let rest = label.substring_char(tlen, klen);
                proof {
                    lemma_forest_only_candidate(s, label@, i as int);
                    assert(rest@ =~= label@.skip(tlen as int));
                    assert(oldt.spec_label() + rest@ =~= label@);
                }
                let cs = e.children_mut();
                let target = &mut cs[i];
                let r = Self::remove_from(target, rest);
                proof {
                    let gx = e.spec_children()[i as int];
                    assert(e.spec_children() =~= s.update(i as int, gx));
                    assert(elem_wf(gx));
                    assert(lead(gx) == lead(oldt)) by {
                        assert(gx.spec_label()[0] == oldt.spec_label()[0]);
                    }
                    assert(forall|k: Seq<char>|
                        #![trigger elem_has(gx, k)]
                        #![trigger elem_has(oldt, k)]
                        elem_has(gx, k) <==> (elem_has(oldt, k) && k != label@));
                    lemma_forest_update_shrink(s, i as int, gx, label@);
                    Self::lemma_descend_shrink(e0, *e, kk, label@);
                    assert(parent_ok(*e)) by {
                        if e0 is Node {
                            assert(s.len() >= 2);
                        }
                    }
                    assert(lab0.is_prefix_of(e.spec_label())) by {
                        assert(lab0 =~= e.spec_label().subrange(0, lab0.len() as int));
                    }
                    assert(elem_has(e0, kk) == forest_has(s, label@));
                    assert(elem_has(oldt, label@) == forest_has(s, label@));
                    if elem_has(oldt, label@) {
                        lemma_forest_val_resolve(s, label@, i as int);
                        assert(elem_val(e0, kk) == elem_val(oldt, label@));
                    }
                }
                r
            },
        }
    }

    /// Insert `label` with `value`; an existing key's value is overwritten,
    /// and the empty string is not stored, so inserting it changes nothing.
    /// One call adds at most two nodes to the tree: the new leaf, plus at
    /// most one branch when two labels must split at a shared prefix.
    pub fn insert(&mut self, label: &str, value: T)
        requires
            old(self).wf(),
        ensures
            final(self).wf(),
            label@.len() > 0 ==> final(self)@ == old(self)@.insert(label@, value),
            label@.len() == 0 ==> *final(self) == *old(self),
            elem_size(final(self).entry) <= elem_size(old(self).entry) + 2,
    {
        if label.is_empty() {
            return ;
        }
        let children = self.entry.children_mut();
        Self::insert_into(children, label, value);
        proof {
            let m0 = old(self).as_map();
            let m1 = self.as_map();
            assert forall|k: Seq<char>|
                #![trigger m1.dom().contains(k)]
                #![trigger m0.dom().contains(k)]
                m1.dom().contains(k) == m0.insert(label@, value).dom().contains(k) by {
                lemma_base_has(old(self).entry, k);
                lemma_base_has(self.entry, k);
            }
            assert forall|k: Seq<char>| #[trigger] m1.dom().contains(k) implies m1[k] == m0.insert(
                label@,
                value,
            )[k] by {
                lemma_base_has(old(self).entry, k);
                lemma_base_has(self.entry, k);
            }
            assert(m1 =~= m0.insert(label@, value));
            assert(elem_size(self.entry) <= elem_size(old(self).entry) + 2);
        }
    }

    /// Remove `label` and return its stored value; an absent key (or the
    /// empty string) yields `None` and leaves every other key's value as it
    /// was.
    pub fn remove(&mut self, label: &str) -> (r: Option<T>)
        requires
            old(self).wf(),
        ensures
            final(self).wf(),
            final(self)@ == old(self)@.remove(label@),
            r is Some <==> old(self)@.dom().contains(label@),
            r matches Some(v) ==> v == old(self)@[label@],
    {
        proof {
            lemma_base_has(old(self).entry, label@);
        }
        if label.is_empty() {
            proof {
                let m0 = old(self).as_map();
                assert(m0 =~= m0.remove(label@));
            }
            return None;
        }
        let r = Self::remove_from(&mut self.entry, label);
        proof {
            assert(Seq::<char>::empty() + label@ =~= label@);
            let m0 = old(self).as_map();
            let m1 = self.as_map();
            assert forall|k: Seq<char>|
                #![trigger m1.dom().contains(k)]
                #![trigger m0.dom().contains(k)]
                m1.dom().contains(k) == m0.remove(label@).dom().contains(k) by {
                lemma_base_has(old(self).entry, k);
                lemma_base_has(self.entry, k);
            }
            assert forall|k: Seq<char>| #[trigger] m1.dom().contains(k) implies m1[k] == m0.remove(
                label@,
            )[k] by {
                lemma_base_has(old(self).entry, k);
                lemma_base_has(self.entry, k);
            }
            assert(m1 =~= m0.remove(label@));
        }
        r
    }

    /// Lifting an edit that left the child forest's keys and stored values
    /// unchanged through an unchanged node shell.
    proof fn lemma_descend_same(oldt: Element<T>, gx: Element<T>)
        requires
            same_shell(gx, oldt),
            forall|k: Seq<char>|
                #![trigger forest_has(gx.spec_children(), k)]
                #![trigger forest_has(oldt.spec_children(), k)]
                forest_has(gx.spec_children(), k) <==> forest_has(oldt.spec_children(), k),
            forall|k: Seq<char>|
                #[trigger] forest_has(oldt.spec_children(), k) ==> forest_val(
                    gx.spec_children(),
                    k,
                ) == forest_val(oldt.spec_children(), k),
        ensures
            forall|k: Seq<char>| #[trigger] elem_has(gx, k) <==> elem_has(oldt, k),
            forall|k: Seq<char>|
                #[trigger] elem_has(oldt, k) ==> elem_val(gx, k) == elem_val(oldt, k),
    {
        let lab = oldt.spec_label();
        assert forall|k: Seq<char>| #[trigger] elem_has(gx, k) == elem_has(oldt, k) by {
            if lab.is_prefix_of(k) {
                let r = k.skip(lab.len() as int);
                if r.len() > 0 {
                    assert(forest_has(gx.spec_children(), r) == forest_has(
                        oldt.spec_children(),
                        r,
                    ));
                }
            }
        }
        assert forall|k: Seq<char>| #[trigger] elem_has(oldt, k) implies elem_val(gx, k)
            == elem_val(oldt, k) by {
            let r = k.skip(lab.len() as int);
            if r.len() > 0 {
                assert(forest_has(oldt.spec_children(), r));
                assert(forest_val(gx.spec_children(), r) == forest_val(oldt.spec_children(), r));
            }
        }
    }

    /// Look `label` up in an ordered sibling list, yielding a mutable
    /// borrow of its stored value; only that key's value can change through
    /// the borrow.
    fn find_mut_in<'a>(entry: &'a mut Vec<Element<T>>, label: &str) -> (r: Option<&'a mut T>)
        requires
            siblings_wf(old(entry)@),
            label@.len() > 0,
        ensures
            r is Some <==> forest_has(old(entry)@, label@),
            siblings_wf(final(entry)@),
            final(entry)@.len() == old(entry)@.len(),
            forall|k: Seq<char>|
                #![trigger forest_has(final(entry)@, k)]
                #![trigger forest_has(old(entry)@, k)]
                forest_has(final(entry)@, k) <==> forest_has(old(entry)@, k),
            forall|k: Seq<char>|
                k != label@ && #[trigger] forest_has(old(entry)@, k) ==> forest_val(
                    final(entry)@,
                    k,
                ) == forest_val(old(entry)@, k),
            r is Some ==> *r.unwrap() == forest_val(old(entry)@, label@) && forest_val(
                final(entry)@,
                label@,
            ) == *final(r.unwrap()),
            r is None ==> forall|k: Seq<char>|
                #[trigger] forest_has(old(entry)@, k) ==> forest_val(final(entry)@, k)
                    == forest_val(old(entry)@, k),
        decreases label@.len(),
    {
        let ghost s = entry@;
        proof {
            lemma_forest_wf_index(s);
        }
        match Self::find_from_entry(entry, label) {
            FindOutcome::NoCandidate => {
                proof {
                    lemma_forest_absent(s, label@);
                }
                None
            },
            FindOutcome::NoMatch(_i) => {
                proof {
                    lemma_forest_absent(s, label@);
                }
                None
            },
            FindOutcome::KeyIsPrefixOfSibling(i) => {
                proof {
                    lemma_forest_only_candidate(s, label@, i as int);
                    assert(!elem_has(s[i as int], label@));
                }
                None
            },
            FindOutcome::PartialOverlap(i, l) => {
                proof {
                    lemma_forest_only_candidate(s, label@, i as int);
                    let t = s[i as int];
                    assert(!elem_has(t, label@)) by {
                        if t.spec_label().is_prefix_of(label@) {
                            assert(label@[l as int] == t.spec_label()[l as int]);
                        }
                    }
                }
                None
            },
            FindOutcome::ExactMatch(i) => {
                let ghost oldt = s[i as int];
                proof {
                    lemma_forest_only_candidate(s, label@, i as int);
                    assert(label@.is_prefix_of(label@)) by {
                        assert(label@ =~= label@.subrange(0, label@.len() as int));
                    }
                    assert(label@.skip(label@.len() as int).len() == 0);
                    assert(elem_has(oldt, label@) == (oldt is Value));
                }
                let target = &mut entry[i];
                let m = target.value_mut();
                proof {
                    let gx = after_borrow(*target);
                    if oldt is Value {
                        Self::lemma_same_label_children(oldt, gx, label@);
                        lemma_forest_update_grow(s, i as int, gx, label@);
                        lemma_forest_val_resolve(s, label@, i as int);
                    } else {
                        Self::lemma_descend_same(oldt, gx);
                        lemma_forest_update_same(s, i as int, gx);
                    }
                }
                m
            },
            FindOutcome::SiblingIsPrefixOfKey(i) => {
                let ghost oldt = s[i as int];
                let tlen = entry[i].label().unicode_len();
                let klen = label.unicode_len();
                let rest = label.substring_char(tlen, klen);
                proof {
                    lemma_forest_only_candidate(s, label@, i as int);
                    assert(rest@ =~= label@.skip(tlen as int));
                    assert(oldt.spec_label() + rest@ =~= label@);
                }
                let target = &mut entry[i];
                let cs = target.children_mut();
                let m = Self::find_mut_in(cs, rest);
                proof {
                    let gx = after_borrow(*target);
                    if forest_has(oldt.spec_children(), rest@) {
                        Self::lemma_descend_grow(oldt, gx, label@, rest@, *final(m.unwrap()));
                        lemma_forest_update_grow(s, i as int, gx, label@);
                        lemma_forest_val_resolve(s, label@, i as int);
                    } else {
                        Self::lemma_descend_same(oldt, gx);
                        lemma_forest_update_same(s, i as int, gx);
                        assert(!forest_has(s, label@));
                    }
                }
                m
            },
        }
    }

    /// Look up a mutable borrow of the value stored for `label`; writing
    /// through it changes that key's value and nothing else.
    pub fn find_mut(&mut self, label: &str) -> (r: Option<&mut T>)
        requires
            old(self).wf(),
        ensures
            final(self).wf(),
            r is Some <==> old(self)@.dom().contains(label@),
            r is Some ==> *r.unwrap() == old(self)@[label@] && final(self)@ == old(self)@.insert(
                label@,
                *final(r.unwrap()),
            ),
            r is None ==> final(self)@ == old(self)@,
    {
        proof {
            lemma_base_has(old(self).entry, label@);
        }
        if label.is_empty() {
            proof {
                assert(final(self).as_map() =~= old(self).as_map());
            }
            return None;
        }
        let cs = self.entry.children_mut();
        let r = Self::find_mut_in(cs, label);
        proof {
            let m0 = old(self).as_map();
            let m1 = after_borrow(*self).as_map();
            assert forall|k: Seq<char>|
                #![trigger m1.dom().contains(k)]
                #![trigger m0.dom().contains(k)]
                m1.dom().contains(k) == m0.dom().contains(k) by {
                lemma_base_has(old(self).entry, k);
                lemma_base_has(after_borrow(*self).entry, k);
            }
            if r is Some {
                assert forall|k: Seq<char>| #[trigger] m1.dom().contains(k) implies m1[k]
                    == m0.insert(label@, *final(r.unwrap()))[k] by {
                    lemma_base_has(old(self).entry, k);
                    lemma_base_has(after_borrow(*self).entry, k);
                }
                assert(m1 =~= m0.insert(label@, *final(r.unwrap())));
            } else {
                assert forall|k: Seq<char>| #[trigger] m1.dom().contains(k) implies m1[k] == m0[k]
                    by {
                    lemma_base_has(old(self).entry, k);
                    lemma_base_has(after_borrow(*self).entry, k);
                }
                assert(m1 =~= m0);
            }
        }
        r
    }

    /// Look `label` up in an ordered sibling list.
    fn find_in<'a>(entry: &'a Vec<Element<T>>, label: &str) -> (r: Option<&'a T>)
        requires
            siblings_wf(entry@),
            label@.len() > 0,
        ensures
            r is Some <==> forest_has(entry@, label@),
            r matches Some(v) ==> *v == forest_val(entry@, label@),
        decreases label@.len(),
    {
        match Self::find_from_entry(entry, label) {
            FindOutcome::NoCandidate => {
                proof {
                    lemma_forest_absent(entry@, label@);
                }
                None
            },
            FindOutcome::NoMatch(_i) => {
                proof {
                    lemma_forest_absent(entry@, label@);
                }
                None
            },
            FindOutcome::ExactMatch(i) => {
                proof {
                    lemma_forest_only_candidate(entry@, label@, i as int);
                    let t = entry@[i as int];
                    assert(t.spec_label().is_prefix_of(label@)) by {
                        assert(t.spec_label() =~= label@.subrange(0, t.spec_label().len() as int));
                    }
                    assert(label@.skip(t.spec_label().len() as int).len() == 0);
                }
                entry[i].value()
            },
            FindOutcome::SiblingIsPrefixOfKey(i) => {
                let target = &entry[i];
                let tlen = target.label().unicode_len();
                let klen = label.unicode_len();
                let rest = label.substring_char(tlen, klen);
                proof {
                    lemma_forest_only_candidate(entry@, label@, i as int);
                    lemma_forest_wf_index(entry@);
                    assert(rest@ =~= label@.skip(tlen as int));
                }
                Self::find_in(target.children(), rest)
            },
            FindOutcome::KeyIsPrefixOfSibling(i) => {
                proof {
                    lemma_forest_only_candidate(entry@, label@, i as int);
                    assert(!elem_has(entry@[i as int], label@));
                }
                None
            },
            FindOutcome::PartialOverlap(i, l) => {
                proof {
                    lemma_forest_only_candidate(entry@, label@, i as int);
                    let t = entry@[i as int];
                    assert(!elem_has(t, label@)) by {
                        if t.spec_label().is_prefix_of(label@) {
                            assert(label@[l as int] == t.spec_label()[l as int]);
                        }
                    }
                }
                None
            },
        }
    }

    /// Pair every stored value of `entry`'s subtree with its full key,
    /// re-prefixed by the labels consumed on the way down.
    #[verifier::loop_isolation(false)]
    #[verifier::rlimit(60)]
    fn format_children<'a>(entry: &'a Element<T>, prefix: &str) -> (r: Vec<(String, &'a T)>)
        requires
            siblings_wf(entry.spec_children()),
        ensures
            forall|idx: int|
                0 <= idx < r@.len() ==> {
                    &&& prefix@.is_prefix_of((#[trigger] r@[idx]).0@)
                    &&& elem_has(*entry, r@[idx].0@.skip(prefix@.len() as int))
                    &&& *r@[idx].1 == elem_val(*entry, r@[idx].0@.skip(prefix@.len() as int))
                },
            forall|k: Seq<char>|
                #[trigger] elem_has(*entry, k) ==> exists|idx: int|
                    0 <= idx < r@.len() && r@[idx].0@ == prefix@ + k,
            forall|i1: int, i2: int|
                0 <= i1 < i2 < r@.len() ==> (#[trigger] r@[i1]).0@ != (#[trigger] r@[i2]).0@,
            emitted_pairs(r@) == shift_pairs(prefix@, bfs_of(*entry)),
    {
        let all = entry.collect_all_child_values();
        let mut r: Vec<(String, &'a T)> = Vec::new();
        let mut i: usize = 0;
        while i < all.len()
            invariant
                i <= all@.len(),
                r@.len() == i,
                forall|idx: int|
                    0 <= idx < i ==> (#[trigger] r@[idx]).0@ == prefix@ + all@[idx].0@ && r@[idx].1
                        == all@[idx].1,
            decreases all@.len() - i,
        {
            let mut s = String::from_str(prefix);
            s.append(all[i].0.as_str());
            r.push((s, all[i].1));
            i += 1;
        }
        proof {
            assert forall|idx: int| 0 <= idx < r@.len() implies {
                &&& prefix@.is_prefix_of((#[trigger] r@[idx]).0@)
                &&& elem_has(*entry, r@[idx].0@.skip(prefix@.len() as int))
                &&& *r@[idx].1 == elem_val(*entry, r@[idx].0@.skip(prefix@.len() as int))
            } by {
                assert(prefix@.is_prefix_of(r@[idx].0@)) by {
                    assert(prefix@ =~= r@[idx].0@.subrange(0, prefix@.len() as int));
                }
                assert(r@[idx].0@.skip(prefix@.len() as int) =~= all@[idx].0@);
            }
            assert forall|k: Seq<char>| #[trigger] elem_has(*entry, k) implies exists|idx: int|
                0 <= idx < r@.len() && r@[idx].0@ == prefix@ + k by {
                let idx = choose|idx: int| 0 <= idx < all@.len() && (#[trigger] all@[idx]).0@ == k;
                assert(r@[idx].0@ == prefix@ + k);
            }
            assert forall|i1: int, i2: int| 0 <= i1 < i2 < r@.len() implies (
            #[trigger] r@[i1]).0@ != (#[trigger] r@[i2]).0@ by {
                if r@[i1].0@ == r@[i2].0@ {
                    assert(all@[i1].0@ =~= all@[i2].0@) by {
                        assert(forall|x: int|
                            0 <= x < all@[i1].0@.len() ==> all@[i1].0@[x] == r@[i1].0@[prefix@.len()
                                + x] && all@[i2].0@[x] == r@[i2].0@[prefix@.len() + x]);
                    }
                }
            }
            assert(emitted_pairs(r@) =~= shift_pairs(prefix@, bfs_of(*entry))) by {
                assert(emitted_pairs(all@) == bfs_of(*entry));
                assert(emitted_pairs(r@).len() == r@.len());
                assert(emitted_pairs(all@).len() == all@.len());
                assert(shift_pairs(prefix@, bfs_of(*entry)).len() == bfs_of(*entry).len());
                assert forall|x: int| 0 <= x < r@.len() implies emitted_pairs(r@)[x] == shift_pairs(
                    prefix@,
                    bfs_of(*entry),
                )[x] by {
                    assert(emitted_pairs(r@)[x] == (r@[x].0@, *r@[x].1));
                    assert(emitted_pairs(all@)[x] == (all@[x].0@, *all@[x].1));
                    assert(bfs_of(*entry)[x] == (all@[x].0@, *all@[x].1));
                    assert(shift_pairs(prefix@, bfs_of(*entry))[x] == (
                        prefix@ + bfs_of(*entry)[x].0,
                        bfs_of(*entry)[x].1,
                    ));
                }
            }
        }
        r
    }

    /// Descend along `prefix` accumulating consumed labels in `acc`, then
    /// collect the matched subtree: the pairs are exactly the stored entries
    /// whose key extends `acc + prefix`.
    #[verifier::rlimit(90)]
    fn start_with_in<'a>(entry: &'a Vec<Element<T>>, prefix: &str, acc: String) -> (r: Vec<
        (String, &'a T),
    >)
        requires
            siblings_wf(entry@),
            prefix@.len() > 0,
        ensures
            forall|idx: int|
                0 <= idx < r@.len() ==> {
                    &&& acc@.is_prefix_of((#[trigger] r@[idx]).0@)
                    &&& (acc@ + prefix@).is_prefix_of(r@[idx].0@)
                    &&& forest_has(entry@, r@[idx].0@.skip(acc@.len() as int))
                    &&& *r@[idx].1 == forest_val(entry@, r@[idx].0@.skip(acc@.len() as int))
                },
            forall|k: Seq<char>|
                #[trigger] forest_has(entry@, k) && prefix@.is_prefix_of(k) ==> exists|idx: int|
                    0 <= idx < r@.len() && r@[idx].0@ == acc@ + k,
            forall|i1: int, i2: int|
                0 <= i1 < i2 < r@.len() ==> (#[trigger] r@[i1]).0@ != (#[trigger] r@[i2]).0@,
            emitted_pairs(r@) == prefix_pairs(entry@, prefix@, acc@),
        decreases prefix@.len(),
    {
        let ghost s = entry@;
        proof {
            lemma_forest_wf_index(s);
        }
        match Self::find_from_entry(entry, prefix) {
            FindOutcome::NoCandidate => {
                let r: Vec<(String, &'a T)> = Vec::new();
                proof {
                    assert forall|k: Seq<char>|
                        #[trigger] forest_has(s, k) && prefix@.is_prefix_of(k) implies false by {
                        lemma_forest_has_index(s, k);
                        let j = choose|j: int| 0 <= j < s.len() && elem_has(s[j], k);
                        lemma_elem_has_props(s[j], k);
                    }
                    assert forall|j: int| 0 <= j < s.len() implies lead(#[trigger] s[j])
                        != prefix@[0] by {
                        assert((lead(s[j]) as u32) < (prefix@[0] as u32));
                    }
                    Self::lemma_prefix_pairs_empty(s, prefix@, acc@);
                    assert(emitted_pairs(r@) =~= Seq::<(Seq<char>, T)>::empty());
                }
                r
            },
            FindOutcome::NoMatch(_i) => {
                let r: Vec<(String, &'a T)> = Vec::new();
                proof {
                    assert forall|k: Seq<char>|
                        #[trigger] forest_has(s, k) && prefix@.is_prefix_of(k) implies false by {
                        lemma_forest_has_index(s, k);
                        let j = choose|j: int| 0 <= j < s.len() && elem_has(s[j], k);
                        lemma_elem_has_props(s[j], k);
                    }
                    assert forall|j: int| 0 <= j < s.len() implies lead(#[trigger] s[j])
                        != prefix@[0] by {
                        if j < _i {
                            assert((lead(s[j]) as u32) < (prefix@[0] as u32));
                        } else {
                            assert((lead(s[j]) as u32) > (prefix@[0] as u32));
                        }
                    }
                    Self::lemma_prefix_pairs_empty(s, prefix@, acc@);
                    assert(emitted_pairs(r@) =~= Seq::<(Seq<char>, T)>::empty());
                }
                r
            },
            FindOutcome::PartialOverlap(i, l) => {
                let r: Vec<(String, &'a T)> = Vec::new();
                proof {
                    let t = s[i as int];
                    assert forall|k: Seq<char>|
                        #[trigger] forest_has(s, k) && prefix@.is_prefix_of(k) implies false by {
                        lemma_forest_has_index(s, k);
                        let j = choose|j: int| 0 <= j < s.len() && elem_has(s[j], k);
                        lemma_elem_has_props(s[j], k);
                        assert(j == i);
                        assert(k[l as int] == t.spec_label()[l as int]);
                        assert(k[l as int] == prefix@[l as int]);
                    }
                    Self::lemma_prefix_pairs_resolve(s, prefix@, acc@, i as int);
                    assert(!prefix@.is_prefix_of(t.spec_label())) by {
                        if prefix@.is_prefix_of(t.spec_label()) {
                            assert(t.spec_label()[l as int] == prefix@[l as int]);
                        }
                    }
                    assert(!t.spec_label().is_prefix_of(prefix@)) by {
                        if t.spec_label().is_prefix_of(prefix@) {
                            assert(prefix@[l as int] == t.spec_label()[l as int]);
                        }
                    }
                    assert(emitted_pairs(r@) =~= Seq::<(Seq<char>, T)>::empty());
                }
                r
            },
            FindOutcome::ExactMatch(i) => {
                let r = Self::format_children(&entry[i], acc.as_str());
                proof {
                    Self::lemma_start_with_lift(s, i as int, prefix@, acc@, r@);
                    Self::lemma_prefix_pairs_resolve(s, prefix@, acc@, i as int);
                    assert(prefix@.is_prefix_of(s[i as int].spec_label())) by {
                        assert(prefix@ =~= s[i as int].spec_label().subrange(
                            0,
                            prefix@.len() as int,
                        ));
                    }
                    assert(emitted_pairs(r@) == shift_pairs(acc@, bfs_of(s[i as int])));
                }
                r
            },
            FindOutcome::KeyIsPrefixOfSibling(i) => {
                let r = Self::format_children(&entry[i], acc.as_str());
                proof {
                    Self::lemma_start_with_lift(s, i as int, prefix@, acc@, r@);
                    Self::lemma_prefix_pairs_resolve(s, prefix@, acc@, i as int);
                    assert(emitted_pairs(r@) == shift_pairs(acc@, bfs_of(s[i as int])));
                }
                r
            },
            FindOutcome::SiblingIsPrefixOfKey(i) => {
                let ghost oldt = s[i as int];
                let target = &entry[i];
                let tlen = target.label().unicode_len();
                let klen = prefix.unicode_len();
                let rest = prefix.substring_char(tlen, klen);
                let mut acc2 = acc;
                acc2.append(target.label());
                let ghost a2 = acc2@;
                proof {
                    assert(rest@ =~= prefix@.skip(tlen as int));
                    assert(a2 == acc@ + oldt.spec_label());
                }
                let r = Self::start_with_in(target.children(), rest, acc2);
                proof {
                    let cs = oldt.spec_children();
                    assert forall|idx: int| 0 <= idx < r@.len() implies {
                        &&& acc@.is_prefix_of((#[trigger] r@[idx]).0@)
                        &&& (acc@ + prefix@).is_prefix_of(r@[idx].0@)
                        &&& forest_has(s, r@[idx].0@.skip(acc@.len() as int))
                        &&& *r@[idx].1 == forest_val(s, r@[idx].0@.skip(acc@.len() as int))
                    } by {
                        let key = r@[idx].0@;
                        let k2 = key.skip(a2.len() as int);
                        let k1 = key.skip(acc@.len() as int);
                        assert(acc@.is_prefix_of(key)) by {
                            assert(forall|x: int|
                                0 <= x < acc@.len() ==> acc@[x] == a2[x] && a2[x] == key[x]);
                        }
                        assert(oldt.spec_label().is_prefix_of(k1)) by {
                            assert(forall|x: int|
                                0 <= x < oldt.spec_label().len() ==> oldt.spec_label()[x]
                                    == a2[acc@.len() + x] && a2[acc@.len() + x] == key[acc@.len()
                                    + x]);
                        }
                        assert(k1.skip(oldt.spec_label().len() as int) =~= k2);
                        lemma_forest_wf_index(cs);
                        lemma_forest_has_index(cs, k2);
                        let jj = choose|jj: int| 0 <= jj < cs.len() && elem_has(cs[jj], k2);
                        lemma_elem_has_props(cs[jj], k2);
                        assert(elem_has(oldt, k1));
                        lemma_forest_val_resolve(s, k1, i as int);
                        assert((acc@ + prefix@).is_prefix_of(key)) by {
                            assert((a2 + rest@).is_prefix_of(key));
                            assert(acc@ + prefix@ =~= a2 + rest@);
                        }
                    }
                    assert forall|k: Seq<char>|
                        #[trigger] forest_has(s, k) && prefix@.is_prefix_of(k) implies exists|
                        idx: int,
                    |
                        0 <= idx < r@.len() && r@[idx].0@ == acc@ + k by {
                        lemma_forest_has_index(s, k);
                        let j = choose|j: int| 0 <= j < s.len() && elem_has(s[j], k);
                        lemma_elem_has_props(s[j], k);
                        assert(j == i);
                        let k2 = k.skip(tlen as int);
                        assert(forest_has(cs, k2));
                        assert(rest@.is_prefix_of(k2)) by {
                            assert(forall|x: int|
                                0 <= x < rest@.len() ==> rest@[x] == prefix@[tlen + x] && prefix@[
                                    tlen + x] == k[tlen + x] && k[tlen + x] == k2[x]);
                        }
                        let idx = choose|idx: int|
                            0 <= idx < r@.len() && (#[trigger] r@[idx]).0@ == a2 + k2;
                        assert(r@[idx].0@ == acc@ + k) by {
                            assert(a2 + k2 =~= acc@ + k);
                        }
                    }
                    Self::lemma_prefix_pairs_resolve(s, prefix@, acc@, i as int);
                    assert(!prefix@.is_prefix_of(oldt.spec_label()));
                    assert(0 < oldt.spec_label().len() < prefix@.len());
                    assert(emitted_pairs(r@) == prefix_pairs(
                        oldt.spec_children(),
                        prefix@.skip(oldt.spec_label().len() as int),
                        acc@ + oldt.spec_label(),
                    ));
                }
                r
            },
        }
    }

    /// No sibling starts with the prefix's leading character: the ordered
    /// enumeration is empty.
    proof fn lemma_prefix_pairs_empty(s: Seq<Element<T>>, prefix: Seq<char>, acc: Seq<char>)
        requires
            forall|j: int| 0 <= j < s.len() ==> lead(#[trigger] s[j]) != prefix[0],
        ensures
            prefix_pairs(s, prefix, acc) == Seq::<(Seq<char>, T)>::empty(),
    {
    }

    /// Sibling `i` alone starts with the prefix's leading character: the
    /// ordered enumeration resolves through it.
    proof fn lemma_prefix_pairs_resolve(s: Seq<Element<T>>, prefix: Seq<char>, acc: Seq<char>, i: int)
        requires
            0 <= i < s.len(),
            prefix.len() > 0,
            lead(s[i]) == prefix[0],
            forall|j: int| 0 <= j < s.len() && j != i ==> lead(#[trigger] s[j]) != prefix[0],
        ensures
            prefix_pairs(s, prefix, acc) == {
                let lab = s[i].spec_label();
                if prefix.is_prefix_of(lab) {
                    shift_pairs(acc, bfs_of(s[i]))
                } else if 0 < lab.len() < prefix.len() && lab.is_prefix_of(prefix) {
                    prefix_pairs(s[i].spec_children(), prefix.skip(lab.len() as int), acc + lab)
                } else {
                    Seq::<(Seq<char>, T)>::empty()
                }
            },
    {
        assert(exists|j: int| 0 <= j < s.len() && lead(#[trigger] s[j]) == prefix[0]);
        let j = choose|j: int| 0 <= j < s.len() && lead(#[trigger] s[j]) == prefix[0];
        assert(j == i);
    }

    /// When the whole subtree of candidate `i` lies at or below the queried
    /// prefix, its collected pairs are exactly the matching entries of the
    /// sibling list.
    proof fn lemma_start_with_lift(
        s: Seq<Element<T>>,
        i: int,
        prefix: Seq<char>,
        acc: Seq<char>,
        rv: Seq<(String, &T)>,
    )
        requires
            siblings_wf(s),
            0 <= i < s.len(),
            prefix.len() > 0,
            prefix.is_prefix_of(s[i].spec_label()) || s[i].spec_label() == prefix,
            lead(s[i]) == prefix[0],
            forall|j: int| 0 <= j < s.len() && j != i ==> lead(#[trigger] s[j]) != prefix[0],
            forall|idx: int|
                0 <= idx < rv.len() ==> {
                    &&& acc.is_prefix_of((#[trigger] rv[idx]).0@)
                    &&& elem_has(s[i], rv[idx].0@.skip(acc.len() as int))
                    &&& *rv[idx].1 == elem_val(s[i], rv[idx].0@.skip(acc.len() as int))
                },
            forall|k: Seq<char>|
                #[trigger] elem_has(s[i], k) ==> exists|idx: int|
                    0 <= idx < rv.len() && rv[idx].0@ == acc + k,
        ensures
            forall|idx: int|
                0 <= idx < rv.len() ==> {
                    &&& acc.is_prefix_of((#[trigger] rv[idx]).0@)
                    &&& (acc + prefix).is_prefix_of(rv[idx].0@)
                    &&& forest_has(s, rv[idx].0@.skip(acc.len() as int))
                    &&& *rv[idx].1 == forest_val(s, rv[idx].0@.skip(acc.len() as int))
                },
            forall|k: Seq<char>|
                #[trigger] forest_has(s, k) && prefix.is_prefix_of(k) ==> exists|idx: int|
                    0 <= idx < rv.len() && rv[idx].0@ == acc + k,
    {
        lemma_forest_wf_index(s);
        assert forall|idx: int| 0 <= idx < rv.len() implies {
            &&& acc.is_prefix_of((#[trigger] rv[idx]).0@)
            &&& (acc + prefix).is_prefix_of(rv[idx].0@)
            &&& forest_has(s, rv[idx].0@.skip(acc.len() as int))
            &&& *rv[idx].1 == forest_val(s, rv[idx].0@.skip(acc.len() as int))
        } by {
            let key = rv[idx].0@;
            let k1 = key.skip(acc.len() as int);
            lemma_elem_has_props(s[i], k1);
            lemma_forest_val_resolve(s, k1, i);
            assert((acc + prefix).is_prefix_of(key)) by {
                assert(prefix.is_prefix_of(s[i].spec_label()));
                assert(s[i].spec_label().is_prefix_of(k1));
                assert(forall|x: int|
                    0 <= x < prefix.len() ==> prefix[x] == s[i].spec_label()[x] && s[
                        i].spec_label()[x] == k1[x] && k1[x] == key[acc.len() + x]);
                assert(forall|x: int| 0 <= x < acc.len() ==> acc[x] == key[x]);
            }
        }
        assert forall|k: Seq<char>| #[trigger] forest_has(s, k) && prefix.is_prefix_of(k) implies
            exists|idx: int| 0 <= idx < rv.len() && rv[idx].0@ == acc + k by {
            lemma_forest_has_index(s, k);
            let j = choose|j: int| 0 <= j < s.len() && elem_has(s[j], k);
            lemma_elem_has_props(s[j], k);
            assert(j == i);
        }
    }

    /// Every stored pair whose key starts with `prefix`, keys reconstructed
    /// in full and listed exactly as `prefix_pairs` enumerates them: in
    /// breadth-first level order over the matched subtree, left to right,
    /// each node before its descendants — not lexicographically.  A
    /// non-empty prefix is required to match anything.
    pub fn start_with(&self, prefix: &str) -> (r: Vec<(String, &T)>)
        requires
            self.wf(),
        ensures
            forall|idx: int|
                0 <= idx < r@.len() ==> self@.dom().contains((#[trigger] r@[idx]).0@)
                    && prefix@.is_prefix_of(r@[idx].0@) && *r@[idx].1 == self@[r@[idx].0@],
            forall|k: Seq<char>|
                prefix@.len() > 0 && #[trigger] self@.dom().contains(k) && prefix@.is_prefix_of(k)
                    ==> exists|idx: int| 0 <= idx < r@.len() && r@[idx].0@ == k,
            forall|i1: int, i2: int|
                0 <= i1 < i2 < r@.len() ==> (#[trigger] r@[i1]).0@ != (#[trigger] r@[i2]).0@,
            prefix@.len() == 0 ==> r@.len() == 0,
            prefix@.len() > 0 ==> emitted_pairs(r@) == prefix_pairs(
                self.entry.spec_children(),
                prefix@,
                Seq::<char>::empty(),
            ),
    {
        if prefix.is_empty() {
            return Vec::new();
        }
        let r = Self::start_with_in(self.entry.children(), prefix, String::new());
        proof {
            let s = self.entry.spec_children();
            assert forall|idx: int| 0 <= idx < r@.len() implies {
                &&& self@.dom().contains((#[trigger] r@[idx]).0@)
                &&& prefix@.is_prefix_of(r@[idx].0@)
                &&& *r@[idx].1 == self@[r@[idx].0@]
            } by {
                let key = r@[idx].0@;
                assert(key.skip(0) =~= key);
                assert(Seq::<char>::empty() + prefix@ =~= prefix@);
                lemma_base_has(self.entry, key);
            }
            assert forall|k: Seq<char>|
                prefix@.len() > 0 && #[trigger] self@.dom().contains(k) && prefix@.is_prefix_of(
                    k,
                ) implies exists|idx: int| 0 <= idx < r@.len() && r@[idx].0@ == k by {
                lemma_base_has(self.entry, k);
                let idx = choose|idx: int|
                    0 <= idx < r@.len() && (#[trigger] r@[idx]).0@ == Seq::<char>::empty() + k;
                assert(Seq::<char>::empty() + k =~= k);
                assert(r@[idx].0@ == k);
            }
        }
        r
    }

    /// Look up the value stored for `label`; absent keys (and the empty
    /// string, which the trie never stores) yield `None`.
    pub fn find(&self, label: &str) -> (r: Option<&T>)
        requires
            self.wf(),
        ensures
            r is Some <==> self@.dom().contains(label@),
            r matches Some(v) ==> *v == self@[label@],
    {
        proof {
            lemma_base_has(self.entry, label@);
        }
        if label.is_empty() {
            return None;
        }
        Self::find_in(self.entry.children(), label)
    }
}

} // verus!
