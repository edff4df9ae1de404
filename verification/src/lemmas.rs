//! Proof library about the node model: how key membership and stored values
//! behave under the sibling-list edits that the trie engine performs.

use vstd::prelude::*;

use crate::element::{
    children_ordered, elem_has, elem_size, elem_val, elem_wf, forest_has, forest_size, forest_val,
    forest_wf, lead, same_shell, siblings_wf, Element,
};

verus! {

/// A forest holds a key exactly when one of its trees does.
pub(crate) proof fn lemma_forest_has_index<T>(s: Seq<Element<T>>, k: Seq<char>)
    ensures
        forest_has(s, k) <==> exists|i: int| 0 <= i < s.len() && elem_has(s[i], k),
    decreases s.len(),
{
    if s.len() > 0 {
        lemma_forest_has_index(s.drop_first(), k);
        if elem_has(s[0], k) {
            assert(forest_has(s, k));
        }
        if forest_has(s.drop_first(), k) {
            let j = choose|j: int| 0 <= j < s.drop_first().len() && elem_has(s.drop_first()[j], k);
            assert(s.drop_first()[j] == s[j + 1]);
            assert(elem_has(s[j + 1], k));
        }
        if exists|i: int| 0 <= i < s.len() && elem_has(s[i], k) {
            let i = choose|i: int| 0 <= i < s.len() && elem_has(s[i], k);
            if i > 0 {
                assert(s.drop_first()[i - 1] == s[i]);
                assert(forest_has(s.drop_first(), k));
            }
        }
    }
}

/// A forest is well-formed exactly when each of its trees is.
pub(crate) proof fn lemma_forest_wf_index<T>(s: Seq<Element<T>>)
    ensures
        forest_wf(s) <==> (forall|i: int| 0 <= i < s.len() ==> elem_wf(#[trigger] s[i])),
    decreases s.len(),
{
    if s.len() > 0 {
        lemma_forest_wf_index(s.drop_first());
        assert(forall|j: int| 0 <= j < s.drop_first().len() ==> s.drop_first()[j] == s[j + 1]);
        if elem_wf(s[0]) && (forall|j: int| 0 <= j < s.drop_first().len() ==> elem_wf(
            #[trigger] s.drop_first()[j],
        )) {
            assert(forall|i: int| 0 <= i < s.len() ==> elem_wf(#[trigger] s[i])) by {
                assert(forall|i: int| 1 <= i < s.len() ==> s[i] == s.drop_first()[i - 1]);
            }
        }
    }
}

/// A held key starts with the holding tree's label, hence with its leading
/// character.
pub(crate) proof fn lemma_elem_has_props<T>(e: Element<T>, k: Seq<char>)
    requires
        elem_wf(e),
        elem_has(e, k),
    ensures
        k.len() >= e.spec_label().len() > 0,
        k[0] == lead(e),
        e.spec_label().is_prefix_of(k),
{
    assert(e.spec_label()[0] == k[0]);
}

/// In an ordered sibling list, at most one tree can hold a given key.
pub(crate) proof fn lemma_forest_unique<T>(s: Seq<Element<T>>, k: Seq<char>, i: int, j: int)
    requires
        siblings_wf(s),
        0 <= i < s.len(),
        0 <= j < s.len(),
        elem_has(s[i], k),
        elem_has(s[j], k),
    ensures
        i == j,
{
    lemma_forest_wf_index(s);
    lemma_elem_has_props(s[i], k);
    lemma_elem_has_props(s[j], k);
    if i < j {
        assert((lead(s[i]) as u32) < (lead(s[j]) as u32));
    }
    if j < i {
        assert((lead(s[j]) as u32) < (lead(s[i]) as u32));
    }
}

/// Orderedness survives dropping the first sibling.
pub(crate) proof fn lemma_siblings_wf_drop_first<T>(s: Seq<Element<T>>)
    requires
        siblings_wf(s),
        s.len() > 0,
    ensures
        siblings_wf(s.drop_first()),
{
    assert(children_ordered(s.drop_first())) by {
        assert(forall|j: int| 0 <= j < s.drop_first().len() ==> s.drop_first()[j] == s[j + 1]);
        assert forall|i: int, j: int| 0 <= i < j < s.drop_first().len() implies (lead(
            #[trigger] s.drop_first()[i],
        ) as u32) < (lead(#[trigger] s.drop_first()[j]) as u32) by {
            assert((lead(s[i + 1]) as u32) < (lead(s[j + 1]) as u32));
        }
    }
}

/// When sibling `i` holds key `k`, the forest's stored value for `k` is that
/// sibling's.
pub(crate) proof fn lemma_forest_val_resolve<T>(s: Seq<Element<T>>, k: Seq<char>, i: int)
    requires
        siblings_wf(s),
        0 <= i < s.len(),
        elem_has(s[i], k),
    ensures
        forest_has(s, k),
        forest_val(s, k) == elem_val(s[i], k),
    decreases s.len(),
{
    lemma_forest_has_index(s, k);
    if i == 0 {
        assert(forest_val(s, k) == elem_val(s[0], k));
    } else {
        if elem_has(s[0], k) {
            lemma_forest_unique(s, k, 0, i);
        }
        lemma_siblings_wf_drop_first(s);
        assert(s.drop_first()[i - 1] == s[i]);
        lemma_forest_val_resolve(s.drop_first(), k, i - 1);
    }
}

/// A key whose leading character no sibling carries is absent; so is the
/// empty key.
pub(crate) proof fn lemma_forest_absent<T>(s: Seq<Element<T>>, k: Seq<char>)
    requires
        forest_wf(s),
        k.len() == 0 || forall|j: int| 0 <= j < s.len() ==> lead(#[trigger] s[j]) != k[0],
    ensures
        !forest_has(s, k),
{
    lemma_forest_has_index(s, k);
    lemma_forest_wf_index(s);
    if forest_has(s, k) {
        let i = choose|i: int| 0 <= i < s.len() && elem_has(s[i], k);
        lemma_elem_has_props(s[i], k);
    }
}

/// When every sibling but `i` starts with a character other than `k`'s, the
/// whole forest's verdict on `k` is sibling `i`'s verdict.
pub(crate) proof fn lemma_forest_only_candidate<T>(s: Seq<Element<T>>, k: Seq<char>, i: int)
    requires
        siblings_wf(s),
        0 <= i < s.len(),
        k.len() > 0,
        forall|j: int| 0 <= j < s.len() && j != i ==> lead(#[trigger] s[j]) != k[0],
    ensures
        forest_has(s, k) <==> elem_has(s[i], k),
        elem_has(s[i], k) ==> forest_val(s, k) == elem_val(s[i], k),
{
    lemma_forest_has_index(s, k);
    lemma_forest_wf_index(s);
    if forest_has(s, k) {
        let j = choose|j: int| 0 <= j < s.len() && elem_has(s[j], k);
        lemma_elem_has_props(s[j], k);
        assert(j == i);
    }
    if elem_has(s[i], k) {
        lemma_forest_val_resolve(s, k, i);
    }
}

/// The root sentinel's empty label makes its keys exactly the non-empty keys
/// of its child forest.
pub(crate) proof fn lemma_base_has<T>(e: Element<T>, k: Seq<char>)
    requires
        e is Base,
        e.spec_label() == Seq::<char>::empty(),
    ensures
        elem_has(e, k) <==> (k.len() > 0 && forest_has(e.spec_children(), k)),
        elem_has(e, k) ==> elem_val(e, k) == forest_val(e.spec_children(), k),
{
    assert(e.spec_label().is_prefix_of(k)) by {
        assert(e.spec_label() =~= k.subrange(0, 0));
    }
    assert(k.skip(0) =~= k);
}

/// Splicing a prefix onto a tree's label shifts the keys it holds by exactly
/// that prefix.
pub(crate) proof fn lemma_label_splice<T>(a: Element<T>, b: Element<T>, p: Seq<char>, k: Seq<char>)
    requires
        b.spec_label() == p + a.spec_label(),
        b.spec_children() == a.spec_children(),
        b.spec_value() == a.spec_value(),
        b is Value <==> a is Value,
    ensures
        elem_has(b, k) <==> (p.is_prefix_of(k) && elem_has(a, k.skip(p.len() as int))),
        elem_has(b, k) ==> elem_val(b, k) == elem_val(a, k.skip(p.len() as int)),
{
    let la = a.spec_label();
    let lb = b.spec_label();
    if lb.is_prefix_of(k) {
        assert(p.is_prefix_of(k)) by {
            assert(forall|x: int| 0 <= x < p.len() ==> p[x] == lb[x] && lb[x] == k[x]);
        }
        assert(la.is_prefix_of(k.skip(p.len() as int))) by {
            assert(forall|x: int| 0 <= x < la.len() ==> la[x] == lb[p.len() + x] && lb[p.len() + x]
                == k.skip(p.len() as int)[x]);
        }
        assert(k.skip(p.len() as int).skip(la.len() as int) =~= k.skip(lb.len() as int));
    }
    if p.is_prefix_of(k) && la.is_prefix_of(k.skip(p.len() as int)) {
        assert(lb.is_prefix_of(k)) by {
            assert(forall|x: int| 0 <= x < lb.len() ==> lb[x] == if x < p.len() {
                p[x]
            } else {
                la[x - p.len()]
            });
            assert(forall|x: int| 0 <= x < p.len() ==> p[x] == k[x]);
            assert(forall|x: int| 0 <= x < la.len() ==> la[x] == k.skip(p.len() as int)[x]);
        }
        assert(k.skip(p.len() as int).skip(la.len() as int) =~= k.skip(lb.len() as int));
    }
}

/// Placing a tree that holds exactly the fresh key `kk` at its sort position
/// adds `kk` to the forest's keys and disturbs nothing else.
pub(crate) proof fn lemma_forest_insert_elem<T>(
    s: Seq<Element<T>>,
    i: int,
    x: Element<T>,
    kk: Seq<char>,
)
    requires
        siblings_wf(s),
        0 <= i <= s.len(),
        elem_wf(x),
        forall|j: int| 0 <= j < i ==> (lead(#[trigger] s[j]) as u32) < (lead(x) as u32),
        forall|j: int| i <= j < s.len() ==> (lead(#[trigger] s[j]) as u32) > (lead(x) as u32),
        forall|k: Seq<char>| #[trigger] elem_has(x, k) <==> k == kk,
    ensures
        siblings_wf(s.insert(i, x)),
        forall|k: Seq<char>|
            #![trigger forest_has(s.insert(i, x), k)]
            #![trigger forest_has(s, k)]
            forest_has(s.insert(i, x), k) <==> (forest_has(s, k) || k == kk),
        forall|k: Seq<char>|
            k != kk && #[trigger] forest_has(s, k) ==> forest_val(s.insert(i, x), k)
                == forest_val(s, k),
        forest_val(s.insert(i, x), kk) == elem_val(x, kk),
{
    let s2 = s.insert(i, x);
    s.insert_ensures(i, x);
    lemma_forest_wf_index(s);
    lemma_forest_wf_index(s2);
    assert(children_ordered(s2)) by {
        assert forall|a: int, b: int| 0 <= a < b < s2.len() implies (lead(#[trigger] s2[a]) as u32)
            < (lead(#[trigger] s2[b]) as u32) by {
            if a < i && b < i {
                assert((lead(s[a]) as u32) < (lead(s[b]) as u32));
            } else if a > i && b > i {
                assert((lead(s[a - 1]) as u32) < (lead(s[b - 1]) as u32));
            } else if a < i && b > i {
                assert((lead(s[a]) as u32) < (lead(x) as u32));
                assert((lead(x) as u32) < (lead(s[b - 1]) as u32));
            }
        }
    }
    assert forall|k: Seq<char>| #[trigger] forest_has(s2, k) implies (forest_has(s, k) || k == kk)
        by {
        lemma_forest_has_index(s2, k);
        lemma_forest_has_index(s, k);
        let j = choose|j: int| 0 <= j < s2.len() && elem_has(s2[j], k);
        if j < i {
            assert(elem_has(s[j], k));
        } else if j > i {
            assert(elem_has(s[j - 1], k));
        }
    }
    assert forall|k: Seq<char>| forest_has(s, k) || k == kk implies #[trigger] forest_has(s2, k)
        by {
        lemma_forest_has_index(s2, k);
        lemma_forest_has_index(s, k);
        if forest_has(s, k) {
            let j = choose|j: int| 0 <= j < s.len() && elem_has(s[j], k);
            if j < i {
                assert(elem_has(s2[j], k));
            } else {
                assert(elem_has(s2[j + 1], k));
            }
        } else {
            assert(elem_has(s2[i], k));
        }
    }
    assert forall|k: Seq<char>| k != kk && #[trigger] forest_has(s, k) implies forest_val(s2, k)
        == forest_val(s, k) by {
        lemma_forest_has_index(s, k);
        let j = choose|j: int| 0 <= j < s.len() && elem_has(s[j], k);
        lemma_forest_val_resolve(s, k, j);
        if j < i {
            lemma_forest_val_resolve(s2, k, j);
        } else {
            lemma_forest_val_resolve(s2, k, j + 1);
        }
    }
    lemma_forest_val_resolve(s2, kk, i);
}

/// Replacing sibling `i` by a tree that holds its keys plus the fresh key
/// `kk` (stored values otherwise untouched) adds exactly `kk` to the forest.
pub(crate) proof fn lemma_forest_update_grow<T>(
    s: Seq<Element<T>>,
    i: int,
    x: Element<T>,
    kk: Seq<char>,
)
    requires
        siblings_wf(s),
        0 <= i < s.len(),
        elem_wf(x),
        lead(x) == lead(s[i]),
        kk.len() > 0 && kk[0] == lead(s[i]),
        forall|k: Seq<char>| #[trigger] elem_has(x, k) <==> (elem_has(s[i], k) || k == kk),
        forall|k: Seq<char>|
            k != kk && #[trigger] elem_has(s[i], k) ==> elem_val(x, k) == elem_val(s[i], k),
    ensures
        siblings_wf(s.update(i, x)),
        forall|k: Seq<char>|
            #![trigger forest_has(s.update(i, x), k)]
            #![trigger forest_has(s, k)]
            forest_has(s.update(i, x), k) <==> (forest_has(s, k) || k == kk),
        forall|k: Seq<char>|
            k != kk && #[trigger] forest_has(s, k) ==> forest_val(s.update(i, x), k)
                == forest_val(s, k),
        forest_val(s.update(i, x), kk) == elem_val(x, kk),
{
    let s2 = s.update(i, x);
    lemma_forest_wf_index(s);
    lemma_forest_wf_index(s2);
    assert(children_ordered(s2)) by {
        assert forall|a: int, b: int| 0 <= a < b < s2.len() implies (lead(#[trigger] s2[a]) as u32)
            < (lead(#[trigger] s2[b]) as u32) by {
            assert((lead(s[a]) as u32) < (lead(s[b]) as u32));
        }
    }
    assert forall|k: Seq<char>| #[trigger] forest_has(s2, k) implies (forest_has(s, k) || k == kk)
        by {
        lemma_forest_has_index(s2, k);
        lemma_forest_has_index(s, k);
        let j = choose|j: int| 0 <= j < s2.len() && elem_has(s2[j], k);
        if j != i {
            assert(elem_has(s[j], k));
        }
    }
    assert forall|k: Seq<char>| forest_has(s, k) || k == kk implies #[trigger] forest_has(s2, k)
        by {
        lemma_forest_has_index(s2, k);
        lemma_forest_has_index(s, k);
        if forest_has(s, k) {
            let j = choose|j: int| 0 <= j < s.len() && elem_has(s[j], k);
            if j != i {
                assert(elem_has(s2[j], k));
            } else {
                assert(elem_has(x, k));
                assert(elem_has(s2[i], k));
            }
        } else {
            assert(elem_has(x, kk));
            assert(elem_has(s2[i], k));
        }
    }
    assert forall|k: Seq<char>| k != kk && #[trigger] forest_has(s, k) implies forest_val(s2, k)
        == forest_val(s, k) by {
        lemma_forest_has_index(s, k);
        let j = choose|j: int| 0 <= j < s.len() && elem_has(s[j], k);
        lemma_forest_val_resolve(s, k, j);
        if j != i {
            lemma_forest_val_resolve(s2, k, j);
        } else {
            assert(elem_has(x, k));
            lemma_forest_val_resolve(s2, k, i);
        }
    }
    assert(elem_has(x, kk));
    lemma_forest_val_resolve(s2, kk, i);
}

/// Replacing sibling `i` by a tree that holds its keys except `kk` (stored
/// values otherwise untouched) removes exactly `kk` from the forest.
pub(crate) proof fn lemma_forest_update_shrink<T>(
    s: Seq<Element<T>>,
    i: int,
    x: Element<T>,
    kk: Seq<char>,
)
    requires
        siblings_wf(s),
        0 <= i < s.len(),
        elem_wf(x),
        lead(x) == lead(s[i]),
        kk.len() > 0 && kk[0] == lead(s[i]),
        forall|k: Seq<char>| #[trigger] elem_has(x, k) <==> (elem_has(s[i], k) && k != kk),
        forall|k: Seq<char>|
            k != kk && #[trigger] elem_has(s[i], k) ==> elem_val(x, k) == elem_val(s[i], k),
    ensures
        siblings_wf(s.update(i, x)),
        forall|k: Seq<char>|
            #![trigger forest_has(s.update(i, x), k)]
            #![trigger forest_has(s, k)]
            forest_has(s.update(i, x), k) <==> (forest_has(s, k) && k != kk),
        forall|k: Seq<char>|
            k != kk && #[trigger] forest_has(s, k) ==> forest_val(s.update(i, x), k)
                == forest_val(s, k),
{
    let s2 = s.update(i, x);
    lemma_forest_wf_index(s);
    lemma_forest_wf_index(s2);
    assert(children_ordered(s2)) by {
        assert forall|a: int, b: int| 0 <= a < b < s2.len() implies (lead(#[trigger] s2[a]) as u32)
            < (lead(#[trigger] s2[b]) as u32) by {
            assert((lead(s[a]) as u32) < (lead(s[b]) as u32));
        }
    }
    assert forall|k: Seq<char>| #[trigger] forest_has(s2, k) implies (forest_has(s, k) && k != kk)
        by {
        lemma_forest_has_index(s2, k);
        lemma_forest_has_index(s, k);
        let j = choose|j: int| 0 <= j < s2.len() && elem_has(s2[j], k);
        if j != i {
            assert(elem_has(s[j], k));
            if k == kk {
                lemma_elem_has_props(s[j], k);
                assert((lead(s[j]) as u32) != (lead(s[i]) as u32)) by {
                    if j < i {
                        assert((lead(s[j]) as u32) < (lead(s[i]) as u32));
                    } else {
                        assert((lead(s[i]) as u32) < (lead(s[j]) as u32));
                    }
                }
            }
        } else {
            assert(elem_has(x, k));
            assert(elem_has(s[i], k));
        }
    }
    assert forall|k: Seq<char>| forest_has(s, k) && k != kk implies #[trigger] forest_has(s2, k)
        by {
        lemma_forest_has_index(s2, k);
        lemma_forest_has_index(s, k);
        let j = choose|j: int| 0 <= j < s.len() && elem_has(s[j], k);
        if j != i {
            assert(elem_has(s2[j], k));
        } else {
            assert(elem_has(x, k));
            assert(elem_has(s2[i], k));
        }
    }
    assert forall|k: Seq<char>| k != kk && #[trigger] forest_has(s, k) implies forest_val(s2, k)
        == forest_val(s, k) by {
        lemma_forest_has_index(s, k);
        let j = choose|j: int| 0 <= j < s.len() && elem_has(s[j], k);
        lemma_forest_val_resolve(s, k, j);
        if j != i {
            lemma_forest_val_resolve(s2, k, j);
        } else {
            assert(elem_has(x, k));
            lemma_forest_val_resolve(s2, k, i);
        }
    }
}

/// Replacing sibling `i` by a tree with the same keys and stored values
/// leaves the forest's keys and stored values as they were.
pub(crate) proof fn lemma_forest_update_same<T>(s: Seq<Element<T>>, i: int, x: Element<T>)
    requires
        siblings_wf(s),
        0 <= i < s.len(),
        elem_wf(x),
        lead(x) == lead(s[i]),
        forall|k: Seq<char>| #[trigger] elem_has(x, k) <==> elem_has(s[i], k),
        forall|k: Seq<char>|
            #[trigger] elem_has(s[i], k) ==> elem_val(x, k) == elem_val(s[i], k),
    ensures
        siblings_wf(s.update(i, x)),
        forall|k: Seq<char>|
            #![trigger forest_has(s.update(i, x), k)]
            #![trigger forest_has(s, k)]
            forest_has(s.update(i, x), k) <==> forest_has(s, k),
        forall|k: Seq<char>|
            #[trigger] forest_has(s, k) ==> forest_val(s.update(i, x), k) == forest_val(s, k),
{
    let s2 = s.update(i, x);
    lemma_forest_wf_index(s);
    lemma_forest_wf_index(s2);
    assert(children_ordered(s2)) by {
        assert forall|a: int, b: int| 0 <= a < b < s2.len() implies (lead(#[trigger] s2[a]) as u32)
            < (lead(#[trigger] s2[b]) as u32) by {
            assert((lead(s[a]) as u32) < (lead(s[b]) as u32));
        }
    }
    assert forall|k: Seq<char>| #[trigger] forest_has(s2, k) == forest_has(s, k) by {
        lemma_forest_has_index(s2, k);
        lemma_forest_has_index(s, k);
        if forest_has(s2, k) {
            let j = choose|j: int| 0 <= j < s2.len() && elem_has(s2[j], k);
            if j != i {
                assert(elem_has(s[j], k));
            } else {
                assert(elem_has(s[i], k));
            }
        }
        if forest_has(s, k) {
            let j = choose|j: int| 0 <= j < s.len() && elem_has(s[j], k);
            if j != i {
                assert(elem_has(s2[j], k));
            } else {
                assert(elem_has(x, k));
                assert(elem_has(s2[i], k));
            }
        }
    }
    assert forall|k: Seq<char>| #[trigger] forest_has(s, k) implies forest_val(s2, k)
        == forest_val(s, k) by {
        lemma_forest_has_index(s, k);
        let j = choose|j: int| 0 <= j < s.len() && elem_has(s[j], k);
        lemma_forest_val_resolve(s, k, j);
        if j != i {
            lemma_forest_val_resolve(s2, k, j);
        } else {
            assert(elem_has(x, k));
            lemma_forest_val_resolve(s2, k, i);
        }
    }
}

/// Detaching sibling `i`, which holds exactly the key `kk`, removes exactly
/// `kk` from the forest.
pub(crate) proof fn lemma_forest_remove_elem<T>(s: Seq<Element<T>>, i: int, kk: Seq<char>)
    requires
        siblings_wf(s),
        0 <= i < s.len(),
        forall|k: Seq<char>| #[trigger] elem_has(s[i], k) <==> k == kk,
    ensures
        siblings_wf(s.remove(i)),
        forall|k: Seq<char>|
            #![trigger forest_has(s.remove(i), k)]
            #![trigger forest_has(s, k)]
            forest_has(s.remove(i), k) <==> (forest_has(s, k) && k != kk),
        forall|k: Seq<char>|
            k != kk && #[trigger] forest_has(s, k) ==> forest_val(s.remove(i), k)
                == forest_val(s, k),
{
    let s2 = s.remove(i);
    s.remove_ensures(i);
    lemma_forest_wf_index(s);
    lemma_forest_wf_index(s2);
    assert(children_ordered(s2)) by {
        assert forall|a: int, b: int| 0 <= a < b < s2.len() implies (lead(#[trigger] s2[a]) as u32)
            < (lead(#[trigger] s2[b]) as u32) by {
            let a0: int = if a < i { a } else { a + 1 };
            let b0: int = if b < i { b } else { b + 1 };
            assert(s2[a] == s[a0] && s2[b] == s[b0]);
            assert((lead(s[a0]) as u32) < (lead(s[b0]) as u32));
        }
    }
    assert forall|k: Seq<char>| #[trigger] forest_has(s2, k) implies (forest_has(s, k) && k != kk)
        by {
        lemma_forest_has_index(s2, k);
        lemma_forest_has_index(s, k);
        let j = choose|j: int| 0 <= j < s2.len() && elem_has(s2[j], k);
        let j0: int = if j < i { j } else { j + 1 };
        assert(elem_has(s[j0], k));
        if k == kk {
            lemma_forest_unique(s, k, j0, i);
        }
    }
    assert forall|k: Seq<char>| forest_has(s, k) && k != kk implies #[trigger] forest_has(s2, k)
        by {
        lemma_forest_has_index(s2, k);
        lemma_forest_has_index(s, k);
        let j = choose|j: int| 0 <= j < s.len() && elem_has(s[j], k);
        if j < i {
            assert(elem_has(s2[j], k));
        } else {
            assert(j != i);
            assert(elem_has(s2[j - 1], k));
        }
    }
    assert forall|k: Seq<char>| k != kk && #[trigger] forest_has(s, k) implies forest_val(s2, k)
        == forest_val(s, k) by {
        lemma_forest_has_index(s, k);
        let j = choose|j: int| 0 <= j < s.len() && elem_has(s[j], k);
        lemma_forest_val_resolve(s, k, j);
        if j < i {
            lemma_forest_val_resolve(s2, k, j);
        } else {
            assert(j != i);
            lemma_forest_val_resolve(s2, k, j - 1);
        }
    }
}

/// Placing a tree at a sort position grows the forest's node count by
/// exactly that tree's size.
pub(crate) proof fn lemma_forest_size_insert<T>(s: Seq<Element<T>>, i: int, x: Element<T>)
    requires
        0 <= i <= s.len(),
    ensures
        forest_size(s.insert(i, x)) == forest_size(s) + elem_size(x),
    decreases s.len(),
{
    let s2 = s.insert(i, x);
    s.insert_ensures(i, x);
    if i == 0 {
        assert(s2[0] == x);
        assert(s2.drop_first() =~= s);
    } else {
        assert(s2[0] == s[0]);
        assert(s2.drop_first() =~= s.drop_first().insert(i - 1, x)) by {
            s.drop_first().insert_ensures(i - 1, x);
        }
        lemma_forest_size_insert(s.drop_first(), i - 1, x);
    }
}

/// Replacing sibling `i` trades its size for the replacement's.
pub(crate) proof fn lemma_forest_size_update<T>(s: Seq<Element<T>>, i: int, x: Element<T>)
    requires
        0 <= i < s.len(),
    ensures
        forest_size(s.update(i, x)) + elem_size(s[i]) == forest_size(s) + elem_size(x),
    decreases s.len(),
{
    let s2 = s.update(i, x);
    if i == 0 {
        assert(s2[0] == x);
        assert(s2.drop_first() =~= s.drop_first());
    } else {
        assert(s2[0] == s[0]);
        assert(s2.drop_first() =~= s.drop_first().update(i - 1, x));
        lemma_forest_size_update(s.drop_first(), i - 1, x);
    }
}

/// A childless value node holds exactly its own label as a key.
pub(crate) proof fn lemma_leaf_has<T>(x: Element<T>, k: Seq<char>)
    requires
        x is Value,
        x.spec_children().len() == 0,
    ensures
        elem_has(x, k) <==> k == x.spec_label(),
        elem_val(x, x.spec_label()) == x.spec_value().unwrap(),
{
    if k == x.spec_label() {
        assert(x.spec_label().is_prefix_of(k));
        assert(k.skip(x.spec_label().len() as int).len() == 0);
    }
    if elem_has(x, k) {
        assert(k.skip(x.spec_label().len() as int).len() == 0);
        assert(k =~= x.spec_label());
    }
    assert(x.spec_label().skip(x.spec_label().len() as int).len() == 0);
}

} // verus!
