//! The tree node model: a tagged node that is either the root sentinel,
//! an interior branch, or a key-bearing node, each owning an ordered list
//! of children.

use vstd::prelude::*;
use vstd::string::StrSliceExecFns;
use vstd::string::StringExecFns;

use crate::lemmas::{
    lemma_elem_has_props, lemma_forest_has_index, lemma_forest_unique, lemma_forest_val_resolve,
    lemma_forest_wf_index,
};

verus! {

/// One node of the radix trie.
pub enum Element<T> {
    /// A node that carries a stored value; its label completes a stored key.
    Value { label: String, value: T, children: Vec<Element<T>> },
    /// An interior junction with no value of its own.
    Node { label: String, children: Vec<Element<T>> },
    /// The root sentinel: one per trie, empty label, no value.
    Base { label: String, children: Vec<Element<T>> },
}

impl<T> Element<T> {
    /// The node's label, as a sequence of scalar characters.
    pub open spec fn spec_label(&self) -> Seq<char> {
        match self {
            Element::Value { label, .. } => label@,
            Element::Node { label, .. } => label@,
            Element::Base { label, .. } => label@,
        }
    }

    /// The node's children, as a sequence.
    pub open spec fn spec_children(&self) -> Seq<Element<T>> {
        match self {
            Element::Value { children, .. } => children@,
            Element::Node { children, .. } => children@,
            Element::Base { children, .. } => children@,
        }
    }

    /// The node's stored value, if it carries one.
    pub open spec fn spec_value(&self) -> Option<T> {
        match self {
            Element::Value { value, .. } => Some(*value),
            _ => None,
        }
    }
}

/// The leading scalar character of a node's label.
pub open spec fn lead<T>(e: Element<T>) -> char {
    e.spec_label()[0]
}

/// Two nodes agree on everything but their child lists.
pub open spec fn same_shell<T>(a: Element<T>, b: Element<T>) -> bool {
    &&& a.spec_label() == b.spec_label()
    &&& a.spec_value() == b.spec_value()
    &&& (a is Value <==> b is Value)
    &&& (a is Node <==> b is Node)
}

/// Does the subtree rooted at `e` hold key `k`?  Keys are taken relative to
/// the position of `e`, so `k` includes `e`'s own label.
pub open spec fn elem_has<T>(e: Element<T>, k: Seq<char>) -> bool
    decreases e,
{
    e.spec_label().is_prefix_of(k) && {
        let rest = k.skip(e.spec_label().len() as int);
        if rest.len() == 0 {
            e is Value
        } else {
            forest_has(e.spec_children(), rest)
        }
    }
}

/// Does any tree of the forest `s` hold key `k`?
pub open spec fn forest_has<T>(s: Seq<Element<T>>, k: Seq<char>) -> bool
    decreases s,
{
    s.len() > 0 && (elem_has(s[0], k) || forest_has(s.drop_first(), k))
}

/// The value stored for key `k` in the subtree rooted at `e`
/// (meaningful only when `elem_has(e, k)`).
pub open spec fn elem_val<T>(e: Element<T>, k: Seq<char>) -> T
    recommends
        elem_has(e, k),
    decreases e,
{
    let rest = k.skip(e.spec_label().len() as int);
    if rest.len() == 0 {
        e.spec_value().unwrap()
    } else {
        forest_val(e.spec_children(), rest)
    }
}

/// The value stored for key `k` in the first tree of `s` that holds it
/// (meaningful only when `forest_has(s, k)`).
pub open spec fn forest_val<T>(s: Seq<Element<T>>, k: Seq<char>) -> T
    recommends
        forest_has(s, k),
    decreases s,
{
    if s.len() == 0 {
        Seq::<T>::empty()[0]
    } else if elem_has(s[0], k) {
        elem_val(s[0], k)
    } else {
        forest_val(s.drop_first(), k)
    }
}

/// Sibling lists are ordered by strictly increasing leading character,
/// which also rules out two siblings sharing one.
pub open spec fn children_ordered<T>(s: Seq<Element<T>>) -> bool {
    forall|i: int, j: int|
        #![trigger lead(s[i]), lead(s[j])]
        0 <= i < j < s.len() ==> (lead(s[i]) as u32) < (lead(s[j]) as u32)
}

/// Well-formedness of a node below the root: a non-empty label, no root
/// sentinel, no branch kept alive for fewer than two children, and an
/// ordered, well-formed child list.
pub open spec fn elem_wf<T>(e: Element<T>) -> bool
    decreases e,
{
    &&& !(e is Base)
    &&& e.spec_label().len() > 0
    &&& (e is Node ==> e.spec_children().len() >= 2)
    &&& children_ordered(e.spec_children())
    &&& forest_wf(e.spec_children())
}

/// Every tree of the forest is well-formed.
pub open spec fn forest_wf<T>(s: Seq<Element<T>>) -> bool
    decreases s,
{
    s.len() == 0 || (elem_wf(s[0]) && forest_wf(s.drop_first()))
}

/// A well-formed sibling list: ordered, and each entry well-formed.
pub open spec fn siblings_wf<T>(s: Seq<Element<T>>) -> bool {
    children_ordered(s) && forest_wf(s)
}

/// The number of nodes in the subtree rooted at `e`.
pub open spec fn elem_size<T>(e: Element<T>) -> nat
    decreases e,
{
    1 + forest_size(e.spec_children())
}

/// The number of nodes in the forest `s`.
pub open spec fn forest_size<T>(s: Seq<Element<T>>) -> nat
    decreases s,
{
    if s.len() == 0 {
        0
    } else {
        elem_size(s[0]) + forest_size(s.drop_first())
    }
}

/// A queue entry of the breadth-first collection covers key `k` when `k` is
/// the entry's accumulated prefix followed by a key of the entry's subtree.
pub open spec fn covers<T>(pfx: Seq<char>, e: Element<T>, k: Seq<char>) -> bool {
    pfx.is_prefix_of(k) && elem_has(e, k.skip(pfx.len() as int))
}

/// The number of tree nodes still queued for the breadth-first collection.
pub open spec fn pending_size<T>(q: Seq<(String, &Element<T>)>) -> nat
    decreases q,
{
    if q.len() == 0 {
        0
    } else {
        elem_size(*q[0].1) + pending_size(q.drop_first())
    }
}

proof fn lemma_pending_size_push<T>(q: Seq<(String, &Element<T>)>, p: String, e: &Element<T>)
    ensures
        pending_size(q.push((p, e))) == pending_size(q) + elem_size(*e),
    decreases q.len(),
{
    if q.len() == 0 {
        assert(q.push((p, e))[0] == (p, e));
        assert(q.push((p, e)).drop_first() =~= Seq::<(String, &Element<T>)>::empty());
        assert(pending_size(Seq::<(String, &Element<T>)>::empty()) == 0);
    } else {
        assert(q.push((p, e))[0] == q[0]);
        assert(q.push((p, e)).drop_first() =~= q.drop_first().push((p, e)));
        lemma_pending_size_push(q.drop_first(), p, e);
    }
}

proof fn lemma_pending_size_skip<T>(q: Seq<(String, &Element<T>)>, h: int)
    requires
        0 <= h < q.len(),
    ensures
        pending_size(q.skip(h)) == elem_size(*q[h].1) + pending_size(q.skip(h + 1)),
{
    assert(q.skip(h)[0] == q[h]);
    assert(q.skip(h).drop_first() =~= q.skip(h + 1));
}

proof fn lemma_forest_size_take<T>(s: Seq<Element<T>>, j: int)
    requires
        0 <= j < s.len(),
    ensures
        forest_size(s.take(j + 1)) == forest_size(s.take(j)) + elem_size(s[j]),
    decreases j,
{
    if j == 0 {
        assert(s.take(0).len() == 0);
        assert(s.take(1)[0] == s[0]);
        assert(s.take(1).drop_first() =~= s.take(0));
    } else {
        assert(s.take(j + 1)[0] == s[0]);
        assert(s.take(j)[0] == s[0]);
        assert(s.take(j + 1).drop_first() =~= s.drop_first().take(j));
        assert(s.take(j).drop_first() =~= s.drop_first().take(j - 1));
        lemma_forest_size_take(s.drop_first(), j - 1);
        assert(s.drop_first()[j - 1] == s[j]);
    }
}

/// Tag every tree of a forest with the accumulated prefix it will carry
/// through the breadth-first traversal.
pub open spec fn tag_children<T>(pfx: Seq<char>, s: Seq<Element<T>>) -> Seq<
    (Seq<char>, Element<T>),
> {
    s.map_values(|c: Element<T>| (pfx, c))
}

/// The number of tree nodes a ghost traversal queue still holds.
pub open spec fn queue_size<T>(q: Seq<(Seq<char>, Element<T>)>) -> nat
    decreases q,
{
    if q.len() == 0 {
        0
    } else {
        elem_size(q[0].1) + queue_size(q.drop_first())
    }
}

/// The breadth-first enumeration: pop the head entry, emit its full key and
/// value if it stores one, and append its children — tagged with that full
/// key — to the back of the queue.  This fixes the order `start_with` and
/// `collect_all_child_values` promise: a node's own pair before any of its
/// descendants', shallower nodes before deeper ones, siblings left to right.
pub open spec fn bfs_pairs<T>(q: Seq<(Seq<char>, Element<T>)>) -> Seq<(Seq<char>, T)>
    decreases queue_size(q),
    via bfs_pairs_decreases::<T>
{
    if q.len() == 0 {
        Seq::empty()
    } else {
        let full = q[0].0 + q[0].1.spec_label();
        let rest = q.drop_first() + tag_children(full, q[0].1.spec_children());
        if q[0].1 is Value {
            seq![(full, q[0].1.spec_value().unwrap())] + bfs_pairs(rest)
        } else {
            bfs_pairs(rest)
        }
    }
}

/// The breadth-first enumeration of a single subtree, its own label
/// included in every key.
pub open spec fn bfs_of<T>(e: Element<T>) -> Seq<(Seq<char>, T)> {
    bfs_pairs(seq![(Seq::<char>::empty(), e)])
}

/// The ghost reading of an executable result list: each string key as its
/// character sequence, each borrowed value as the value itself.
pub open spec fn emitted_pairs<T>(r: Seq<(String, &T)>) -> Seq<(Seq<char>, T)> {
    r.map_values(|p: (String, &T)| (p.0@, *p.1))
}

/// The same pairs with `pfx` spliced onto the front of every key.
pub open spec fn shift_pairs<T>(pfx: Seq<char>, g: Seq<(Seq<char>, T)>) -> Seq<(Seq<char>, T)> {
    g.map_values(|p: (Seq<char>, T)| (pfx + p.0, p.1))
}

/// The ghost reading of the executable traversal queue.
pub open spec fn pending_view<T>(q: Seq<(String, &Element<T>)>) -> Seq<(Seq<char>, Element<T>)> {
    q.map_values(|p: (String, &Element<T>)| (p.0@, *p.1))
}

proof fn lemma_queue_size_concat<T>(a: Seq<(Seq<char>, Element<T>)>, b: Seq<(Seq<char>, Element<T>)>)
    ensures
        queue_size(a + b) == queue_size(a) + queue_size(b),
    decreases a.len(),
{
    if a.len() == 0 {
        assert(a + b =~= b);
    } else {
        assert((a + b)[0] == a[0]);
        assert((a + b).drop_first() =~= a.drop_first() + b);
        lemma_queue_size_concat(a.drop_first(), b);
    }
}

proof fn lemma_queue_size_tag<T>(pfx: Seq<char>, s: Seq<Element<T>>)
    ensures
        queue_size(tag_children(pfx, s)) == forest_size(s),
    decreases s.len(),
{
    let t = tag_children(pfx, s);
    if s.len() == 0 {
        assert(t.len() == 0);
    } else {
        assert(t[0] == (pfx, s[0]));
        assert(t.drop_first() =~= tag_children(pfx, s.drop_first()));
        lemma_queue_size_tag(pfx, s.drop_first());
    }
}

#[via_fn]
proof fn bfs_pairs_decreases<T>(q: Seq<(Seq<char>, Element<T>)>) {
    if q.len() > 0 {
        let full = q[0].0 + q[0].1.spec_label();
        let rest = q.drop_first() + tag_children(full, q[0].1.spec_children());
        lemma_queue_size_concat(q.drop_first(), tag_children(full, q[0].1.spec_children()));
        lemma_queue_size_tag(full, q[0].1.spec_children());
        assert(queue_size(rest) < queue_size(q));
    }
}

/// Stepping down the tree: a key covered through child `jj` of `e` is
/// covered by `e`, with the same stored value.
proof fn lemma_covers_step<T>(p: Seq<char>, e: Element<T>, jj: int, k: Seq<char>)
    requires
        siblings_wf(e.spec_children()),
        0 <= jj < e.spec_children().len(),
        covers(p + e.spec_label(), e.spec_children()[jj], k),
    ensures
        covers(p, e, k),
        elem_val(e, k.skip(p.len() as int)) == elem_val(
            e.spec_children()[jj],
            k.skip((p + e.spec_label()).len() as int),
        ),
        k.len() > (p + e.spec_label()).len(),
{
    let full = p + e.spec_label();
    let c = e.spec_children()[jj];
    let k3 = k.skip(full.len() as int);
    let k2 = k.skip(p.len() as int);
    crate::lemmas::lemma_forest_wf_index(e.spec_children());
    crate::lemmas::lemma_elem_has_props(c, k3);
    assert(p.is_prefix_of(k)) by {
        assert(forall|x: int| 0 <= x < p.len() ==> p[x] == full[x] && full[x] == k[x]);
    }
    assert(e.spec_label().is_prefix_of(k2)) by {
        assert(forall|x: int|
            0 <= x < e.spec_label().len() ==> e.spec_label()[x] == full[p.len() + x] && full[p.len()
                + x] == k[p.len() + x]);
    }
    assert(k2.skip(e.spec_label().len() as int) =~= k3);
    crate::lemmas::lemma_forest_has_index(e.spec_children(), k3);
    assert(forest_has(e.spec_children(), k3));
    crate::lemmas::lemma_forest_val_resolve(e.spec_children(), k3, jj);
    assert(k2.len() > 0);
}

/// Splitting coverage: a key covered by `e` is either `e`'s own full key, or
/// covered through one of `e`'s children.
proof fn lemma_covers_split<T>(p: Seq<char>, e: Element<T>, k: Seq<char>)
    requires
        siblings_wf(e.spec_children()),
        covers(p, e, k),
    ensures
        k == p + e.spec_label() ==> e is Value,
        k != p + e.spec_label() ==> exists|jj: int|
            0 <= jj < e.spec_children().len() && covers(
                p + e.spec_label(),
                #[trigger] e.spec_children()[jj],
                k,
            ),
{
    let full = p + e.spec_label();
    let k2 = k.skip(p.len() as int);
    assert(e.spec_label().is_prefix_of(k2));
    let k3 = k2.skip(e.spec_label().len() as int);
    assert(full.is_prefix_of(k)) by {
        assert(forall|x: int| 0 <= x < p.len() ==> p[x] == k[x]);
        assert(forall|x: int| 0 <= x < e.spec_label().len() ==> e.spec_label()[x] == k2[x] && k2[x]
            == k[p.len() + x]);
    }
    assert(k.skip(full.len() as int) =~= k3);
    if k3.len() == 0 {
        assert(k =~= full);
    } else {
        assert(k != full) by {
            assert(k.len() > full.len());
        }
        assert(forest_has(e.spec_children(), k3));
        crate::lemmas::lemma_forest_has_index(e.spec_children(), k3);
        let jj = choose|jj: int|
            0 <= jj < e.spec_children().len() && elem_has(e.spec_children()[jj], k3);
        assert(covers(full, e.spec_children()[jj], k));
    }
}

/// Drop the first `n` scalar characters of `label`.
fn strip_prefix_chars(label: &mut String, n: usize)
    requires
        n <= old(label)@.len(),
    ensures
        final(label)@ == old(label)@.skip(n as int),
{
    let len = label.as_str().unicode_len();
    let rest = String::from_str(label.as_str().substring_char(n, len));
    proof {
        assert(rest@ =~= label@.skip(n as int));
    }
    *label = rest;
}

/// Put the scalar characters of `prefix` in front of `label`.
fn prepend_chars(label: &mut String, prefix: &str)
    ensures
        final(label)@ == prefix@ + old(label)@,
{
    let mut joined = String::from_str(prefix);
    joined.append(label.as_str());
    *label = joined;
}

impl<T> Element<T> {
    /// Strip the first `n` scalar characters off the node's label, as when a
    /// shared prefix moves into a new parent.
    pub(crate) fn remove_label_prefix(&mut self, n: usize)
        requires
            n <= old(self).spec_label().len(),
        ensures
            final(self).spec_label() == old(self).spec_label().skip(n as int),
            final(self).spec_children() == old(self).spec_children(),
            final(self).spec_value() == old(self).spec_value(),
            *final(self) is Value <==> *old(self) is Value,
            *final(self) is Node <==> *old(self) is Node,
    {
        match self {
            Element::Value { label, .. } => strip_prefix_chars(label, n),
            Element::Node { label, .. } => strip_prefix_chars(label, n),
            Element::Base { label, .. } => strip_prefix_chars(label, n),
        }
    }

    /// Splice `prefix` onto the front of the node's label, as when a node
    /// absorbs the label of an eliminated parent.
    pub(crate) fn add_label_prefix(&mut self, prefix: &str)
        ensures
            final(self).spec_label() == prefix@ + old(self).spec_label(),
            final(self).spec_children() == old(self).spec_children(),
            final(self).spec_value() == old(self).spec_value(),
            *final(self) is Value <==> *old(self) is Value,
            *final(self) is Node <==> *old(self) is Node,
    {
        match self {
            Element::Value { label, .. } => prepend_chars(label, prefix),
            Element::Node { label, .. } => prepend_chars(label, prefix),
            Element::Base { label, .. } => prepend_chars(label, prefix),
        }
    }

    /// The node's label.
    pub fn label(&self) -> (r: &str)
        ensures
            r@ == self.spec_label(),
    {
        match self {
            Element::Value { label, .. } => label.as_str(),
            Element::Node { label, .. } => label.as_str(),
            Element::Base { label, .. } => label.as_str(),
        }
    }

    /// Replace the node's label; the root sentinel keeps no label, so it is
    /// excluded.
    pub fn set_label(self, label: String) -> (r: Self)
        requires
            !(self is Base),
        ensures
            r.spec_label() == label@,
            r.spec_value() == self.spec_value(),
            r.spec_children() == self.spec_children(),
            r is Value <==> self is Value,
            r is Node <==> self is Node,
    {
        match self {
            Element::Value { label: _, value, children } => Element::Value { label, value, children },
            Element::Node { label: _, children } => Element::Node { label, children },
            Element::Base { label: _, children } => {
                proof {
                    assert(false);
                }
                Element::Base { label, children }
            },
        }
    }

    /// Borrow the child list mutably; the label, the value and the node kind
    /// stay as they are.
    pub fn children_mut(&mut self) -> (r: &mut Vec<Element<T>>)
        ensures
            (*r)@ == old(self).spec_children(),
            final(self).spec_children() == (*final(r))@,
            same_shell(*final(self), *old(self)),
    {
        match self {
            Element::Value { children, .. } => children,
            Element::Node { children, .. } => children,
            Element::Base { children, .. } => children,
        }
    }

    /// Borrow the child list.
    pub fn children(&self) -> (r: &Vec<Element<T>>)
        ensures
            (*r)@ == self.spec_children(),
    {
        match self {
            Element::Value { children, .. } => children,
            Element::Node { children, .. } => children,
            Element::Base { children, .. } => children,
        }
    }

    /// Take the child list, consuming the node.
    pub fn children_own(self) -> (r: Vec<Element<T>>)
        ensures
            r@ == self.spec_children(),
    {
        match self {
            Element::Value { children, .. } => children,
            Element::Node { children, .. } => children,
            Element::Base { children, .. } => children,
        }
    }

    /// Borrow the stored value, if the node carries one.
    pub fn value(&self) -> (r: Option<&T>)
        ensures
            r is Some <==> self.spec_value() is Some,
            r matches Some(v) ==> self.spec_value() == Some(*v),
    {
        match self {
            Element::Value { value, .. } => Some(value),
            _ => None,
        }
    }

    /// Borrow the stored value mutably, if the node carries one; everything
    /// else about the node stays as it is.
    pub fn value_mut(&mut self) -> (r: Option<&mut T>)
        ensures
            r is Some <==> *old(self) is Value,
            *old(self) is Value ==> {
                &&& *r.unwrap() == old(self).spec_value().unwrap()
                &&& *final(self) is Value
                &&& final(self).spec_label() == old(self).spec_label()
                &&& final(self).spec_children() == old(self).spec_children()
                &&& final(self).spec_value() == Some(*final(r.unwrap()))
            },
            !(*old(self) is Value) ==> *final(self) == *old(self),
    {
        match self {
            Element::Value { value, .. } => Some(value),
            _ => None,
        }
    }

    /// Is this node a plain branch (no value, not the root sentinel)?
    pub fn is_node(&self) -> (r: bool)
        ensures
            r == (self is Node),
    {
        match self {
            Element::Node { .. } => true,
            _ => false,
        }
    }

    /// Collect every stored value of this subtree with its reconstructed
    /// full key (this node's label included).  The result is exactly the
    /// breadth-first enumeration `bfs_of(self)`: this node's own pair first,
    /// then each level left to right, every node before its descendants.
    #[verifier::loop_isolation(false)]
    pub fn collect_all_child_values<'a>(&'a self) -> (r: Vec<(String, &'a T)>)
        requires
            siblings_wf(self.spec_children()),
        ensures
            forall|idx: int|
                0 <= idx < r@.len() ==> elem_has(*self, (#[trigger] r@[idx]).0@) && *r@[idx].1
                    == elem_val(*self, r@[idx].0@),
            forall|k: Seq<char>|
                #[trigger] elem_has(*self, k) ==> exists|idx: int|
                    0 <= idx < r@.len() && r@[idx].0@ == k,
            forall|i1: int, i2: int|
                0 <= i1 < i2 < r@.len() ==> (#[trigger] r@[i1]).0@ != (#[trigger] r@[i2]).0@,
            emitted_pairs(r@) == bfs_of(*self),
    {
        let ghost root = *self;
        let ghost lab0 = self.spec_label();
        let mut res: Vec<(String, &'a T)> = Vec::new();
        match self.value() {
            Some(v) => {
                res.push((String::from_str(self.label()), v));
                proof {
                    assert(lab0.is_prefix_of(lab0)) by {
                        assert(lab0 =~= lab0.subrange(0, lab0.len() as int));
                    }
                    assert(lab0.skip(lab0.len() as int).len() == 0);
                    assert(elem_has(root, lab0));
                }
            },
            None => {},
        }
        let mut queue: Vec<(String, &'a Element<T>)> = Vec::new();
        let children = self.children();
        let mut ci: usize = 0;
        while ci < children.len()
            invariant
                ci <= children@.len(),
                queue@.len() == ci,
                forall|j: int|
                    0 <= j < ci ==> (#[trigger] queue@[j]).0@ == lab0 && *queue@[j].1
                        == root.spec_children()[j],
            decreases children@.len() - ci,
        {
            queue.push((String::from_str(self.label()), &children[ci]));
            ci += 1;
        }
        proof {
            lemma_forest_wf_index(root.spec_children());
            assert(lab0.is_prefix_of(lab0)) by {
                assert(lab0 =~= lab0.subrange(0, lab0.len() as int));
            }
            assert forall|j: int, k: Seq<char>|
                0 <= j < queue@.len() && #[trigger] covers(queue@[j].0@, *queue@[j].1, k) implies
                elem_has(root, k) && elem_val(root, k) == elem_val(
                    *queue@[j].1,
                    k.skip(queue@[j].0@.len() as int),
                ) by {
                let c = root.spec_children()[j];
                let k2 = k.skip(lab0.len() as int);
                lemma_elem_has_props(c, k2);
                lemma_forest_has_index(root.spec_children(), k2);
                lemma_forest_val_resolve(root.spec_children(), k2, j);
            }
            assert forall|k: Seq<char>| #[trigger] elem_has(root, k) implies (exists|idx: int|
                0 <= idx < res@.len() && (#[trigger] res@[idx]).0@ == k) || (exists|j: int|
                0 <= j < queue@.len() && covers((#[trigger] queue@[j]).0@, *queue@[j].1, k)) by {
                let k2 = k.skip(lab0.len() as int);
                if k2.len() == 0 {
                    assert(k =~= lab0);
                    assert(res@[0].0@ == k);
                } else {
                    lemma_forest_has_index(root.spec_children(), k2);
                    let j = choose|j: int|
                        0 <= j < root.spec_children().len() && elem_has(root.spec_children()[j], k2);
                    assert(covers(queue@[j].0@, *queue@[j].1, k));
                }
            }
            assert forall|idx: int, j: int|
                0 <= idx < res@.len() && 0 <= j < queue@.len() implies !covers(
                    (#[trigger] queue@[j]).0@,
                    *queue@[j].1,
                    (#[trigger] res@[idx]).0@,
                ) by {
                if covers(queue@[j].0@, *queue@[j].1, lab0) {
                    lemma_elem_has_props(*queue@[j].1, lab0.skip(lab0.len() as int));
                }
            }
            assert forall|j1: int, j2: int, k: Seq<char>|
                #![trigger covers(queue@[j1].0@, *queue@[j1].1, k), covers(queue@[j2].0@, *queue@[j2].1, k)]
                0 <= j1 < queue@.len() && 0 <= j2 < queue@.len() && j1 != j2 implies !(covers(
                    queue@[j1].0@,
                    *queue@[j1].1,
                    k,
                ) && covers(queue@[j2].0@, *queue@[j2].1, k)) by {
                let k2 = k.skip(lab0.len() as int);
                if covers(queue@[j1].0@, *queue@[j1].1, k) && covers(
                    queue@[j2].0@,
                    *queue@[j2].1,
                    k,
                ) {
                    lemma_forest_unique(root.spec_children(), k2, j1, j2);
                }
            }
            let full0 = Seq::<char>::empty() + lab0;
            assert(full0 =~= lab0);
            let qinit = seq![(Seq::<char>::empty(), root)];
            assert(qinit[0] == (Seq::<char>::empty(), root));
            assert(qinit.drop_first() =~= Seq::<(Seq<char>, Element<T>)>::empty());
            assert(qinit.drop_first() + tag_children(full0, root.spec_children()) =~= tag_children(
                lab0,
                root.spec_children(),
            )) by {
                assert(tag_children(full0, root.spec_children()).len() == root.spec_children().len());
                assert forall|j: int|
                    0 <= j < root.spec_children().len() implies tag_children(
                        full0,
                        root.spec_children(),
                    )[j] == tag_children(lab0, root.spec_children())[j] by {
                    assert(tag_children(full0, root.spec_children())[j] == (
                        full0,
                        root.spec_children()[j],
                    ));
                    assert(tag_children(lab0, root.spec_children())[j] == (
                        lab0,
                        root.spec_children()[j],
                    ));
                }
            }
            assert(pending_view(queue@) =~= tag_children(lab0, root.spec_children())) by {
                assert(pending_view(queue@).len() == queue@.len());
                assert forall|j: int| 0 <= j < queue@.len() implies pending_view(queue@)[j]
                    == tag_children(lab0, root.spec_children())[j] by {
                    assert(pending_view(queue@)[j] == (queue@[j].0@, *queue@[j].1));
                    assert(tag_children(lab0, root.spec_children())[j] == (
                        lab0,
                        root.spec_children()[j],
                    ));
                }
            }
            if root is Value {
                assert(bfs_of(root) == seq![(lab0, root.spec_value().unwrap())] + bfs_pairs(
                    pending_view(queue@),
                ));
                assert(emitted_pairs(res@) =~= seq![(lab0, root.spec_value().unwrap())]) by {
                    assert(emitted_pairs(res@)[0] == (res@[0].0@, *res@[0].1));
                }
                assert(emitted_pairs(res@) + bfs_pairs(pending_view(queue@.skip(0))) =~= bfs_of(
                    root,
                )) by {
                    assert(queue@.skip(0) =~= queue@);
                }
            } else {
                assert(bfs_of(root) == bfs_pairs(pending_view(queue@)));
                assert(emitted_pairs(res@) =~= Seq::<(Seq<char>, T)>::empty());
                assert(emitted_pairs(res@) + bfs_pairs(pending_view(queue@.skip(0))) =~= bfs_of(
                    root,
                )) by {
                    assert(queue@.skip(0) =~= queue@);
                }
            }
        }
        let mut head: usize = 0;
        while head < queue.len()
            invariant
                head <= queue@.len(),
                forall|j: int| 0 <= j < queue@.len() ==> elem_wf(*(#[trigger] queue@[j]).1),
                forall|j: int, k: Seq<char>|
                    0 <= j < queue@.len() && #[trigger] covers(queue@[j].0@, *queue@[j].1, k)
                        ==> elem_has(root, k) && elem_val(root, k) == elem_val(
                        *queue@[j].1,
                        k.skip(queue@[j].0@.len() as int),
                    ),
                forall|idx: int|
                    0 <= idx < res@.len() ==> elem_has(root, (#[trigger] res@[idx]).0@)
                        && *res@[idx].1 == elem_val(root, res@[idx].0@),
                forall|k: Seq<char>|
                    #[trigger] elem_has(root, k) ==> (exists|idx: int|
                        0 <= idx < res@.len() && (#[trigger] res@[idx]).0@ == k) || (exists|j: int|
                        head <= j < queue@.len() && covers(
                            (#[trigger] queue@[j]).0@,
                            *queue@[j].1,
                            k,
                        )),
                forall|i1: int, i2: int|
                    0 <= i1 < i2 < res@.len() ==> (#[trigger] res@[i1]).0@ != (
                    #[trigger] res@[i2]).0@,
                forall|idx: int, j: int|
                    0 <= idx < res@.len() && head <= j < queue@.len() ==> !covers(
                        (#[trigger] queue@[j]).0@,
                        *queue@[j].1,
                        (#[trigger] res@[idx]).0@,
                    ),
                forall|j1: int, j2: int, k: Seq<char>|
                    #![trigger covers(queue@[j1].0@, *queue@[j1].1, k), covers(queue@[j2].0@, *queue@[j2].1, k)]
                    head <= j1 < queue@.len() && head <= j2 < queue@.len() && j1 != j2 ==> !(covers(
                        queue@[j1].0@,
                        *queue@[j1].1,
                        k,
                    ) && covers(queue@[j2].0@, *queue@[j2].1, k)),
                emitted_pairs(res@) + bfs_pairs(pending_view(queue@.skip(head as int))) == bfs_of(
                    root,
                ),
            decreases pending_size(queue@.skip(head as int)),
        {
            let ghost q0 = queue@;
            let ghost r0 = res@;
            let ghost h0 = head as int;
            let pair_pfx = queue[head].0.clone();
            let node = queue[head].1;
            let ghost e = *node;
            let ghost p = pair_pfx@;
            head += 1;
            let mut full = pair_pfx;
            full.append(node.label());
            let ghost fullk = full@;
            proof {
                lemma_pending_size_skip(q0, h0);
                assert(fullk == p + e.spec_label());
                lemma_forest_wf_index(e.spec_children());
            }
            match node.value() {
                Some(v) => {
                    res.push((full.clone(), v));
                    proof {
                        assert(e.spec_label().is_prefix_of(e.spec_label())) by {
                            assert(e.spec_label() =~= e.spec_label().subrange(
                                0,
                                e.spec_label().len() as int,
                            ));
                        }
                        assert(e.spec_label().skip(e.spec_label().len() as int).len() == 0);
                        assert(elem_has(e, e.spec_label()));
                        assert(fullk.skip(p.len() as int) =~= e.spec_label());
                        assert(covers(p, e, fullk)) by {
                            assert(p.is_prefix_of(fullk)) by {
                                assert(p =~= fullk.subrange(0, p.len() as int));
                            }
                        }
                        assert(elem_has(root, fullk));
                        assert(elem_val(root, fullk) == elem_val(e, e.spec_label()));
                        assert(elem_val(e, e.spec_label()) == e.spec_value().unwrap());
                        assert forall|idx: int| 0 <= idx < r0.len() implies (
                        #[trigger] r0[idx]).0@ != fullk by {
                            assert(!covers(q0[h0].0@, *q0[h0].1, r0[idx].0@));
                        }
                        assert(emitted_pairs(res@) =~= emitted_pairs(r0) + seq![
                            (fullk, e.spec_value().unwrap()),
                        ]) by {
                            assert(emitted_pairs(res@).len() == res@.len());
                            assert forall|x: int| 0 <= x < res@.len() implies emitted_pairs(res@)[x]
                                == (emitted_pairs(r0) + seq![(fullk, e.spec_value().unwrap())])[x]
                                by {
                                assert(emitted_pairs(res@)[x] == (res@[x].0@, *res@[x].1));
                                if x < r0.len() {
                                    assert(emitted_pairs(r0)[x] == (r0[x].0@, *r0[x].1));
                                }
                            }
                        }
                    }
                },
                None => {
                    proof {
                        assert(emitted_pairs(res@) == emitted_pairs(r0));
                    }
                },
            }
            let ghost r1 = res@;
            let cs = node.children();
            let ghost qlen0 = queue@.len() as int;
            let mut j: usize = 0;
            while j < cs.len()
                invariant
                    j <= cs@.len(),
                    queue@.len() == qlen0 + j,
                    forall|jj: int| 0 <= jj < qlen0 ==> #[trigger] queue@[jj] == q0[jj],
                    forall|jj: int|
                        qlen0 <= jj < queue@.len() ==> (#[trigger] queue@[jj]).0@ == fullk
                            && *queue@[jj].1 == cs@[jj - qlen0],
                    pending_size(queue@.skip(h0 + 1)) == pending_size(q0.skip(h0 + 1))
                        + forest_size(cs@.take(j as int)),
                decreases cs@.len() - j,
            {
                let ghost qb = queue@;
                queue.push((full.clone(), &cs[j]));
                proof {
                    assert(queue@.skip(h0 + 1) =~= qb.skip(h0 + 1).push(queue@[qb.len() as int]));
                    lemma_pending_size_push(
                        qb.skip(h0 + 1),
                        queue@[qb.len() as int].0,
                        queue@[qb.len() as int].1,
                    );
                    lemma_forest_size_take(cs@, j as int);
                }
                j += 1;
            }
            proof {
                let q1 = queue@;
                assert(cs@.take(cs@.len() as int) =~= cs@);
                assert(pending_size(q1.skip(h0 + 1)) < pending_size(q0.skip(h0)));
                assert forall|jj: int| 0 <= jj < q1.len() implies elem_wf(*(#[trigger] q1[jj]).1)
                    by {
                    if jj >= qlen0 {
                        assert(*q1[jj].1 == cs@[jj - qlen0]);
                    }
                }
                assert forall|jj: int, k: Seq<char>|
                    0 <= jj < q1.len() && #[trigger] covers(q1[jj].0@, *q1[jj].1, k) implies
                    elem_has(root, k) && elem_val(root, k) == elem_val(
                        *q1[jj].1,
                        k.skip(q1[jj].0@.len() as int),
                    ) by {
                    if jj >= qlen0 {
                        lemma_covers_step(p, e, jj - qlen0, k);
                        assert(covers(q0[h0].0@, *q0[h0].1, k));
                    }
                }
                assert forall|k: Seq<char>| #[trigger] elem_has(root, k) implies (exists|idx: int|
                    0 <= idx < res@.len() && (#[trigger] res@[idx]).0@ == k) || (exists|jj: int|
                    head <= jj < q1.len() && covers((#[trigger] q1[jj]).0@, *q1[jj].1, k)) by {
                    if !(exists|idx: int| 0 <= idx < r0.len() && (#[trigger] r0[idx]).0@ == k) {
                        let jold = choose|jold: int|
                            h0 <= jold < q0.len() && covers(
                                (#[trigger] q0[jold]).0@,
                                *q0[jold].1,
                                k,
                            );
                        if jold == h0 {
                            lemma_covers_split(p, e, k);
                            if k == fullk {
                                assert(res@[r1.len() - 1].0@ == k);
                            } else {
                                let jj = choose|jj: int|
                                    0 <= jj < e.spec_children().len() && covers(
                                        fullk,
                                        #[trigger] e.spec_children()[jj],
                                        k,
                                    );
                                assert(covers(q1[qlen0 + jj].0@, *q1[qlen0 + jj].1, k));
                            }
                        } else {
                            assert(covers(q1[jold].0@, *q1[jold].1, k));
                        }
                    } else {
                        let idx = choose|idx: int| 0 <= idx < r0.len() && (#[trigger] r0[idx]).0@
                            == k;
                        assert(res@[idx].0@ == k);
                    }
                }
                assert forall|idx: int, jj: int|
                    0 <= idx < res@.len() && head <= jj < q1.len() implies !covers(
                        (#[trigger] q1[jj]).0@,
                        *q1[jj].1,
                        (#[trigger] res@[idx]).0@,
                    ) by {
                    let k = res@[idx].0@;
                    if covers(q1[jj].0@, *q1[jj].1, k) {
                        if jj >= qlen0 {
                            lemma_covers_step(p, e, jj - qlen0, k);
                            if idx < r0.len() {
                                assert(!covers(q0[h0].0@, *q0[h0].1, r0[idx].0@));
                            } else {
                                assert(k == fullk);
                                assert(k.len() > fullk.len());
                            }
                        } else {
                            if idx < r0.len() {
                                assert(!covers(q0[jj].0@, *q0[jj].1, r0[idx].0@));
                            } else {
                                assert(k == fullk);
                                assert(covers(q0[h0].0@, *q0[h0].1, fullk));
                                assert(!(covers(q0[h0].0@, *q0[h0].1, k) && covers(
                                    q0[jj].0@,
                                    *q0[jj].1,
                                    k,
                                )));
                            }
                        }
                    }
                }
                assert forall|i1: int, i2: int| 0 <= i1 < i2 < res@.len() implies (
                #[trigger] res@[i1]).0@ != (#[trigger] res@[i2]).0@ by {
                    if i2 >= r0.len() {
                        assert(r0[i1].0@ != fullk);
                    }
                }
                assert forall|j1: int, j2: int, k: Seq<char>|
                    #![trigger covers(q1[j1].0@, *q1[j1].1, k), covers(q1[j2].0@, *q1[j2].1, k)]
                    head <= j1 < q1.len() && head <= j2 < q1.len() && j1 != j2 implies !(covers(
                        q1[j1].0@,
                        *q1[j1].1,
                        k,
                    ) && covers(q1[j2].0@, *q1[j2].1, k)) by {
                    if covers(q1[j1].0@, *q1[j1].1, k) && covers(q1[j2].0@, *q1[j2].1, k) {
                        if j1 >= qlen0 && j2 >= qlen0 {
                            let k3 = k.skip(fullk.len() as int);
                            lemma_forest_unique(e.spec_children(), k3, j1 - qlen0, j2 - qlen0);
                        } else if j1 >= qlen0 {
                            lemma_covers_step(p, e, j1 - qlen0, k);
                            assert(!(covers(q0[h0].0@, *q0[h0].1, k) && covers(
                                q0[j2].0@,
                                *q0[j2].1,
                                k,
                            )));
                        } else if j2 >= qlen0 {
                            lemma_covers_step(p, e, j2 - qlen0, k);
                            assert(!(covers(q0[h0].0@, *q0[h0].1, k) && covers(
                                q0[j1].0@,
                                *q0[j1].1,
                                k,
                            )));
                        } else {
                            assert(!(covers(q0[j1].0@, *q0[j1].1, k) && covers(
                                q0[j2].0@,
                                *q0[j2].1,
                                k,
                            )));
                        }
                    }
                }
                let pend0 = pending_view(q0.skip(h0));
                let pend1 = pending_view(q1.skip(h0 + 1));
                assert(pend0.len() == q0.len() - h0);
                assert(pend0[0] == (q0[h0].0@, *q0[h0].1)) by {
                    assert(q0.skip(h0)[0] == q0[h0]);
                }
                assert(pend0[0] == (p, e));
                assert(pend0[0].0 + pend0[0].1.spec_label() == fullk);
                let tagged = tag_children(fullk, e.spec_children());
                let rest = pend0.drop_first() + tagged;
                assert(pend1 =~= rest) by {
                    assert(tagged.len() == cs@.len());
                    assert(pend1.len() == q1.len() - (h0 + 1));
                    assert forall|x: int| 0 <= x < pend1.len() implies pend1[x] == rest[x] by {
                        assert(q1.skip(h0 + 1)[x] == q1[h0 + 1 + x]);
                        assert(pend1[x] == (q1[h0 + 1 + x].0@, *q1[h0 + 1 + x].1));
                        if h0 + 1 + x < q0.len() {
                            assert(q1[h0 + 1 + x] == q0[h0 + 1 + x]);
                            assert(q0.skip(h0)[x + 1] == q0[h0 + 1 + x]);
                            assert(pend0.drop_first()[x] == pend0[x + 1]);
                            assert(pend0[x + 1] == (q0[h0 + 1 + x].0@, *q0[h0 + 1 + x].1));
                        } else {
                            let jj = h0 + 1 + x - q0.len();
                            assert(q1[h0 + 1 + x].0@ == fullk && *q1[h0 + 1 + x].1 == cs@[jj]);
                            assert(rest[x] == tagged[x - (pend0.len() - 1)]);
                            assert(tagged[jj] == (fullk, cs@[jj]));
                        }
                    }
                }
                assert(bfs_pairs(pend0) == if e is Value {
                    seq![(fullk, e.spec_value().unwrap())] + bfs_pairs(rest)
                } else {
                    bfs_pairs(rest)
                });
                if e is Value {
                    assert(emitted_pairs(res@) + bfs_pairs(pend1) =~= emitted_pairs(r0)
                        + bfs_pairs(pend0)) by {
                        assert(emitted_pairs(res@) == emitted_pairs(r0) + seq![
                            (fullk, e.spec_value().unwrap()),
                        ]);
                        assert(bfs_pairs(pend1) == bfs_pairs(rest));
                    }
                } else {
                    assert(emitted_pairs(res@) + bfs_pairs(pend1) == emitted_pairs(r0)
                        + bfs_pairs(pend0));
                }
            }
        }
        proof {
            assert(head == queue@.len());
            assert(queue@.skip(head as int) =~= Seq::<(String, &Element<T>)>::empty());
            assert(pending_view(Seq::<(String, &Element<T>)>::empty()) =~= Seq::<
                (Seq<char>, Element<T>),
            >::empty());
            assert(pending_view(queue@.skip(head as int)) == Seq::<
                (Seq<char>, Element<T>),
            >::empty());
            assert(bfs_pairs(Seq::<(Seq<char>, Element<T>)>::empty()) == Seq::<
                (Seq<char>, T),
            >::empty());
            assert(emitted_pairs(res@) + Seq::<(Seq<char>, T)>::empty() =~= emitted_pairs(res@));
            assert(bfs_pairs(pending_view(queue@.skip(head as int))) == Seq::<
                (Seq<char>, T),
            >::empty());
            assert(emitted_pairs(res@) + bfs_pairs(pending_view(queue@.skip(head as int)))
                == bfs_of(root));
            assert(emitted_pairs(res@) == bfs_of(root));
        }
        res
    }

    /// Unpack the node into its label, its value and its children.
    pub fn unpack(self) -> (r: (String, Option<T>, Vec<Element<T>>))
        ensures
            r.0@ == self.spec_label(),
            r.1 == self.spec_value(),
            r.2@ == self.spec_children(),
    {
        match self {
            Element::Value { label, value, children } => (label, Some(value), children),
            Element::Node { label, children } => (label, None, children),
            Element::Base { label, children } => (label, None, children),
        }
    }
}

} // verus!
