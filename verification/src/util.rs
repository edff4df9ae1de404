//! Ordering helpers: leading characters, sibling binary search, and
//! longest-common-prefix computation over scalar characters.

use vstd::prelude::*;
use vstd::string::StrSliceExecFns;
use vstd::string::StringExecFns;

use crate::element::{children_ordered, lead, Element};

verus! {

/// Binary search over a sibling list ordered by leading character: the index
/// of the first sibling whose leading character is at least `target`, or the
/// list's length when all are smaller.
pub fn binary_search<T>(target: char, array: &[Element<T>]) -> (r: usize)
    requires
        children_ordered(array@),
        forall|j: int| 0 <= j < array@.len() ==> (#[trigger] array@[j].spec_label()).len() > 0,
    ensures
        r <= array@.len(),
        forall|j: int| 0 <= j < r ==> (lead(#[trigger] array@[j]) as u32) < (target as u32),
        forall|j: int| r <= j < array@.len() ==> (lead(#[trigger] array@[j]) as u32) >= (
        target as u32),
{
    let mut first: usize = 0;
    let mut last: usize = array.len();
    while first < last
        invariant
            first <= last <= array@.len(),
            children_ordered(array@),
            forall|j: int| 0 <= j < array@.len() ==> (#[trigger] array@[j].spec_label()).len() > 0,
            forall|j: int| 0 <= j < first ==> (lead(#[trigger] array@[j]) as u32) < (target as u32),
            forall|j: int|
                last <= j < array@.len() ==> (lead(#[trigger] array@[j]) as u32) >= (target as u32),
        decreases last - first,
    {
        let mid = first + (last - first) / 2;
        let mid_val = array[mid].label();
        if (first_char(mid_val) as u32) < (target as u32) {
            proof {
                assert forall|j: int| 0 <= j < mid + 1 implies (lead(#[trigger] array@[j]) as u32)
                    < (target as u32) by {
                    if j < mid {
                        assert((lead(array@[j]) as u32) < (lead(array@[mid as int]) as u32));
                    }
                }
            }
            first = mid + 1;
        } else {
            proof {
                assert forall|j: int| mid <= j < array@.len() implies (lead(
                    #[trigger] array@[j],
                ) as u32) >= (target as u32) by {
                    if j > mid {
                        assert((lead(array@[mid as int]) as u32) < (lead(array@[j]) as u32));
                    }
                }
            }
            last = mid;
        }
    }
    first
}

/// The number of leading scalar characters shared by `s1` and `s2`.
pub(crate) fn shared_prefix_len(s1: &str, s2: &str) -> (r: usize)
    ensures
        r <= s1@.len() && r <= s2@.len(),
        forall|x: int| 0 <= x < r ==> s1@[x] == s2@[x],
        r < s1@.len() && r < s2@.len() ==> s1@[r as int] != s2@[r as int],
{
    let n1 = s1.unicode_len();
    let n2 = s2.unicode_len();
    let mut i: usize = 0;
    while i < n1 && i < n2
        invariant
            i <= n1 == s1@.len() && i <= n2 == s2@.len(),
            forall|x: int| 0 <= x < i ==> s1@[x] == s2@[x],
        decreases n1 - i,
    {
        if s1.get_char(i) != s2.get_char(i) {
            return i;
        }
        i += 1;
    }
    i
}

/// The longest string that is a prefix of both inputs, compared scalar
/// character by scalar character; if one input is a prefix of the other, the
/// shared part is the shorter input in full.
pub fn longest_shared_prefix<'a>(s1: &'a str, s2: &'a str) -> (r: &'a str)
    ensures
        r@.len() <= s1@.len() && r@.len() <= s2@.len(),
        r@ == s1@.subrange(0, r@.len() as int),
        r@ == s2@.subrange(0, r@.len() as int),
        r@.len() < s1@.len() && r@.len() < s2@.len() ==> s1@[r@.len() as int] != s2@[r@.len()
            as int],
{
    let l = shared_prefix_len(s1, s2);
    let r = s1.substring_char(0, l);
    proof {
        assert(r@ =~= s1@.subrange(0, l as int));
        assert(r@ =~= s2@.subrange(0, l as int));
    }
    r
}

/// Build a value-bearing node from a label, a value and a child list.
pub fn value_element<T>(label: &str, value: T, children: Vec<Element<T>>) -> (r: Element<T>)
    ensures
        r is Value,
        r.spec_label() == label@,
        r.spec_value() == Some(value),
        r.spec_children() == children@,
{
    Element::Value { label: String::from_str(label), value, children }
}

/// The first scalar character of a non-empty string.
pub fn first_char(s: &str) -> (r: char)
    requires
        s@.len() > 0,
    ensures
        r == s@[0],
{
    s.get_char(0)
}

} // verus!
