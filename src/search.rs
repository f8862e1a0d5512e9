//! Linear and binary search over slices.
use vstd::prelude::*;
use core::cmp::Ordering;
use vstd::std_specs::cmp::{OrdSpec, PartialEqSpec};

verus! {

/// `T`'s `cmp` behaves as `Ord` asks of it: a total order, consistent in
/// both directions and transitive.
pub open spec fn lawful_order<T: Ord>() -> bool {
    &&& T::obeys_cmp_spec()
    &&& forall|a: T, b: T| #[trigger] a.cmp_spec(&b) == Ordering::Less <==> b.cmp_spec(&a) == Ordering::Greater
    &&& forall|a: T, b: T, c: T| #[trigger] a.cmp_spec(&b) != Ordering::Greater && #[trigger] b.cmp_spec(&c) != Ordering::Greater ==> a.cmp_spec(&c) != Ordering::Greater
    &&& forall|a: T, b: T, c: T| #[trigger] a.cmp_spec(&b) == Ordering::Less && #[trigger] b.cmp_spec(&c) == Ordering::Less ==> a.cmp_spec(&c) == Ordering::Less
}

/// No element of `s` is greater than one that comes after it.
pub open spec fn sorted<T: Ord>(s: Seq<T>) -> bool {
    forall|i: int, j: int| 0 <= i < j < s.len() ==> #[trigger] s[i].cmp_spec(&s[j]) != Ordering::Greater
}

/// The first position of `arr` whose element equals `target`, if any.
pub fn linear_search_iterative<T: Ord>(arr: &[T], target: &T) -> (r: Option<usize>)
    requires
        T::obeys_eq_spec(),
    ensures
        r matches Some(i) ==> i < arr@.len() && arr@[i as int].eq_spec(target) && forall|j: int| 0 <= j < i ==> !arr@[j].eq_spec(target),
        r is None ==> forall|j: int| 0 <= j < arr@.len() ==> !arr@[j].eq_spec(target),
{
    let mut pos: usize = 0;
    while pos < arr.len()
        invariant
            T::obeys_eq_spec(),
            pos <= arr@.len(),
            forall|j: int| 0 <= j < pos ==> !arr@[j].eq_spec(target),
        decreases arr@.len() - pos,
    {
        if arr[pos] == *target {
            return Some(pos);
        }
        pos = pos + 1;
    }
    None
}

fn linear_from<T: Ord>(arr: &[T], target: &T, index: usize) -> (r: Option<usize>)
    requires
        T::obeys_eq_spec(),
        index <= arr@.len(),
        forall|j: int| 0 <= j < index ==> !arr@[j].eq_spec(target),
    ensures
        r matches Some(i) ==> i < arr@.len() && arr@[i as int].eq_spec(target) && forall|j: int| 0 <= j < i ==> !arr@[j].eq_spec(target),
        r is None ==> forall|j: int| 0 <= j < arr@.len() ==> !arr@[j].eq_spec(target),
    decreases arr@.len() - index,
{
    if index < arr.len() && arr[index] == *target {
        Some(index)
    } else if index < arr.len() {
        linear_from(arr, target, index + 1)
    } else {
        None
    }
}

/// The first position of `arr` whose element equals `target`, if any,
/// found by recursion over the positions.
pub fn linear_search_recursive<T: Ord>(arr: &[T], target: &T) -> (r: Option<usize>)
    requires
        T::obeys_eq_spec(),
    ensures
        r matches Some(i) ==> i < arr@.len() && arr@[i as int].eq_spec(target) && forall|j: int| 0 <= j < i ==> !arr@[j].eq_spec(target),
        r is None ==> forall|j: int| 0 <= j < arr@.len() ==> !arr@[j].eq_spec(target),
{
    linear_from(arr, target, 0)
}

/// The position that halving the region `lower..upper` of `arr` settles on:
/// probe its middle, stop on an equal element, otherwise keep the half on
/// the side of `target`.
pub open spec fn bisect<T: Ord>(arr: Seq<T>, target: T, lower: int, upper: int) -> Option<int>
    decreases upper - lower,
{
    if 0 <= lower < upper <= arr.len() {
        let mid = lower + (upper - lower) / 2;
        if arr[mid].cmp_spec(&target) == Ordering::Equal {
            Some(mid)
        } else if arr[mid].cmp_spec(&target) == Ordering::Less {
            bisect(arr, target, mid + 1, upper)
        } else {
            bisect(arr, target, lower, mid)
        }
    } else {
        None
    }
}

proof fn lemma_discard_lower<T: Ord>(arr: Seq<T>, target: T, mid: int)
    requires
        lawful_order::<T>(),
        sorted(arr),
        0 <= mid < arr.len(),
        arr[mid].cmp_spec(&target) == Ordering::Less,
    ensures
        forall|j: int| 0 <= j <= mid ==> #[trigger] arr[j].cmp_spec(&target) == Ordering::Less,
{
    assert forall|j: int| 0 <= j <= mid implies #[trigger] arr[j].cmp_spec(&target) == Ordering::Less by {
        if j < mid {
            assert(arr[j].cmp_spec(&arr[mid]) != Ordering::Greater);
            if arr[j].cmp_spec(&target) != Ordering::Less {
                assert(target.cmp_spec(&arr[j]) != Ordering::Greater);
                assert(target.cmp_spec(&arr[mid]) != Ordering::Greater);
                assert(arr[mid].cmp_spec(&target) != Ordering::Less);
            }
        }
    }
}

proof fn lemma_discard_upper<T: Ord>(arr: Seq<T>, target: T, mid: int)
    requires
        lawful_order::<T>(),
        sorted(arr),
        0 <= mid < arr.len(),
        arr[mid].cmp_spec(&target) == Ordering::Greater,
    ensures
        forall|j: int| mid <= j < arr.len() ==> #[trigger] arr[j].cmp_spec(&target) == Ordering::Greater,
{
    assert forall|j: int| mid <= j < arr.len() implies #[trigger] arr[j].cmp_spec(&target) == Ordering::Greater by {
        if mid < j {
            assert(arr[mid].cmp_spec(&arr[j]) != Ordering::Greater);
            if arr[j].cmp_spec(&target) != Ordering::Greater {
                assert(arr[mid].cmp_spec(&target) != Ordering::Greater);
            }
        }
    }
}

/// The position that halving `arr` settles on: one whose element compares
/// equal to `target`, or none; when `arr` is sorted, none means no element
/// compares equal.
pub fn binary_search_iterative<T: Ord>(arr: &[T], target: &T) -> (r: Option<usize>)
    requires
        lawful_order::<T>(),
    ensures
        r matches Some(i) ==> bisect(arr@, *target, 0, arr@.len() as int) == Some(i as int),
        r is None ==> bisect(arr@, *target, 0, arr@.len() as int) is None,
        r matches Some(i) ==> i < arr@.len() && arr@[i as int].cmp_spec(target) == Ordering::Equal,
        sorted(arr@) && r is None ==> forall|j: int| 0 <= j < arr@.len() ==> arr@[j].cmp_spec(target) != Ordering::Equal,
{
    let mut start: usize = 0;
    let mut end: usize = arr.len();
    while start < end
        invariant
            lawful_order::<T>(),
            start <= end <= arr@.len(),
            bisect(arr@, *target, start as int, end as int) == bisect(arr@, *target, 0, arr@.len() as int),
            sorted(arr@) ==> forall|j: int| 0 <= j < start ==> arr@[j].cmp_spec(target) != Ordering::Equal,
            sorted(arr@) ==> forall|j: int| end <= j < arr@.len() ==> arr@[j].cmp_spec(target) != Ordering::Equal,
        decreases end - start,
    {
        let midpoint = start + (end - start) / 2;
        match arr[midpoint].cmp(target) {
            Ordering::Equal => {
                return Some(midpoint);
            },
            Ordering::Less => {
                proof {
                    if sorted(arr@) {
                        lemma_discard_lower(arr@, *target, midpoint as int);
                    }
                }
                start = midpoint + 1;
            },
            Ordering::Greater => {
                proof {
                    if sorted(arr@) {
                        lemma_discard_upper(arr@, *target, midpoint as int);
                    }
                }
                end = midpoint;
            },
        }
    }
    None
}

fn binary_between<T: Ord>(arr: &[T], target: &T, lower: usize, upper: usize) -> (r: Option<usize>)
    requires
        lawful_order::<T>(),
        lower <= upper <= arr@.len(),
        sorted(arr@) ==> forall|j: int| 0 <= j < lower ==> arr@[j].cmp_spec(target) != Ordering::Equal,
        sorted(arr@) ==> forall|j: int| upper <= j < arr@.len() ==> arr@[j].cmp_spec(target) != Ordering::Equal,
    ensures
        r matches Some(i) ==> bisect(arr@, *target, lower as int, upper as int) == Some(i as int),
        r is None ==> bisect(arr@, *target, lower as int, upper as int) is None,
        r matches Some(i) ==> i < arr@.len() && arr@[i as int].cmp_spec(target) == Ordering::Equal,
        sorted(arr@) && r is None ==> forall|j: int| 0 <= j < arr@.len() ==> arr@[j].cmp_spec(target) != Ordering::Equal,
    decreases upper - lower,
{
    if lower < upper {
        let midpoint = lower + (upper - lower) / 2;
        match arr[midpoint].cmp(target) {
            Ordering::Equal => Some(midpoint),
            Ordering::Less => {
                proof {
                    if sorted(arr@) {
                        lemma_discard_lower(arr@, *target, midpoint as int);
                    }
                }
                binary_between(arr, target, midpoint + 1, upper)
            },
            Ordering::Greater => {
                proof {
                    if sorted(arr@) {
                        lemma_discard_upper(arr@, *target, midpoint as int);
                    }
                }
                binary_between(arr, target, lower, midpoint)
            },
        }
    } else {
        None
    }
}

/// The same position as `binary_search_iterative`, found by recursion over
/// the search region.
pub fn binary_search_recursive<T: Ord>(arr: &[T], target: &T) -> (r: Option<usize>)
    requires
        lawful_order::<T>(),
    ensures
        r matches Some(i) ==> bisect(arr@, *target, 0, arr@.len() as int) == Some(i as int),
        r is None ==> bisect(arr@, *target, 0, arr@.len() as int) is None,
        r matches Some(i) ==> i < arr@.len() && arr@[i as int].cmp_spec(target) == Ordering::Equal,
        sorted(arr@) && r is None ==> forall|j: int| 0 <= j < arr@.len() ==> arr@[j].cmp_spec(target) != Ordering::Equal,
{
    binary_between(arr, target, 0, arr.len())
}

} // verus!
