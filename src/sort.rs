//! Selection, insertion, quick and merge sort.
use vstd::prelude::*;
use core::cmp::Ordering;
use vstd::multiset::Multiset;
use vstd::std_specs::cmp::OrdSpec;
use crate::search::{lawful_order, sorted};

verus! {

broadcast use {vstd::seq_lib::group_to_multiset_ensures, vstd::multiset::group_multiset_axioms};

/// Relies on `slice::swap`: exchanges the elements at positions `i` and
/// `j`, which must both be in bounds.
#[verifier::external_body]
fn swap<T>(v: &mut Vec<T>, i: usize, j: usize)
    requires
        i < old(v)@.len(),
        j < old(v)@.len(),
    ensures
        final(v)@ == old(v)@.update(i as int, old(v)@[j as int]).update(j as int, old(v)@[i as int]),
{
    v.swap(i, j)
}

/// Whether `a` is less than `b`.
fn is_less<T: Ord>(a: &T, b: &T) -> (r: bool)
    requires
        T::obeys_cmp_spec(),
    ensures
        r == (a.cmp_spec(b) == Ordering::Less),
{
    match a.cmp(b) {
        Ordering::Less => true,
        _ => false,
    }
}

/// Exchanging two elements keeps the multiset of a range that holds both.
proof fn lemma_swap_range<T>(s: Seq<T>, lo: int, hi: int, i: int, j: int)
    requires
        0 <= lo <= i < hi <= s.len(),
        lo <= j < hi,
    ensures
        s.update(i, s[j]).update(j, s[i]).subrange(lo, hi).to_multiset() == s.subrange(lo, hi).to_multiset(),
{
    let r = s.subrange(lo, hi);
    let u = r.update(i - lo, r[j - lo]);
    assert(s.update(i, s[j]).update(j, s[i]).subrange(lo, hi) =~= u.update(j - lo, r[i - lo]));
    if i != j {
        assert(u[j - lo] == r[j - lo]);
    }
    assert(u.update(j - lo, r[i - lo]).to_multiset() =~= r.to_multiset());
}

/// Sorts `arr` by moving the least remaining element to the front, one
/// position at a time.
pub fn selection_sort<T: Ord>(arr: &mut Vec<T>)
    requires
        lawful_order::<T>(),
    ensures
        sorted(final(arr)@),
        final(arr)@.to_multiset() == old(arr)@.to_multiset(),
{
    let n = arr.len();
    let mut index: usize = 0;
    while index < n
        invariant
            lawful_order::<T>(),
            n == arr@.len(),
            index <= n,
            arr@.to_multiset() == old(arr)@.to_multiset(),
            forall|p: int, q: int| 0 <= p < q < index ==> #[trigger] arr@[p].cmp_spec(&arr@[q]) != Ordering::Greater,
            forall|p: int, q: int| 0 <= p < index <= q < n ==> #[trigger] arr@[p].cmp_spec(&arr@[q]) != Ordering::Greater,
        decreases n - index,
    {
        let mut local_min = index;
        let mut local_index = index + 1;
        while local_index < n
            invariant
                lawful_order::<T>(),
                n == arr@.len(),
                index <= local_min < n,
                index < local_index <= n,
                forall|k: int| index <= k < local_index ==> #[trigger] arr@[k].cmp_spec(&arr@[local_min as int]) != Ordering::Less,
            decreases n - local_index,
        {
            if is_less(&arr[local_index], &arr[local_min]) {
                local_min = local_index;
            }
            local_index = local_index + 1;
        }
        let ghost before = arr@;
        proof {
            lemma_swap_range(before, 0, n as int, index as int, local_min as int);
            assert(before.subrange(0, n as int) =~= before);
        }
        swap(arr, index, local_min);
        proof {
            assert(arr@.subrange(0, n as int) =~= arr@);
            assert forall|p: int, q: int| 0 <= p < q < index + 1 implies #[trigger] arr@[p].cmp_spec(&arr@[q]) != Ordering::Greater by {
                if q == index {
                    assert(before[p].cmp_spec(&before[local_min as int]) != Ordering::Greater);
                }
            }
            assert forall|p: int, q: int| 0 <= p < index + 1 <= q < n implies #[trigger] arr@[p].cmp_spec(&arr@[q]) != Ordering::Greater by {
                if p == index {
                    let k = if q == local_min { index as int } else { q };
                    assert(before[k].cmp_spec(&before[local_min as int]) != Ordering::Less);
                } else {
                    let k = if q == local_min { index as int } else { q };
                    assert(before[p].cmp_spec(&before[k]) != Ordering::Greater);
                }
            }
        }
        index = index + 1;
    }
}

/// Sorts `arr` by walking each element back past the greater elements
/// before it.
pub fn insertion_sort<T: Ord>(arr: &mut Vec<T>)
    requires
        lawful_order::<T>(),
    ensures
        sorted(final(arr)@),
        final(arr)@.to_multiset() == old(arr)@.to_multiset(),
{
    let n = arr.len();
    if n == 0 {
        return;
    }
    let mut index: usize = 1;
    while index < n
        invariant
            lawful_order::<T>(),
            n == arr@.len(),
            1 <= index <= n,
            arr@.to_multiset() == old(arr)@.to_multiset(),
            forall|p: int, q: int| 0 <= p < q < index ==> #[trigger] arr@[p].cmp_spec(&arr@[q]) != Ordering::Greater,
        decreases n - index,
    {
        let ghost key = arr@[index as int];
        let mut pos: usize = index;
        while pos > 0 && is_less(&arr[pos], &arr[pos - 1])
            invariant
                lawful_order::<T>(),
                n == arr@.len(),
                1 <= index < n,
                pos <= index,
                arr@.to_multiset() == old(arr)@.to_multiset(),
                arr@[pos as int] == key,
                forall|p: int, q: int| 0 <= p < q < pos ==> #[trigger] arr@[p].cmp_spec(&arr@[q]) != Ordering::Greater,
                forall|p: int, q: int| pos < p < q <= index ==> #[trigger] arr@[p].cmp_spec(&arr@[q]) != Ordering::Greater,
                forall|p: int, q: int| 0 <= p < pos < q <= index ==> #[trigger] arr@[p].cmp_spec(&arr@[q]) != Ordering::Greater,
                forall|q: int| pos < q <= index ==> #[trigger] key.cmp_spec(&arr@[q]) == Ordering::Less,
            decreases pos,
        {
            let ghost before = arr@;
            proof {
                lemma_swap_range(before, 0, n as int, pos as int, pos - 1);
                assert(before.subrange(0, n as int) =~= before);
            }
            swap(arr, pos, pos - 1);
            proof {
                assert(arr@.subrange(0, n as int) =~= arr@);
                let x = before[pos - 1];
                assert forall|p: int, q: int| pos - 1 < p < q <= index implies #[trigger] arr@[p].cmp_spec(&arr@[q]) != Ordering::Greater by {
                    if p == pos {
                        assert(before[pos - 1].cmp_spec(&before[q]) != Ordering::Greater);
                    }
                }
                assert forall|p: int, q: int| 0 <= p < pos - 1 < q <= index implies #[trigger] arr@[p].cmp_spec(&arr@[q]) != Ordering::Greater by {
                    if q == pos {
                        assert(before[p].cmp_spec(&before[pos - 1]) != Ordering::Greater);
                    }
                }
                assert forall|q: int| pos - 1 < q <= index implies #[trigger] key.cmp_spec(&arr@[q]) == Ordering::Less by {
                    if q == pos {
                        assert(key.cmp_spec(&x) == Ordering::Less);
                    }
                }
            }
            pos = pos - 1;
        }
        proof {
            assert forall|p: int, q: int| 0 <= p < q < index + 1 implies #[trigger] arr@[p].cmp_spec(&arr@[q]) != Ordering::Greater by {
                if q == pos && p < pos {
                    assert(key.cmp_spec(&arr@[pos - 1]) != Ordering::Less);
                    assert(arr@[pos - 1].cmp_spec(&key) != Ordering::Greater);
                    if p < pos - 1 {
                        assert(arr@[p].cmp_spec(&arr@[pos - 1]) != Ordering::Greater);
                    }
                } else if p == pos && q > pos {
                    assert(key.cmp_spec(&arr@[q]) == Ordering::Less);
                }
            }
        }
        index = index + 1;
    }
}

/// Each element of `b` is an element of `a` when both hold the same
/// multiset.
proof fn lemma_same_elements<T>(a: Seq<T>, b: Seq<T>)
    requires
        a.to_multiset() == b.to_multiset(),
    ensures
        forall|k: int| 0 <= k < b.len() ==> a.contains(#[trigger] b[k]),
{
    assert forall|k: int| 0 <= k < b.len() implies a.contains(#[trigger] b[k]) by {
        assert(b.contains(b[k]));
        assert(b.to_multiset().count(b[k]) > 0);
        assert(a.to_multiset().count(b[k]) > 0);
    }
}

/// Splits `s[lo..hi]` at `mid`: its multiset is the sum of the two parts'.
proof fn lemma_split_range<T>(s: Seq<T>, lo: int, mid: int, hi: int)
    requires
        0 <= lo <= mid <= hi <= s.len(),
    ensures
        s.subrange(lo, hi).to_multiset() == s.subrange(lo, mid).to_multiset().add(s.subrange(mid, hi).to_multiset()),
{
    assert(s.subrange(lo, hi) =~= s.subrange(lo, mid) + s.subrange(mid, hi));
    vstd::seq_lib::lemma_multiset_commutative(s.subrange(lo, mid), s.subrange(mid, hi));
}

/// Moves the elements of `arr[lo..hi]` less than its last element before
/// it, and the others after it; returns where that element ends up.
fn partition<T: Ord>(arr: &mut Vec<T>, lo: usize, hi: usize) -> (p: usize)
    requires
        lawful_order::<T>(),
        lo < hi <= old(arr)@.len(),
    ensures
        final(arr)@.len() == old(arr)@.len(),
        forall|k: int| 0 <= k < final(arr)@.len() && !(lo <= k < hi) ==> final(arr)@[k] == old(arr)@[k],
        final(arr)@.subrange(lo as int, hi as int).to_multiset() == old(arr)@.subrange(lo as int, hi as int).to_multiset(),
        lo <= p < hi,
        forall|k: int| lo <= k < p ==> #[trigger] final(arr)@[k].cmp_spec(&final(arr)@[p as int]) == Ordering::Less,
        forall|k: int| p < k < hi ==> #[trigger] final(arr)@[k].cmp_spec(&final(arr)@[p as int]) != Ordering::Less,
{
    let pivot = hi - 1;
    let ghost pv = arr@[pivot as int];
    let mut lower_end = lo;
    let mut i: usize = lo;
    while i < pivot
        invariant
            lawful_order::<T>(),
            lo <= lower_end <= i <= pivot,
            pivot == hi - 1,
            hi <= arr@.len(),
            arr@.len() == old(arr)@.len(),
            arr@[pivot as int] == pv,
            forall|k: int| 0 <= k < arr@.len() && !(lo <= k < hi) ==> arr@[k] == old(arr)@[k],
            arr@.subrange(lo as int, hi as int).to_multiset() == old(arr)@.subrange(lo as int, hi as int).to_multiset(),
            forall|k: int| lo <= k < lower_end ==> #[trigger] arr@[k].cmp_spec(&pv) == Ordering::Less,
            forall|k: int| lower_end <= k < i ==> #[trigger] arr@[k].cmp_spec(&pv) != Ordering::Less,
        decreases pivot - i,
    {
        if is_less(&arr[i], &arr[pivot]) {
            let ghost before = arr@;
            proof {
                lemma_swap_range(before, lo as int, hi as int, i as int, lower_end as int);
            }
            swap(arr, i, lower_end);
            proof {
                assert forall|k: int| lower_end + 1 <= k < i + 1 implies #[trigger] arr@[k].cmp_spec(&pv) != Ordering::Less by {
                    if k == i {
                        assert(arr@[k] == before[lower_end as int]);
                    }
                }
            }
            lower_end = lower_end + 1;
        }
        i = i + 1;
    }
    let ghost before = arr@;
    proof {
        lemma_swap_range(before, lo as int, hi as int, pivot as int, lower_end as int);
    }
    swap(arr, pivot, lower_end);
    proof {
        assert forall|k: int| lower_end < k < hi implies #[trigger] arr@[k].cmp_spec(&arr@[lower_end as int]) != Ordering::Less by {
            if k == pivot {
                assert(arr@[k] == before[lower_end as int]);
            }
        }
    }
    lower_end
}

fn quick_range<T: Ord>(arr: &mut Vec<T>, lo: usize, hi: usize)
    requires
        lawful_order::<T>(),
        lo <= hi <= old(arr)@.len(),
    ensures
        final(arr)@.len() == old(arr)@.len(),
        forall|k: int| 0 <= k < final(arr)@.len() && !(lo <= k < hi) ==> final(arr)@[k] == old(arr)@[k],
        final(arr)@.subrange(lo as int, hi as int).to_multiset() == old(arr)@.subrange(lo as int, hi as int).to_multiset(),
        sorted(final(arr)@.subrange(lo as int, hi as int)),
    decreases hi - lo,
{
    if hi - lo > 1 {
        let p = partition(arr, lo, hi);
        let ghost parted = arr@;
        quick_range(arr, lo, p);
        let ghost left_done = arr@;
        quick_range(arr, p + 1, hi);
        proof {
            let pv = parted[p as int];
            assert(arr@[p as int] == pv);
            assert(left_done.subrange(lo as int, p as int) =~= arr@.subrange(lo as int, p as int));
            assert(parted.subrange(p + 1, hi as int) =~= left_done.subrange(p + 1, hi as int));
            lemma_same_elements(parted.subrange(lo as int, p as int), arr@.subrange(lo as int, p as int));
            lemma_same_elements(parted.subrange(p + 1, hi as int), arr@.subrange(p + 1, hi as int));
            assert forall|k: int| lo <= k < p implies #[trigger] arr@[k].cmp_spec(&pv) == Ordering::Less by {
                assert(arr@.subrange(lo as int, p as int)[k - lo] == arr@[k]);
                let left = parted.subrange(lo as int, p as int);
                let j = choose|j: int| 0 <= j < left.len() && left[j] == arr@[k];
                assert(parted[lo + j].cmp_spec(&pv) == Ordering::Less);
            }
            assert forall|k: int| p < k < hi implies #[trigger] arr@[k].cmp_spec(&pv) != Ordering::Less by {
                assert(arr@.subrange(p + 1, hi as int)[k - p - 1] == arr@[k]);
                let right = parted.subrange(p + 1, hi as int);
                let j = choose|j: int| 0 <= j < right.len() && right[j] == arr@[k];
                assert(parted[p + 1 + j].cmp_spec(&pv) != Ordering::Less);
            }
            let whole = arr@.subrange(lo as int, hi as int);
            assert forall|a: int, b: int| 0 <= a < b < whole.len() implies #[trigger] whole[a].cmp_spec(&whole[b]) != Ordering::Greater by {
                let x = lo + a;
                let y = lo + b;
                assert(whole[a] == arr@[x] && whole[b] == arr@[y]);
                if y < p {
                    assert(arr@.subrange(lo as int, p as int)[a].cmp_spec(&arr@.subrange(lo as int, p as int)[b]) != Ordering::Greater);
                } else if x > p {
                    assert(arr@.subrange(p + 1, hi as int)[x - p - 1].cmp_spec(&arr@.subrange(p + 1, hi as int)[y - p - 1]) != Ordering::Greater);
                } else if x < p && y == p {
                    assert(arr@[x].cmp_spec(&pv) == Ordering::Less);
                } else if x == p && y > p {
                    assert(arr@[y].cmp_spec(&pv) != Ordering::Less);
                    assert(pv.cmp_spec(&arr@[y]) != Ordering::Greater);
                } else {
                    assert(arr@[x].cmp_spec(&pv) == Ordering::Less);
                    assert(arr@[y].cmp_spec(&pv) != Ordering::Less);
                    assert(pv.cmp_spec(&arr@[y]) != Ordering::Greater);
                }
            }
            lemma_split_range(parted, lo as int, p as int, hi as int);
            lemma_split_range(parted, p as int, p + 1, hi as int);
            lemma_split_range(arr@, lo as int, p as int, hi as int);
            lemma_split_range(arr@, p as int, p + 1, hi as int);
            assert(arr@.subrange(p as int, p + 1) =~= parted.subrange(p as int, p + 1));
        }
    }
}

/// Sorts `arr` by partitioning it around its last element and sorting each
/// side.
pub fn quick_sort<T: Ord>(arr: &mut Vec<T>)
    requires
        lawful_order::<T>(),
    ensures
        sorted(final(arr)@),
        final(arr)@.to_multiset() == old(arr)@.to_multiset(),
{
    let n = arr.len();
    quick_range(arr, 0, n);
    proof {
        assert(arr@.subrange(0, n as int) =~= arr@);
        assert(old(arr)@.subrange(0, n as int) =~= old(arr)@);
    }
}

/// Merges two sorted vectors into one, taking the greater of the two last
/// elements each time and reversing at the end.
fn merge<T: Ord>(lower: Vec<T>, upper: Vec<T>) -> (r: Vec<T>)
    requires
        lawful_order::<T>(),
        sorted(lower@),
        sorted(upper@),
    ensures
        sorted(r@),
        r@.to_multiset() == lower@.to_multiset().add(upper@.to_multiset()),
{
    let ghost total = lower@.to_multiset().add(upper@.to_multiset());
    let mut lower = lower;
    let mut upper = upper;
    let mut rev: Vec<T> = Vec::new();
    while lower.len() > 0 || upper.len() > 0
        invariant
            lawful_order::<T>(),
            sorted(lower@),
            sorted(upper@),
            forall|i: int, j: int| 0 <= i < j < rev@.len() ==> #[trigger] rev@[j].cmp_spec(&rev@[i]) != Ordering::Greater,
            rev@.len() > 0 && lower@.len() > 0 ==> lower@.last().cmp_spec(&rev@.last()) != Ordering::Greater,
            rev@.len() > 0 && upper@.len() > 0 ==> upper@.last().cmp_spec(&rev@.last()) != Ordering::Greater,
            rev@.to_multiset().add(lower@.to_multiset()).add(upper@.to_multiset()) == total,
        decreases lower@.len() + upper@.len(),
    {
        let ghost before = rev@;
        let ghost lo0 = lower@;
        let ghost up0 = upper@;
        let take_upper = lower.len() == 0 || (upper.len() > 0 && is_less(&lower[lower.len() - 1], &upper[upper.len() - 1]));
        let x = if take_upper {
            upper.pop().unwrap()
        } else {
            lower.pop().unwrap()
        };
        proof {
            if take_upper {
                assert(up0 =~= upper@.push(x));
                assert(x == up0.last());
                if lo0.len() > 0 {
                    assert(lo0.last().cmp_spec(&x) == Ordering::Less);
                }
            } else {
                assert(lo0 =~= lower@.push(x));
                assert(x == lo0.last());
                if up0.len() > 0 {
                    assert(lo0.last().cmp_spec(&up0.last()) != Ordering::Less);
                    assert(up0.last().cmp_spec(&x) != Ordering::Greater);
                }
            }
            if lower@.len() > 0 {
                assert(lower@.last() == lo0[lower@.len() - 1]);
                assert(lo0[lower@.len() - 1].cmp_spec(&lo0[lo0.len() - 1]) != Ordering::Greater);
            }
            if upper@.len() > 0 {
                assert(upper@.last() == up0[upper@.len() - 1]);
                assert(up0[upper@.len() - 1].cmp_spec(&up0[up0.len() - 1]) != Ordering::Greater);
            }
            assert(sorted(lower@)) by {
                assert forall|i: int, j: int| 0 <= i < j < lower@.len() implies #[trigger] lower@[i].cmp_spec(&lower@[j]) != Ordering::Greater by {
                    assert(lower@[i] == lo0[i] && lower@[j] == lo0[j]);
                }
            }
            assert(sorted(upper@)) by {
                assert forall|i: int, j: int| 0 <= i < j < upper@.len() implies #[trigger] upper@[i].cmp_spec(&upper@[j]) != Ordering::Greater by {
                    assert(upper@[i] == up0[i] && upper@[j] == up0[j]);
                }
            }
            assert forall|k: int| 0 <= k < before.len() implies #[trigger] x.cmp_spec(&before[k]) != Ordering::Greater by {
                assert(x.cmp_spec(&before.last()) != Ordering::Greater);
                if k < before.len() - 1 {
                    assert(before[before.len() - 1].cmp_spec(&before[k]) != Ordering::Greater);
                }
            }
        }
        rev.push(x);
        proof {
            assert forall|i: int, j: int| 0 <= i < j < rev@.len() implies #[trigger] rev@[j].cmp_spec(&rev@[i]) != Ordering::Greater by {
                if j < before.len() {
                    assert(rev@[i] == before[i] && rev@[j] == before[j]);
                } else {
                    assert(rev@[i] == before[i]);
                }
            }
            assert(rev@.to_multiset().add(lower@.to_multiset()).add(upper@.to_multiset()) =~= total);
        }
    }
    let ghost descending = rev@;
    let mut res: Vec<T> = Vec::new();
    while rev.len() > 0
        invariant
            descending == rev@ + res@.reverse(),
        decreases rev@.len(),
    {
        let ghost before = rev@;
        let ghost done = res@;
        match rev.pop() {
            Some(x) => {
                res.push(x);
                proof {
                    assert(before =~= rev@.push(x));
                    assert(res@.reverse() =~= seq![x] + done.reverse());
                    assert(descending =~= rev@ + res@.reverse());
                }
            },
            None => {},
        }
    }
    proof {
        assert(rev@ + res@.reverse() =~= res@.reverse());
        assert(res@ =~= descending.reverse());
        descending.lemma_reverse_to_multiset();
        assert(lower@.to_multiset() =~= Multiset::empty());
        assert(upper@.to_multiset() =~= Multiset::empty());
        assert forall|i: int, j: int| 0 <= i < j < res@.len() implies #[trigger] res@[i].cmp_spec(&res@[j]) != Ordering::Greater by {
            let n = descending.len() as int;
            assert(res@[i] == descending[n - 1 - i] && res@[j] == descending[n - 1 - j]);
        }
    }
    res
}

/// Sorts `arr` by sorting each half and merging the two.
pub fn merge_sort<T: Clone + Ord>(arr: Vec<T>) -> (r: Vec<T>)
    requires
        lawful_order::<T>(),
    ensures
        sorted(r@),
        r@.to_multiset() == arr@.to_multiset(),
    decreases arr@.len(),
{
    if arr.len() < 2 {
        return arr;
    }
    let middle = arr.len() / 2;
    let mut lower = arr;
    let upper = lower.split_off(middle);
    proof {
        assert(arr@ =~= lower@ + upper@);
        vstd::seq_lib::lemma_multiset_commutative(lower@, upper@);
    }
    let lower = merge_sort(lower);
    let upper = merge_sort(upper);
    merge(lower, upper)
}

} // verus!
