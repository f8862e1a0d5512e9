//! Sample inputs for sorting: the edge cases, unordered, ordered and
//! reverse-ordered vectors.
use vstd::prelude::*;

verus! {

/// The empty vector and a single element.
pub fn shared_special_cases() -> (r: Vec<Vec<i32>>)
    ensures
        r.deep_view() == seq![seq![], seq![1i32]],
{
    let v0: Vec<i32> = vec![];
    let v1: Vec<i32> = vec![1];
    let r = vec![v0, v1];
    proof {
        assert(v0.deep_view() =~= v0@);
        assert(v0@ =~= seq![]);
        assert(v1.deep_view() =~= v1@);
        assert(v1@ =~= seq![1i32]);
        assert(r@ =~= seq![v0, v1]);
        assert(r.deep_view() =~= seq![seq![], seq![1i32]]);
    }
    r
}

/// Vectors in no particular order, repeated values included.
pub fn shared_random_cases() -> (r: Vec<Vec<i32>>)
    ensures
        r.deep_view() == seq![seq![1i32, 3, 2], seq![1i32, 3, 2], seq![3i32, 3, 3], seq![3i32, 3, 2], seq![593i32, 52, 0, 40104, 20, 19, 2, 30, 8], seq![5i32, 23, 6, 8, 9, 0, 2]],
{
    let v0: Vec<i32> = vec![1, 3, 2];
    let v1: Vec<i32> = vec![1, 3, 2];
    let v2: Vec<i32> = vec![3, 3, 3];
    let v3: Vec<i32> = vec![3, 3, 2];
    let v4: Vec<i32> = vec![593, 52, 0, 40104, 20, 19, 2, 30, 8];
    let v5: Vec<i32> = vec![5, 23, 6, 8, 9, 0, 2];
    let r = vec![v0, v1, v2, v3, v4, v5];
    proof {
        assert(v0.deep_view() =~= v0@);
        assert(v0@ =~= seq![1i32, 3, 2]);
        assert(v1.deep_view() =~= v1@);
        assert(v1@ =~= seq![1i32, 3, 2]);
        assert(v2.deep_view() =~= v2@);
        assert(v2@ =~= seq![3i32, 3, 3]);
        assert(v3.deep_view() =~= v3@);
        assert(v3@ =~= seq![3i32, 3, 2]);
        assert(v4.deep_view() =~= v4@);
        assert(v4@ =~= seq![593i32, 52, 0, 40104, 20, 19, 2, 30, 8]);
        assert(v5.deep_view() =~= v5@);
        assert(v5@ =~= seq![5i32, 23, 6, 8, 9, 0, 2]);
        assert(r@ =~= seq![v0, v1, v2, v3, v4, v5]);
        assert(r.deep_view() =~= seq![seq![1i32, 3, 2], seq![1i32, 3, 2], seq![3i32, 3, 3], seq![3i32, 3, 2], seq![593i32, 52, 0, 40104, 20, 19, 2, 30, 8], seq![5i32, 23, 6, 8, 9, 0, 2]]);
    }
    r
}

/// Vectors already in increasing order.
pub fn shared_sorted_cases() -> (r: Vec<Vec<i32>>)
    ensures
        r.deep_view() == seq![seq![1i32, 2], seq![1i32, 2, 3], seq![0i32, 2, 5, 6, 8, 9, 23], seq![-503i32, 1, 203, 585, 900]],
{
    let v0: Vec<i32> = vec![1, 2];
    let v1: Vec<i32> = vec![1, 2, 3];
    let v2: Vec<i32> = vec![0, 2, 5, 6, 8, 9, 23];
    let v3: Vec<i32> = vec![-503, 1, 203, 585, 900];
    let r = vec![v0, v1, v2, v3];
    proof {
        assert(v0.deep_view() =~= v0@);
        assert(v0@ =~= seq![1i32, 2]);
        assert(v1.deep_view() =~= v1@);
        assert(v1@ =~= seq![1i32, 2, 3]);
        assert(v2.deep_view() =~= v2@);
        assert(v2@ =~= seq![0i32, 2, 5, 6, 8, 9, 23]);
        assert(v3.deep_view() =~= v3@);
        assert(v3@ =~= seq![-503i32, 1, 203, 585, 900]);
        assert(r@ =~= seq![v0, v1, v2, v3]);
        assert(r.deep_view() =~= seq![seq![1i32, 2], seq![1i32, 2, 3], seq![0i32, 2, 5, 6, 8, 9, 23], seq![-503i32, 1, 203, 585, 900]]);
    }
    r
}

/// Vectors in decreasing order.
pub fn shared_reverse_sorted_cases() -> (r: Vec<Vec<i32>>)
    ensures
        r.deep_view() == seq![seq![2i32, 1], seq![3i32, 2, 1], seq![5i32, 4, 3, 2, 1, 0, -40i32], seq![23i32, 9, 8, 6, 5, 2, 0]],
{
    let v0: Vec<i32> = vec![2, 1];
    let v1: Vec<i32> = vec![3, 2, 1];
    let v2: Vec<i32> = vec![5, 4, 3, 2, 1, 0, -40];
    let v3: Vec<i32> = vec![23, 9, 8, 6, 5, 2, 0];
    let r = vec![v0, v1, v2, v3];
    proof {
        assert(v0.deep_view() =~= v0@);
        assert(v0@ =~= seq![2i32, 1]);
        assert(v1.deep_view() =~= v1@);
        assert(v1@ =~= seq![3i32, 2, 1]);
        assert(v2.deep_view() =~= v2@);
        assert(v2@ =~= seq![5i32, 4, 3, 2, 1, 0, -40i32]);
        assert(v3.deep_view() =~= v3@);
        assert(v3@ =~= seq![23i32, 9, 8, 6, 5, 2, 0]);
        assert(r@ =~= seq![v0, v1, v2, v3]);
        assert(r.deep_view() =~= seq![seq![2i32, 1], seq![3i32, 2, 1], seq![5i32, 4, 3, 2, 1, 0, -40i32], seq![23i32, 9, 8, 6, 5, 2, 0]]);
    }
    r
}

} // verus!
