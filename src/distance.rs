//! Levenshtein edit distance between words.
use vstd::prelude::*;
use crate::text::chars_of;

verus! {

/// The smallest of three numbers.
pub open spec fn min3(x: nat, y: nat, z: nat) -> nat {
    if x <= y && x <= z {
        x
    } else if y <= z {
        y
    } else {
        z
    }
}

/// The fewest single-character insertions, deletions and substitutions that
/// turn the first `i` characters of `a` into the first `j` characters of `b`.
pub open spec fn prefix_distance(a: Seq<char>, b: Seq<char>, i: nat, j: nat) -> nat
    decreases i + j,
{
    if i == 0 {
        j
    } else if j == 0 {
        i
    } else {
        min3(
            prefix_distance(a, b, (i - 1) as nat, j) + 1,
            prefix_distance(a, b, i, (j - 1) as nat) + 1,
            prefix_distance(a, b, (i - 1) as nat, (j - 1) as nat) + if a[i - 1] == b[j - 1] {
                0nat
            } else {
                1nat
            },
        )
    }
}

/// The Levenshtein distance between `a` and `b`.
pub open spec fn edit_distance(a: Seq<char>, b: Seq<char>) -> nat {
    prefix_distance(a, b, a.len(), b.len())
}

proof fn lemma_prefix_distance_bound(a: Seq<char>, b: Seq<char>, i: nat, j: nat)
    ensures
        prefix_distance(a, b, i, j) <= if i <= j { j } else { i },
    decreases i + j,
{
    if i > 0 && j > 0 {
        lemma_prefix_distance_bound(a, b, (i - 1) as nat, (j - 1) as nat);
    }
}

proof fn lemma_prefix_distance_symmetric(a: Seq<char>, b: Seq<char>, i: nat, j: nat)
    ensures
        prefix_distance(a, b, i, j) == prefix_distance(b, a, j, i),
    decreases i + j,
{
    if i > 0 && j > 0 {
        lemma_prefix_distance_symmetric(a, b, (i - 1) as nat, j);
        lemma_prefix_distance_symmetric(a, b, i, (j - 1) as nat);
        lemma_prefix_distance_symmetric(a, b, (i - 1) as nat, (j - 1) as nat);
    }
}

proof fn lemma_prefix_distance_same(a: Seq<char>, i: nat)
    ensures
        prefix_distance(a, a, i, i) == 0,
    decreases i,
{
    if i > 0 {
        lemma_prefix_distance_same(a, (i - 1) as nat);
    }
}

/// The distance from `a` to `b` is the distance from `b` to `a`.
pub proof fn lemma_edit_distance_symmetric(a: Seq<char>, b: Seq<char>)
    ensures
        edit_distance(a, b) == edit_distance(b, a),
{
    lemma_prefix_distance_symmetric(a, b, a.len(), b.len());
}

/// A word is at distance zero from itself.
pub proof fn lemma_edit_distance_same(a: Seq<char>)
    ensures
        edit_distance(a, a) == 0,
{
    lemma_prefix_distance_same(a, a.len());
}

/// The Levenshtein distance between two words, computed one row of the
/// distance table at a time.
pub fn levenshtein_distance(first: &str, second: &str) -> (r: usize)
    ensures
        r == edit_distance(first@, second@),
{
    let a = chars_of(first);
    let b = chars_of(second);
    let ghost sa = a@;
    let ghost sb = b@;
    let n = b.len();
    let m = a.len();
    let mut row: Vec<usize> = Vec::new();
    row.push(0);
    for j in 0..n
        invariant
            n == sb.len(),
            row@.len() == j + 1,
            forall|k: int| 0 <= k <= j ==> row@[k] == prefix_distance(sa, sb, 0, k as nat),
    {
        row.push(j + 1);
    }
    let mut i: usize = 0;
    while i < a.len()
        invariant
            a@ == sa,
            b@ == sb,
            n == sb.len(),
            m == sa.len(),
            i <= sa.len(),
            row@.len() == n + 1,
            forall|k: int| 0 <= k <= n ==> row@[k] == prefix_distance(sa, sb, i as nat, k as nat),
        decreases sa.len() - i,
    {
        let mut diagonal = row[0];
        row[0] = i + 1;
        let mut j: usize = 0;
        while j < n
            invariant
                a@ == sa,
                b@ == sb,
                n == sb.len(),
                m == sa.len(),
                i < sa.len(),
                j <= n,
                row@.len() == n + 1,
                diagonal == prefix_distance(sa, sb, i as nat, j as nat),
                forall|k: int| 0 <= k <= j ==> row@[k] == prefix_distance(sa, sb, (i + 1) as nat, k as nat),
                forall|k: int| j < k <= n ==> row@[k] == prefix_distance(sa, sb, i as nat, k as nat),
            decreases n - j,
        {
            let above = row[j + 1];
            let left = row[j];
            proof {
                lemma_prefix_distance_bound(sa, sb, i as nat, (j + 1) as nat);
                lemma_prefix_distance_bound(sa, sb, i as nat, j as nat);
            }
            let indicator: usize = if a[i] != b[j] { 1 } else { 0 };
            let step = if above <= left { above } else { left };
            let through = diagonal + indicator;
            let best = if step < through { step + 1 } else { through };
            row[j + 1] = best;
            diagonal = above;
            j = j + 1;
        }
        i = i + 1;
    }
    row[n]
}

} // verus!
