//! Words as text: their UTF-8 bytes, their characters, their order, and case
//! folding.
use vstd::prelude::*;
use vstd::utf8::*;

verus! {

broadcast use vstd::utf8::encode_utf8_decode_utf8;

/// The UTF-8 encoding of a word, as `String` and `str` hold it.
pub open spec fn bytes_of(w: Seq<char>) -> Seq<u8> {
    encode_utf8(w)
}

/// `a` comes strictly before `b` in lexicographic byte order: at the first
/// position where they differ `a` has the smaller byte, or `a` is a proper
/// prefix of `b`.
pub open spec fn bytes_lt(a: Seq<u8>, b: Seq<u8>) -> bool {
    exists|k: int| #[trigger] first_difference(a, b, k) && k < b.len() && (k == a.len() || a[k] < b[k])
}

/// `k` is the first position at which `a` and `b` differ (the length of the
/// shorter one when one is a prefix of the other), and the two differ.
pub open spec fn first_difference(a: Seq<u8>, b: Seq<u8>, k: int) -> bool {
    &&& 0 <= k <= a.len()
    &&& k <= b.len()
    &&& a.len() != b.len() || k < a.len()
    &&& a.take(k) == b.take(k)
    &&& (k < a.len() && k < b.len() ==> a[k] != b[k])
}

/// The order of words that `String`'s `Ord` implements: byte order of the
/// UTF-8 encoding, which is also the order of code points.
pub open spec fn word_lt(a: Seq<char>, b: Seq<char>) -> bool {
    bytes_lt(bytes_of(a), bytes_of(b))
}

/// Two distinct words have distinct encodings.
pub proof fn lemma_bytes_of_injective(a: Seq<char>, b: Seq<char>)
    ensures
        bytes_of(a) == bytes_of(b) <==> a == b,
{
    if bytes_of(a) == bytes_of(b) {
        assert(decode_utf8(encode_utf8(a)) == a);
        assert(decode_utf8(encode_utf8(b)) == b);
    }
}

/// A sequence is never before itself.
pub proof fn lemma_bytes_lt_irreflexive(a: Seq<u8>)
    ensures
        !bytes_lt(a, a),
{
}

/// Of two distinct sequences, exactly one comes first.
pub proof fn lemma_bytes_lt_total(a: Seq<u8>, b: Seq<u8>)
    requires
        a != b,
    ensures
        bytes_lt(a, b) != bytes_lt(b, a),
{
    let k = choose_difference(a, b);
    assert(first_difference(b, a, k));
    if bytes_lt(a, b) && bytes_lt(b, a) {
        let k1 = choose|k1: int| #[trigger] first_difference(a, b, k1) && k1 < b.len() && (k1 == a.len() || a[k1] < b[k1]);
        let k2 = choose|k2: int| #[trigger] first_difference(b, a, k2) && k2 < a.len() && (k2 == b.len() || b[k2] < a[k2]);
        lemma_first_difference_unique(a, b, k1, k);
        lemma_first_difference_unique(b, a, k2, k);
    }
}

/// The first difference of two distinct sequences exists.
proof fn choose_difference(a: Seq<u8>, b: Seq<u8>) -> (k: int)
    requires
        a != b,
    ensures
        first_difference(a, b, k),
{
    let n = if a.len() <= b.len() { a.len() as int } else { b.len() as int };
    if forall|i: int| 0 <= i < n ==> a[i] == b[i] {
        assert(a.take(n) =~= b.take(n));
        if a.len() == b.len() {
            assert(a =~= b);
        }
        n
    } else {
        let i = choose|i: int| 0 <= i < n && a[i] != b[i];
        let k = first_mismatch_below(a, b, i);
        k
    }
}

proof fn first_mismatch_below(a: Seq<u8>, b: Seq<u8>, i: int) -> (k: int)
    requires
        0 <= i < a.len(),
        i < b.len(),
        a[i] != b[i],
    ensures
        first_difference(a, b, k),
    decreases i,
{
    if forall|j: int| 0 <= j < i ==> a[j] == b[j] {
        assert(a.take(i) =~= b.take(i));
        i
    } else {
        let j = choose|j: int| 0 <= j < i && a[j] != b[j];
        first_mismatch_below(a, b, j)
    }
}

proof fn lemma_first_difference_unique(a: Seq<u8>, b: Seq<u8>, k1: int, k2: int)
    requires
        first_difference(a, b, k1),
        first_difference(a, b, k2),
    ensures
        k1 == k2,
{
    if k1 < k2 {
        assert(a.take(k2)[k1] == b.take(k2)[k1]);
    } else if k2 < k1 {
        assert(a.take(k1)[k2] == b.take(k1)[k2]);
    }
}

/// Byte order is transitive.
pub proof fn lemma_bytes_lt_transitive(a: Seq<u8>, b: Seq<u8>, c: Seq<u8>)
    requires
        bytes_lt(a, b),
        bytes_lt(b, c),
    ensures
        bytes_lt(a, c),
{
    let k1 = choose|k1: int| #[trigger] first_difference(a, b, k1) && k1 < b.len() && (k1 == a.len() || a[k1] < b[k1]);
    let k2 = choose|k2: int| #[trigger] first_difference(b, c, k2) && k2 < c.len() && (k2 == b.len() || b[k2] < c[k2]);
    let k = if k1 <= k2 { k1 } else { k2 };
    assert forall|i: int| 0 <= i < k implies a[i] == c[i] by {
        assert(a.take(k1)[i] == b.take(k1)[i]);
        assert(b.take(k2)[i] == c.take(k2)[i]);
    }
    assert(a.take(k) =~= c.take(k));
    if k1 < k2 {
        assert(b.take(k2)[k1] == c.take(k2)[k1]);
    } else if k2 < k1 {
        assert(a.take(k1)[k2] == b.take(k1)[k2]);
    }
    assert(first_difference(a, c, k));
    assert(k < c.len() && (k == a.len() || a[k] < c[k]));
}

/// Compares two byte sequences in lexicographic order: negative when `a`
/// comes first, zero when they are equal, positive when `b` comes first.
pub fn compare_bytes(a: &[u8], b: &[u8]) -> (r: i8)
    ensures
        r < 0 <==> bytes_lt(a@, b@),
        r == 0 <==> a@ == b@,
        r > 0 <==> bytes_lt(b@, a@),
{
    let mut i: usize = 0;
    while i < a.len() && i < b.len()
        invariant
            i <= a.len(),
            i <= b.len(),
            a@.take(i as int) == b@.take(i as int),
        decreases a.len() - i,
    {
        if a[i] != b[i] {
            proof {
                assert(first_difference(a@, b@, i as int));
                assert(first_difference(b@, a@, i as int));
                lemma_bytes_lt_total(a@, b@);
            }
            if a[i] < b[i] {
                return -1;
            } else {
                return 1;
            }
        }
        proof {
            assert(a@.take(i + 1) =~= a@.take(i as int).push(a@[i as int]));
            assert(b@.take(i + 1) =~= b@.take(i as int).push(b@[i as int]));
        }
        i = i + 1;
    }
    if a.len() == b.len() {
        proof {
            assert(a@ =~= a@.take(i as int));
            assert(b@ =~= b@.take(i as int));
        }
        0
    } else {
        proof {
            assert(first_difference(a@, b@, i as int));
            assert(first_difference(b@, a@, i as int));
            lemma_bytes_lt_total(a@, b@);
        }
        if a.len() < b.len() {
            -1
        } else {
            1
        }
    }
}

/// Compares two words in `String`'s order: negative when `a` comes first,
/// zero when they are the same word, positive when `b` comes first.
pub fn compare_words(a: &str, b: &str) -> (r: i8)
    ensures
        r < 0 <==> word_lt(a@, b@),
        r == 0 <==> a@ == b@,
        r > 0 <==> word_lt(b@, a@),
{
    proof {
        lemma_bytes_of_injective(a@, b@);
    }
    compare_bytes(a.as_bytes(), b.as_bytes())
}

/// The characters of a word, one element each.
pub fn chars_of(s: &str) -> (r: Vec<char>)
    ensures
        r@ == s@,
{
    let mut r: Vec<char> = Vec::new();
    for c in it: s.chars()
        invariant
            r@ == it.seq().take(it.index() as int),
    {
        r.push(c);
    }
    r
}

/// Relies on `String::push`: appends one character at the end.
#[verifier::external_body]
pub(crate) fn push_char(s: &mut String, c: char)
    ensures
        final(s)@ == old(s)@.push(c),
{
    s.push(c)
}

/// What `str::to_lowercase` makes of a word. The result depends on the
/// characters alone.
pub uninterp spec fn lowered(s: Seq<char>) -> Seq<char>;

/// Relies on `str::to_lowercase`: the lower-case form of every character,
/// as Unicode defines it, independent of locale.
#[verifier::external_body]
pub(crate) fn to_lower(s: &str) -> (r: String)
    ensures
        r@ == lowered(s@),
{
    s.to_lowercase()
}

} // verus!
