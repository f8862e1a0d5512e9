//! A set of words held in a fixed number of buckets, each a chain of the
//! words whose hash selects it.
use vstd::prelude::*;
use crate::text::{bytes_of, compare_words};

verus! {

/// The polynomial hash of a byte sequence, reduced after every step:
/// `h = (h * radix + byte) % buckets`, from the first byte to the last,
/// starting at zero.
pub open spec fn hash_of(bytes: Seq<u8>, radix: nat, buckets: nat) -> nat
    decreases bytes.len(),
{
    if bytes.len() == 0 {
        0
    } else {
        ((hash_of(bytes.drop_last(), radix, buckets) * radix + bytes.last()) % (buckets as int)) as nat
    }
}

/// The bucket that holds `w`, or would hold it.
pub open spec fn bucket_of(w: Seq<char>, radix: nat, buckets: nat) -> nat {
    hash_of(bytes_of(w), radix, buckets)
}

proof fn lemma_hash_in_range(bytes: Seq<u8>, radix: nat, buckets: nat)
    requires
        buckets > 0,
    ensures
        hash_of(bytes, radix, buckets) < buckets,
{
}

/// A set of words with separate chaining over a fixed number of buckets.
/// The number of buckets only changes when a caller asks for it.
pub struct HashSet {
    inner: Vec<Vec<String>>,
    len: usize,
    radix: usize,
    members: Ghost<Set<Seq<char>>>,
}

impl View for HashSet {
    type V = Set<Seq<char>>;

    closed spec fn view(&self) -> Set<Seq<char>> {
        self.members@
    }
}

impl HashSet {
    /// The number of buckets.
    pub closed spec fn spec_capacity(&self) -> nat {
        self.inner@.len()
    }

    /// The words of the buckets, bucket by bucket, each chain in order.
    pub closed spec fn spec_items(&self) -> Seq<Seq<char>> {
        bucket_words(self.inner@).flatten()
    }

    /// A well-formed set holds finitely many words.
    pub proof fn lemma_finite(&self)
        requires
            self.wf(),
        ensures
            self@.finite(),
    {
    }

    /// The multiplier of the hash.
    pub closed spec fn spec_radix(&self) -> nat {
        self.radix as nat
    }

    /// Each word sits in the bucket its hash selects, once; the words of the
    /// buckets are exactly the members; the count is their number.
    pub closed spec fn wf(&self) -> bool {
        &&& self.members@.finite()
        &&& self.len == self.members@.len()
        &&& forall|b: int, i: int|
            #![trigger self.inner@[b]@[i]]
            0 <= b < self.inner@.len() && 0 <= i < self.inner@[b]@.len() ==> {
                &&& bucket_of(self.inner@[b]@[i]@, self.radix as nat, self.inner@.len()) == b
                &&& self.members@.contains(self.inner@[b]@[i]@)
            }
        &&& forall|b: int, i: int, j: int|
            0 <= b < self.inner@.len() && 0 <= i < self.inner@[b]@.len() && 0 <= j
                < self.inner@[b]@.len() && i != j ==> #[trigger] self.inner@[b]@[i]@
                != #[trigger] self.inner@[b]@[j]@
        &&& forall|w: Seq<char>| #[trigger]
            self.members@.contains(w) ==> self.inner@.len() > 0 && self.holds_at(w)
    }

    spec fn holds_at(&self, w: Seq<char>) -> bool {
        exists|i: int|
            0 <= i < self.inner@[bucket_of(w, self.radix as nat, self.inner@.len()) as int]@.len()
                && #[trigger] self.inner@[bucket_of(
                w,
                self.radix as nat,
                self.inner@.len(),
            ) as int]@[i]@ == w
    }

    /// An empty set with no buckets and a radix of 29. Give it buckets with
    /// `with_capacity` before use.
    pub fn new() -> (r: HashSet)
        ensures
            r.wf(),
            r@ == Set::<Seq<char>>::empty(),
            r.spec_capacity() == 0,
            r.spec_radix() == 29,
    {
        HashSet { inner: Vec::new(), len: 0, radix: 29, members: Ghost(Set::empty()) }
    }

    /// The bucket of `val`: the polynomial hash of its UTF-8 bytes.
    fn hash(&self, val: &str) -> (r: usize)
        requires
            self.inner@.len() > 0,
        ensures
            r == bucket_of(val@, self.radix as nat, self.inner@.len()),
            r < self.inner@.len(),
    {
        let bytes = val.as_bytes();
        let buckets = self.inner.len();
        let mut res: usize = 0;
        let mut k: usize = 0;
        while k < bytes.len()
            invariant
                buckets == self.inner@.len(),
                buckets > 0,
                k <= bytes@.len(),
                bytes@ == bytes_of(val@),
                res == hash_of(bytes@.take(k as int), self.radix as nat, buckets as nat),
                res < buckets,
            decreases bytes@.len() - k,
        {
            let r_wide = res as u128;
            let m_wide = self.radix as u128;
            proof {
                assert(bytes@.take(k + 1).drop_last() =~= bytes@.take(k as int));
                assert(r_wide * m_wide <= 0xffff_ffff_ffff_ffffu128 * 0xffff_ffff_ffff_ffffu128) by (nonlinear_arith)
                    requires r_wide <= 0xffff_ffff_ffff_ffffu128, m_wide <= 0xffff_ffff_ffff_ffffu128;
            }
            let wide: u128 = r_wide * m_wide + (bytes[k] as u128);
            res = (wide % (buckets as u128)) as usize;
            k = k + 1;
        }
        proof {
            assert(bytes@.take(k as int) =~= bytes@);
        }
        res
    }

    /// The position of `val` in bucket `b`, if it is there.
    fn position(&self, b: usize, val: &str) -> (r: Option<usize>)
        requires
            b < self.inner@.len(),
        ensures
            r matches Some(i) ==> i < self.inner@[b as int]@.len() && self.inner@[b as int]@[i as int]@ == val@,
            r is None ==> forall|i: int| 0 <= i < self.inner@[b as int]@.len() ==> self.inner@[b as int]@[i]@ != val@,
    {
        let bucket = &self.inner[b];
        let mut i: usize = 0;
        while i < bucket.len()
            invariant
                bucket@ == self.inner@[b as int]@,
                i <= bucket@.len(),
                forall|j: int| 0 <= j < i ==> bucket@[j]@ != val@,
            decreases bucket@.len() - i,
        {
            if compare_words(bucket[i].as_str(), val) == 0 {
                return Some(i);
            }
            i = i + 1;
        }
        None
    }

    /// Adds `val`; does nothing when it is already there.
    pub fn insert(&mut self, val: &str)
        requires
            old(self).wf(),
            old(self).spec_capacity() > 0,
            old(self)@.len() < usize::MAX,
        ensures
            final(self).wf(),
            final(self)@ == old(self)@.insert(val@),
            old(self)@.contains(val@) ==> *final(self) == *old(self),
            final(self).spec_capacity() == old(self).spec_capacity(),
            final(self).spec_radix() == old(self).spec_radix(),
    {
        let h = self.hash(val);
        match self.position(h, val) {
            Some(i) => {
                proof {
                    assert(self.members@.contains(self.inner@[h as int]@[i as int]@));
                    assert(self.members@.insert(val@) =~= self.members@);
                }
            },
            None => {
                proof {
                    if self.members@.contains(val@) {
                        assert(self.holds_at(val@));
                    }
                }
                let ghost old_inner = self.inner@;
                let word = val.to_owned();
                self.inner[h].push(word);
                self.len = self.len + 1;
                self.members = Ghost(self.members@.insert(val@));
                proof {
                    assert forall|w: Seq<char>| #[trigger] self.members@.contains(w) implies self.inner@.len() > 0 && self.holds_at(w) by {
                        assert(self.inner@.len() == old_inner.len());
                        if w == val@ {
                            let last = old_inner[h as int]@.len() as int;
                            assert(self.inner@[h as int]@[last]@ == w);
                            assert(bucket_of(w, self.radix as nat, self.inner@.len()) == h);
                        } else {
                            assert(old(self).holds_at(w));
                            let bw = bucket_of(w, self.radix as nat, self.inner@.len()) as int;
                            let i = choose|i: int| 0 <= i < old_inner[bw]@.len() && #[trigger] old_inner[bw]@[i]@ == w;
                            assert(self.inner@[bw]@[i]@ == w);
                        }
                    }
                    assert forall|b: int, i: int|
                        0 <= b < self.inner@.len() && 0 <= i < self.inner@[b]@.len() implies {
                            &&& bucket_of(#[trigger] self.inner@[b]@[i]@, self.radix as nat, self.inner@.len()) == b
                            &&& self.members@.contains(self.inner@[b]@[i]@)
                        } by {
                        if b != h || i < old_inner[b]@.len() {
                            assert(self.inner@[b]@[i] == old_inner[b]@[i]);
                        }
                    }
                    assert forall|b: int, i: int, j: int|
                        0 <= b < self.inner@.len() && 0 <= i < self.inner@[b]@.len() && 0 <= j
                            < self.inner@[b]@.len() && i != j implies #[trigger] self.inner@[b]@[i]@
                            != #[trigger] self.inner@[b]@[j]@ by {
                        if b != h {
                            assert(self.inner@[b] == old_inner[b]);
                        } else {
                            if i < old_inner[b]@.len() {
                                assert(self.inner@[b]@[i] == old_inner[b]@[i]);
                            }
                            if j < old_inner[b]@.len() {
                                assert(self.inner@[b]@[j] == old_inner[b]@[j]);
                            }
                        }
                    }
                }
            },
        }
    }

    /// Takes `val` out; does nothing when it is not there.
    pub fn remove(&mut self, val: &str)
        requires
            old(self).wf(),
            old(self).spec_capacity() > 0,
        ensures
            final(self).wf(),
            final(self)@ == old(self)@.remove(val@),
            !old(self)@.contains(val@) ==> *final(self) == *old(self),
            final(self).spec_capacity() == old(self).spec_capacity(),
            final(self).spec_radix() == old(self).spec_radix(),
    {
        let h = self.hash(val);
        match self.position(h, val) {
            Some(i) => {
                let ghost old_inner = self.inner@;
                assert(self.members@.contains(val@));
                self.inner[h].remove(i);
                self.len = self.len - 1;
                self.members = Ghost(self.members@.remove(val@));
                proof {
                    assert forall|w: Seq<char>| #[trigger] self.members@.contains(w) implies self.inner@.len() > 0 && self.holds_at(w) by {
                        assert(old(self).holds_at(w));
                        let bw = bucket_of(w, self.radix as nat, self.inner@.len()) as int;
                        let j = choose|j: int| 0 <= j < old_inner[bw]@.len() && #[trigger] old_inner[bw]@[j]@ == w;
                        if bw != h {
                            assert(self.inner@[bw]@[j]@ == w);
                        } else if j < i {
                            assert(self.inner@[bw]@[j]@ == w);
                        } else {
                            assert(j != i);
                            assert(self.inner@[bw]@[j - 1]@ == w);
                        }
                    }
                    assert forall|b: int, k: int|
                        0 <= b < self.inner@.len() && 0 <= k < self.inner@[b]@.len() implies {
                            &&& bucket_of(#[trigger] self.inner@[b]@[k]@, self.radix as nat, self.inner@.len()) == b
                            &&& self.members@.contains(self.inner@[b]@[k]@)
                        } by {
                        if b != h || k < i {
                            assert(self.inner@[b]@[k] == old_inner[b]@[k]);
                            assert(old_inner[h as int]@[i as int]@ == val@);
                        } else {
                            assert(self.inner@[b]@[k] == old_inner[b]@[k + 1]);
                        }
                    }
                    assert forall|b: int, k: int, j: int|
                        0 <= b < self.inner@.len() && 0 <= k < self.inner@[b]@.len() && 0 <= j
                            < self.inner@[b]@.len() && k != j implies #[trigger] self.inner@[b]@[k]@
                            != #[trigger] self.inner@[b]@[j]@ by {
                        if b != h {
                            assert(self.inner@[b] == old_inner[b]);
                        } else {
                            let k0 = if k < i { k } else { k + 1 };
                            let j0 = if j < i { j } else { j + 1 };
                            assert(self.inner@[b]@[k] == old_inner[b]@[k0]);
                            assert(self.inner@[b]@[j] == old_inner[b]@[j0]);
                        }
                    }
                }
            },
            None => {
                proof {
                    if self.members@.contains(val@) {
                        assert(self.holds_at(val@));
                    }
                    assert(self.members@.remove(val@) =~= self.members@);
                }
            },
        }
    }

    /// Whether `val` is in the set.
    pub fn contains(&self, val: &str) -> (r: bool)
        requires
            self.wf(),
            self.spec_capacity() > 0,
        ensures
            r == self@.contains(val@),
    {
        let h = self.hash(val);
        let found = self.position(h, val);
        proof {
            if self@.contains(val@) {
                assert(self.holds_at(val@));
            }
            if let Some(i) = found {
                assert(self.members@.contains(self.inner@[h as int]@[i as int]@));
            }
        }
        found.is_some()
    }

    /// Whether the set holds no word.
    pub fn is_empty(&self) -> (r: bool)
        requires
            self.wf(),
        ensures
            r == (self@.len() == 0),
    {
        self.len == 0
    }

    /// The number of words in the set.
    pub fn len(&self) -> (r: usize)
        requires
            self.wf(),
        ensures
            r == self@.len(),
    {
        self.len
    }

    /// The number of buckets.
    pub fn capacity(&self) -> (r: usize)
        ensures
            r == self.spec_capacity(),
    {
        self.inner.len()
    }

    /// Every word of the set, once each, bucket by bucket.
    pub fn items(&self) -> (r: Vec<String>)
        requires
            self.wf(),
        ensures
            words_view(r@) == self.spec_items(),
            words_view(r@).no_duplicates(),
            words_view(r@).to_set() == self@,
            r@.len() == self@.len(),
    {
        let ghost chains = bucket_words(self.inner@);
        let mut r: Vec<String> = Vec::new();
        let mut b: usize = 0;
        while b < self.inner.len()
            invariant
                self.wf(),
                b <= self.inner@.len(),
                chains == bucket_words(self.inner@),
                words_view(r@) == chains.take(b as int).flatten(),
                words_view(r@).no_duplicates(),
                forall|k: int| 0 <= k < r@.len() ==> {
                    &&& self@.contains(#[trigger] r@[k]@)
                    &&& bucket_of(r@[k]@, self.radix as nat, self.inner@.len()) < b
                },
                forall|c: int, i: int|
                    0 <= c < b && 0 <= i < self.inner@[c]@.len() ==> words_view(r@).contains(
                        #[trigger] self.inner@[c]@[i]@,
                    ),
            decreases self.inner@.len() - b,
        {
            let bucket = &self.inner[b];
            let mut i: usize = 0;
            while i < bucket.len()
                invariant
                    self.wf(),
                    b < self.inner@.len(),
                    bucket@ == self.inner@[b as int]@,
                    i <= bucket@.len(),
                    chains == bucket_words(self.inner@),
                    words_view(r@) == chains.take(b as int).flatten() + words_view(bucket@).take(i as int),
                    words_view(r@).no_duplicates(),
                    forall|k: int| 0 <= k < r@.len() ==> {
                        &&& self@.contains(#[trigger] r@[k]@)
                        &&& bucket_of(r@[k]@, self.radix as nat, self.inner@.len()) < b || exists|j: int| 0 <= j < i && bucket@[j]@ == r@[k]@
                    },
                    forall|c: int, j: int|
                        0 <= c < b && 0 <= j < self.inner@[c]@.len() ==> words_view(r@).contains(
                            #[trigger] self.inner@[c]@[j]@,
                        ),
                    forall|j: int| 0 <= j < i ==> words_view(r@).contains(#[trigger] bucket@[j]@),
                decreases bucket@.len() - i,
            {
                let ghost before = r@;
                let w = bucket[i].clone();
                proof {
                    assert(self.inner@[b as int]@[i as int] == bucket@[i as int]);
                    assert forall|k: int| 0 <= k < before.len() implies before[k]@ != w@ by {
                        if bucket_of(before[k]@, self.radix as nat, self.inner@.len()) >= b {
                            let j = choose|j: int| 0 <= j < i && bucket@[j]@ == before[k]@;
                            assert(self.inner@[b as int]@[j] == bucket@[j]);
                        }
                    }
                }
                r.push(w);
                proof {
                    broadcast use vstd::seq_lib::lemma_seq_contains_after_push;
                    assert(words_view(r@) =~= words_view(before).push(w@));
                    assert(words_view(bucket@).take(i + 1) =~= words_view(bucket@).take(i as int).push(w@));
                    assert(words_view(r@) =~= chains.take(b as int).flatten() + words_view(bucket@).take(i + 1));
                    assert forall|k: int| 0 <= k < r@.len() implies {
                        &&& self@.contains(#[trigger] r@[k]@)
                        &&& bucket_of(r@[k]@, self.radix as nat, self.inner@.len()) < b || exists|j: int| 0 <= j < i + 1 && bucket@[j]@ == r@[k]@
                    } by {
                        if k < before.len() {
                            assert(r@[k] == before[k]);
                        } else {
                            assert(bucket@[i as int]@ == r@[k]@);
                        }
                    }
                    assert forall|j: int| 0 <= j < i + 1 implies words_view(r@).contains(#[trigger] bucket@[j]@) by {
                        if j < i {
                            assert(words_view(before).contains(bucket@[j]@));
                        } else {
                            assert(words_view(r@)[before.len() as int] == bucket@[j]@);
                        }
                    }
                    assert forall|c: int, j: int|
                        0 <= c < b && 0 <= j < self.inner@[c]@.len() implies words_view(r@).contains(
                            #[trigger] self.inner@[c]@[j]@,
                        ) by {
                        assert(words_view(before).contains(self.inner@[c]@[j]@));
                    }
                }
                i = i + 1;
            }
            proof {
                assert(chains.take(b + 1) =~= chains.take(b as int).push(chains[b as int]));
                chains.take(b as int).lemma_flatten_push(chains[b as int]);
                assert(words_view(bucket@).take(i as int) =~= chains[b as int]);
                assert forall|k: int| 0 <= k < r@.len() implies {
                    &&& self@.contains(#[trigger] r@[k]@)
                    &&& bucket_of(r@[k]@, self.radix as nat, self.inner@.len()) < b + 1
                } by {
                    if bucket_of(r@[k]@, self.radix as nat, self.inner@.len()) >= b {
                        let j = choose|j: int| 0 <= j < i && bucket@[j]@ == r@[k]@;
                        assert(self.inner@[b as int]@[j] == bucket@[j]);
                    }
                }
                assert forall|c: int, j: int|
                    0 <= c < b + 1 && 0 <= j < self.inner@[c]@.len() implies words_view(r@).contains(
                        #[trigger] self.inner@[c]@[j]@,
                    ) by {
                    if c == b {
                        assert(self.inner@[c]@[j] == bucket@[j]);
                    }
                }
            }
            b = b + 1;
        }
        proof {
            assert(chains.take(b as int) =~= chains);
            assert forall|w: Seq<char>| #[trigger] self@.contains(w) implies words_view(r@).contains(w) by {
                assert(self.holds_at(w));
                let bw = bucket_of(w, self.radix as nat, self.inner@.len()) as int;
                let j = choose|j: int| 0 <= j < self.inner@[bw]@.len() && #[trigger] self.inner@[bw]@[j]@ == w;
                assert(words_view(r@).contains(self.inner@[bw]@[j]@));
            }
            assert forall|w: Seq<char>| #[trigger] words_view(r@).contains(w) implies self@.contains(w) by {
                let k = choose|k: int| 0 <= k < words_view(r@).len() && words_view(r@)[k] == w;
                assert(self@.contains(r@[k]@));
            }
            assert(words_view(r@).to_set() =~= self@);
            words_view(r@).unique_seq_to_set();
        }
        r
    }

    /// The same set with `capacity` buckets, all empty. A set needs at
    /// least one bucket.
    pub fn with_capacity(self, capacity: usize) -> (r: HashSet)
        requires
            capacity >= 1,
        ensures
            r.wf(),
            r@ == Set::<Seq<char>>::empty(),
            r.spec_capacity() == capacity,
            r.spec_radix() == self.spec_radix(),
    {
        let mut inner: Vec<Vec<String>> = Vec::with_capacity(capacity);
        let mut k: usize = 0;
        while k < capacity
            invariant
                k <= capacity,
                inner@.len() == k,
                forall|b: int| 0 <= b < k ==> (#[trigger] inner@[b])@.len() == 0,
            decreases capacity - k,
        {
            inner.push(Vec::new());
            k = k + 1;
        }
        HashSet { inner, len: 0, radix: self.radix, members: Ghost(Set::empty()) }
    }

    /// The same words, placed by a hash with multiplier `radix`.
    pub fn with_radix(self, radix: usize) -> (r: HashSet)
        requires
            self.wf(),
        ensures
            r.wf(),
            r@ == self@,
            r.spec_capacity() == self.spec_capacity(),
            r.spec_radix() == radix,
    {
        let words = self.items();
        let buckets = self.inner.len();
        if buckets == 0 {
            let r = HashSet { inner: Vec::new(), len: 0, radix, members: Ghost(Set::empty()) };
            proof {
                if self@.len() > 0 {
                    let w = self@.choose();
                    assert(self@.contains(w));
                }
                assert(self@ =~= Set::<Seq<char>>::empty());
            }
            return r;
        }
        let mut r = HashSet { inner: Vec::new(), len: 0, radix, members: Ghost(Set::empty()) }.with_capacity(buckets);
        let mut k: usize = 0;
        while k < words.len()
            invariant
                r.wf(),
                r.spec_capacity() == buckets,
                buckets > 0,
                r.spec_radix() == radix,
                k <= words@.len(),
                r@ == words_view(words@).take(k as int).to_set(),
                r@.len() <= k,
            decreases words@.len() - k,
        {
            proof {
                words_view(words@).take(k as int).lemma_cardinality_of_set();
            }
            r.insert(words[k].as_str());
            proof {
                let before = words_view(words@).take(k as int);
                assert(words_view(words@).take(k + 1) =~= before + seq![words@[k as int]@]);
                Seq::lemma_to_set_insert_commutes(before, words@[k as int]@);
                (before + seq![words@[k as int]@]).lemma_cardinality_of_set();
            }
            k = k + 1;
        }
        proof {
            assert(words_view(words@).take(k as int) =~= words_view(words@));
        }
        r
    }
}

/// The words of each bucket.
pub open spec fn bucket_words(buckets: Seq<Vec<String>>) -> Seq<Seq<Seq<char>>> {
    buckets.map_values(|b: Vec<String>| words_view(b@))
}

/// The words that a vector of strings holds.
pub open spec fn words_view(v: Seq<String>) -> Seq<Seq<char>> {
    v.map_values(|s: String| s@)
}

} // verus!
