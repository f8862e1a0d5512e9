//! Orders on words, the one listing of a set of words that an order allows,
//! and a merge sort of scored words.
use vstd::prelude::*;
use crate::text::{bytes_of, compare_words, lemma_bytes_lt_irreflexive, lemma_bytes_lt_total, lemma_bytes_lt_transitive, lemma_bytes_of_injective, word_lt};

verus! {

broadcast use vstd::seq_lib::group_to_multiset_ensures;

/// `ws` lists its words in strictly increasing order under `lt`.
pub open spec fn sorted_by(ws: Seq<Seq<char>>, lt: spec_fn(Seq<char>, Seq<char>) -> bool) -> bool {
    forall|i: int, j: int| 0 <= i < j < ws.len() ==> lt(#[trigger] ws[i], #[trigger] ws[j])
}

/// `lt` is a strict total order.
pub open spec fn strict_total_order(lt: spec_fn(Seq<char>, Seq<char>) -> bool) -> bool {
    &&& forall|a: Seq<char>| !#[trigger] lt(a, a)
    &&& forall|a: Seq<char>, b: Seq<char>, c: Seq<char>| #[trigger] lt(a, b) && #[trigger] lt(b, c) ==> lt(a, c)
    &&& forall|a: Seq<char>, b: Seq<char>| a != b ==> #[trigger] lt(a, b) || #[trigger] lt(b, a)
}

/// The words of `s` in increasing order under `lt`.
pub open spec fn listing(s: Set<Seq<char>>, lt: spec_fn(Seq<char>, Seq<char>) -> bool) -> Seq<Seq<char>> {
    choose|ws: Seq<Seq<char>>| ws.to_set() == s && sorted_by(ws, lt)
}

/// `String`'s order on words.
pub open spec fn word_order() -> spec_fn(Seq<char>, Seq<char>) -> bool {
    |a: Seq<char>, b: Seq<char>| word_lt(a, b)
}

/// Nearer to `target` first; at equal distance, in word order.
pub open spec fn nearness_order(distance: spec_fn(Seq<char>) -> nat) -> spec_fn(Seq<char>, Seq<char>) -> bool {
    |a: Seq<char>, b: Seq<char>| distance(a) < distance(b) || (distance(a) == distance(b) && word_lt(a, b))
}

/// Word order is a strict total order.
pub proof fn lemma_word_order_total()
    ensures
        strict_total_order(word_order()),
{
    assert forall|a: Seq<char>| !#[trigger] word_order()(a, a) by {
        lemma_bytes_lt_irreflexive(bytes_of(a));
    }
    assert forall|a: Seq<char>, b: Seq<char>, c: Seq<char>| #[trigger] word_order()(a, b) && #[trigger] word_order()(b, c) implies word_order()(a, c) by {
        lemma_bytes_lt_transitive(bytes_of(a), bytes_of(b), bytes_of(c));
    }
    assert forall|a: Seq<char>, b: Seq<char>| a != b implies #[trigger] word_order()(a, b) || #[trigger] word_order()(b, a) by {
        lemma_bytes_of_injective(a, b);
        lemma_bytes_lt_total(bytes_of(a), bytes_of(b));
    }
}

/// Ordering by a distance, then by word, is a strict total order.
pub proof fn lemma_nearness_order_total(distance: spec_fn(Seq<char>) -> nat)
    ensures
        strict_total_order(nearness_order(distance)),
{
    lemma_word_order_total();
    let lt = nearness_order(distance);
    assert forall|a: Seq<char>| !#[trigger] lt(a, a) by {
        assert(!word_order()(a, a));
    }
    assert forall|a: Seq<char>, b: Seq<char>, c: Seq<char>| #[trigger] lt(a, b) && #[trigger] lt(b, c) implies lt(a, c) by {
        if word_lt(a, b) && word_lt(b, c) {
            assert(word_order()(a, b) && word_order()(b, c));
        }
    }
    assert forall|a: Seq<char>, b: Seq<char>| a != b implies #[trigger] lt(a, b) || #[trigger] lt(b, a) by {
        assert(word_order()(a, b) || word_order()(b, a));
    }
}

/// Two sequences that list the same set in strictly increasing order are
/// the same sequence.
pub proof fn lemma_listing_unique(ws1: Seq<Seq<char>>, ws2: Seq<Seq<char>>, lt: spec_fn(Seq<char>, Seq<char>) -> bool)
    requires
        strict_total_order(lt),
        sorted_by(ws1, lt),
        sorted_by(ws2, lt),
        ws1.to_set() == ws2.to_set(),
    ensures
        ws1 == ws2,
    decreases ws1.len(),
{
    if ws1.len() == 0 {
        if ws2.len() > 0 {
            assert(ws2.to_set().contains(ws2[0]));
        }
        assert(ws1 =~= ws2);
    } else {
        assert(ws1.to_set().contains(ws1[0]));
        assert(ws2.len() > 0);
        assert(ws2.to_set().contains(ws2[0]));
        let j = choose|j: int| 0 <= j < ws2.len() && ws2[j] == ws1[0];
        let i = choose|i: int| 0 <= i < ws1.len() && ws1[i] == ws2[0];
        if j > 0 {
            assert(lt(ws2[0], ws2[j]));
            if i > 0 {
                assert(lt(ws1[0], ws1[i]));
            }
        }
        assert(ws1[0] == ws2[0]);
        let r1 = ws1.drop_first();
        let r2 = ws2.drop_first();
        assert(sorted_by(r1, lt)) by {
            assert forall|a: int, b: int| 0 <= a < b < r1.len() implies lt(#[trigger] r1[a], #[trigger] r1[b]) by {
                assert(r1[a] == ws1[a + 1] && r1[b] == ws1[b + 1]);
            }
        }
        assert(sorted_by(r2, lt)) by {
            assert forall|a: int, b: int| 0 <= a < b < r2.len() implies lt(#[trigger] r2[a], #[trigger] r2[b]) by {
                assert(r2[a] == ws2[a + 1] && r2[b] == ws2[b + 1]);
            }
        }
        assert forall|w: Seq<char>| r1.to_set().contains(w) implies r2.to_set().contains(w) by {
            let a = choose|a: int| 0 <= a < r1.len() && r1[a] == w;
            assert(ws1[a + 1] == w);
            assert(lt(ws1[0], w));
            assert(ws2.to_set().contains(w));
            let b = choose|b: int| 0 <= b < ws2.len() && ws2[b] == w;
            assert(b != 0);
            assert(r2[b - 1] == w);
        }
        assert forall|w: Seq<char>| r2.to_set().contains(w) implies r1.to_set().contains(w) by {
            let a = choose|a: int| 0 <= a < r2.len() && r2[a] == w;
            assert(ws2[a + 1] == w);
            assert(lt(ws2[0], w));
            assert(ws1.to_set().contains(w));
            let b = choose|b: int| 0 <= b < ws1.len() && ws1[b] == w;
            assert(b != 0);
            assert(r1[b - 1] == w);
        }
        assert(r1.to_set() =~= r2.to_set());
        lemma_listing_unique(r1, r2, lt);
        assert(ws1 =~= seq![ws1[0]] + r1);
        assert(ws2 =~= seq![ws2[0]] + r2);
    }
}

/// A sequence that lists `s` in strictly increasing order under `lt` is the
/// listing of `s`.
pub proof fn lemma_is_listing(ws: Seq<Seq<char>>, s: Set<Seq<char>>, lt: spec_fn(Seq<char>, Seq<char>) -> bool)
    requires
        strict_total_order(lt),
        sorted_by(ws, lt),
        ws.to_set() == s,
    ensures
        listing(s, lt) == ws,
{
    let l = listing(s, lt);
    assert(l.to_set() == s && sorted_by(l, lt));
    lemma_listing_unique(l, ws, lt);
}

/// A word with its score; lower scores rank first.
pub struct RankedWord {
    pub ranking: usize,
    pub word: String,
}

impl RankedWord {
    /// The score and the word, as plain values.
    pub open spec fn key(&self) -> (nat, Seq<char>) {
        (self.ranking as nat, self.word@)
    }

    fn copy(&self) -> (r: RankedWord)
        ensures
            r.key() == self.key(),
    {
        RankedWord { ranking: self.ranking, word: self.word.clone() }
    }
}

/// Lower score first; at equal scores, in word order.
pub open spec fn key_lt(a: (nat, Seq<char>), b: (nat, Seq<char>)) -> bool {
    a.0 < b.0 || (a.0 == b.0 && word_lt(a.1, b.1))
}

/// The keys of a sequence of ranked words.
pub open spec fn keys(v: Seq<RankedWord>) -> Seq<(nat, Seq<char>)> {
    v.map_values(|r: RankedWord| r.key())
}

/// No key of `ks` comes after a key that is strictly smaller.
pub open spec fn no_inversion(ks: Seq<(nat, Seq<char>)>) -> bool {
    forall|i: int, j: int| 0 <= i < j < ks.len() ==> !key_lt(#[trigger] ks[j], #[trigger] ks[i])
}

proof fn lemma_key_order()
    ensures
        forall|a: (nat, Seq<char>)| !#[trigger] key_lt(a, a),
        forall|a: (nat, Seq<char>), b: (nat, Seq<char>), c: (nat, Seq<char>)| #[trigger] key_lt(a, b) && #[trigger] key_lt(b, c) ==> key_lt(a, c),
        forall|a: (nat, Seq<char>), b: (nat, Seq<char>)| a != b ==> #[trigger] key_lt(a, b) || #[trigger] key_lt(b, a),
{
    lemma_word_order_total();
    assert forall|a: (nat, Seq<char>)| !#[trigger] key_lt(a, a) by {
        assert(!word_order()(a.1, a.1));
    }
    assert forall|a: (nat, Seq<char>), b: (nat, Seq<char>), c: (nat, Seq<char>)| #[trigger] key_lt(a, b) && #[trigger] key_lt(b, c) implies key_lt(a, c) by {
        if word_lt(a.1, b.1) && word_lt(b.1, c.1) {
            assert(word_order()(a.1, b.1) && word_order()(b.1, c.1));
        }
    }
    assert forall|a: (nat, Seq<char>), b: (nat, Seq<char>)| a != b implies #[trigger] key_lt(a, b) || #[trigger] key_lt(b, a) by {
        if a.1 != b.1 {
            assert(word_order()(a.1, b.1) || word_order()(b.1, a.1));
        }
    }
}

fn ranked_before(a: &RankedWord, b: &RankedWord) -> (r: bool)
    ensures
        r == key_lt(a.key(), b.key()),
{
    if a.ranking != b.ranking {
        a.ranking < b.ranking
    } else {
        compare_words(a.word.as_str(), b.word.as_str()) < 0
    }
}

proof fn lemma_keys_push(v: Seq<RankedWord>, x: RankedWord)
    ensures
        keys(v.push(x)) == keys(v).push(x.key()),
{
    assert(keys(v.push(x)) =~= keys(v).push(x.key()));
}

proof fn lemma_keys_take_push(v: Seq<RankedWord>, i: int)
    requires
        0 <= i < v.len(),
    ensures
        keys(v).take(i + 1) == keys(v).take(i).push(v[i].key()),
{
    assert(keys(v).take(i + 1) =~= keys(v).take(i).push(v[i].key()));
}

/// Merges two sequences without inversions into one.
fn merge(lower: Vec<RankedWord>, upper: Vec<RankedWord>) -> (r: Vec<RankedWord>)
    requires
        no_inversion(keys(lower@)),
        no_inversion(keys(upper@)),
    ensures
        no_inversion(keys(r@)),
        keys(r@).to_multiset() == keys(lower@).to_multiset().add(keys(upper@).to_multiset()),
{
    proof {
        lemma_key_order();
    }
    let mut res: Vec<RankedWord> = Vec::new();
    let mut i: usize = 0;
    let mut j: usize = 0;
    while i < lower.len() || j < upper.len()
        invariant
            no_inversion(keys(lower@)),
            no_inversion(keys(upper@)),
            forall|a: (nat, Seq<char>)| !#[trigger] key_lt(a, a),
            forall|a: (nat, Seq<char>), b: (nat, Seq<char>), c: (nat, Seq<char>)| #[trigger] key_lt(a, b) && #[trigger] key_lt(b, c) ==> key_lt(a, c),
            forall|a: (nat, Seq<char>), b: (nat, Seq<char>)| a != b ==> #[trigger] key_lt(a, b) || #[trigger] key_lt(b, a),
            i <= lower@.len(),
            j <= upper@.len(),
            no_inversion(keys(res@)),
            keys(res@).to_multiset() == keys(lower@).take(i as int).to_multiset().add(keys(upper@).take(j as int).to_multiset()),
            res@.len() > 0 && i < lower@.len() ==> !key_lt(lower@[i as int].key(), res@.last().key()),
            res@.len() > 0 && j < upper@.len() ==> !key_lt(upper@[j as int].key(), res@.last().key()),
        decreases lower@.len() + upper@.len() - i - j,
    {
        let ghost before = res@;
        let take_lower = j >= upper.len() || (i < lower.len() && !ranked_before(&upper[j], &lower[i]));
        let x = if take_lower { lower[i].copy() } else { upper[j].copy() };
        proof {
            assert(keys(before).len() == before.len());
            assert forall|k: int| 0 <= k < before.len() implies !key_lt(x.key(), #[trigger] keys(before)[k]) by {
                let last = before.last().key();
                assert(keys(before)[before.len() - 1] == last);
                if take_lower {
                    assert(x.key() == lower@[i as int].key());
                } else {
                    assert(x.key() == upper@[j as int].key());
                }
                assert(!key_lt(x.key(), last));
                if k < before.len() - 1 {
                    assert(!key_lt(keys(before)[before.len() - 1], keys(before)[k]));
                }
                if x.key() != last {
                    assert(key_lt(last, x.key()));
                }
            }
            lemma_keys_push(before, x);
        }
        res.push(x);
        proof {
            assert forall|a: int, b: int| 0 <= a < b < keys(res@).len() implies !key_lt(#[trigger] keys(res@)[b], #[trigger] keys(res@)[a]) by {
                if b < before.len() {
                    assert(keys(res@)[a] == keys(before)[a]);
                    assert(keys(res@)[b] == keys(before)[b]);
                } else {
                    assert(keys(res@)[a] == keys(before)[a]);
                }
            }
        }
        if take_lower {
            proof {
                lemma_keys_take_push(lower@, i as int);
                if i + 1 < lower@.len() {
                    assert(!key_lt(keys(lower@)[i + 1], keys(lower@)[i as int]));
                }
            }
            i = i + 1;
        } else {
            proof {
                lemma_keys_take_push(upper@, j as int);
                if j + 1 < upper@.len() {
                    assert(!key_lt(keys(upper@)[j + 1], keys(upper@)[j as int]));
                }
            }
            j = j + 1;
        }
        proof {
            assert(keys(res@).to_multiset() =~= keys(lower@).take(i as int).to_multiset().add(keys(upper@).take(j as int).to_multiset()));
        }
    }
    proof {
        assert(keys(lower@).take(i as int) =~= keys(lower@));
        assert(keys(upper@).take(j as int) =~= keys(upper@));
    }
    res
}

/// Sorts ranked words by score, then by word.
pub fn sort_ranked(v: Vec<RankedWord>) -> (r: Vec<RankedWord>)
    ensures
        no_inversion(keys(r@)),
        keys(r@).to_multiset() == keys(v@).to_multiset(),
    decreases v@.len(),
{
    if v.len() < 2 {
        proof {
            if v@.len() == 1 {
                assert(no_inversion(keys(v@)));
            }
        }
        return v;
    }
    let middle = v.len() / 2;
    let mut lower = v;
    let upper = lower.split_off(middle);
    proof {
        assert(keys(v@) =~= keys(lower@) + keys(upper@));
        vstd::seq_lib::lemma_multiset_commutative(keys(lower@), keys(upper@));
    }
    let lower = sort_ranked(lower);
    let upper = sort_ranked(upper);
    merge(lower, upper)
}

/// The words of a sequence of ranked words.
pub open spec fn ranked_words(v: Seq<RankedWord>) -> Seq<Seq<char>> {
    v.map_values(|r: RankedWord| r.word@)
}

/// When every word of `input` is scored by `score`, the words are distinct,
/// and `out` holds the same entries without an inversion, then `out` lists
/// the words of `input` nearest first.
pub proof fn lemma_sorted_ranking(input: Seq<RankedWord>, out: Seq<RankedWord>, score: spec_fn(Seq<char>) -> nat)
    requires
        forall|k: int| 0 <= k < input.len() ==> (#[trigger] input[k]).ranking == score(input[k].word@),
        ranked_words(input).no_duplicates(),
        keys(out).to_multiset() == keys(input).to_multiset(),
        no_inversion(keys(out)),
    ensures
        sorted_by(ranked_words(out), nearness_order(score)),
        ranked_words(out).to_set() == ranked_words(input).to_set(),
{
    lemma_key_order();
    let ki = keys(input);
    let ko = keys(out);
    assert forall|a: int, b: int| 0 <= a < ki.len() && 0 <= b < ki.len() && a != b implies ki[a] != ki[b] by {
        assert(ranked_words(input)[a] == input[a].word@);
        assert(ranked_words(input)[b] == input[b].word@);
    }
    assert(ki.no_duplicates());
    ki.lemma_multiset_has_no_duplicates();
    ko.lemma_multiset_has_no_duplicates_conv();
    assert forall|k: int| 0 <= k < out.len() implies (#[trigger] out[k]).ranking == score(out[k].word@) && ranked_words(input).contains(out[k].word@) by {
        assert(ko[k] == out[k].key());
        assert(ko.contains(ko[k]));
        assert(ko.to_multiset().count(ko[k]) > 0);
        assert(ki.to_multiset().count(ko[k]) > 0);
        assert(ki.contains(ko[k]));
        let a = choose|a: int| 0 <= a < ki.len() && ki[a] == ko[k];
        assert(ki[a] == input[a].key());
        assert(ranked_words(input)[a] == input[a].word@);
    }
    let wo = ranked_words(out);
    assert forall|i: int, j: int| 0 <= i < j < wo.len() implies nearness_order(score)(#[trigger] wo[i], #[trigger] wo[j]) by {
        assert(wo[i] == out[i].word@ && wo[j] == out[j].word@);
        assert(ko[i] == out[i].key() && ko[j] == out[j].key());
        assert(!key_lt(ko[j], ko[i]));
        assert(ko[i] != ko[j]);
        assert(key_lt(ko[i], ko[j]));
    }
    assert forall|w: Seq<char>| wo.to_set().contains(w) implies ranked_words(input).to_set().contains(w) by {
        let k = choose|k: int| 0 <= k < wo.len() && wo[k] == w;
        assert(wo[k] == out[k].word@);
    }
    assert forall|w: Seq<char>| ranked_words(input).to_set().contains(w) implies wo.to_set().contains(w) by {
        let a = choose|a: int| 0 <= a < input.len() && ranked_words(input)[a] == w;
        assert(ranked_words(input)[a] == input[a].word@);
        assert(ki[a] == input[a].key());
        assert(ki.contains(ki[a]));
        assert(ki.to_multiset().count(ki[a]) > 0);
        assert(ko.to_multiset().count(ki[a]) > 0);
        assert(ko.contains(ki[a]));
        let k = choose|k: int| 0 <= k < ko.len() && ko[k] == ki[a];
        assert(ko[k] == out[k].key());
        assert(wo[k] == out[k].word@);
    }
    assert(wo.to_set() =~= ranked_words(input).to_set());
}

} // verus!
