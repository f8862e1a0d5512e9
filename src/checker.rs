//! The spell checker: a dictionary of lower-case words, membership tests,
//! suggestions nearest first, and a plain-text listing of the words.
use vstd::prelude::*;
use vstd::string::StringExecFns;
use crate::distance::{edit_distance, levenshtein_distance};
use crate::hashset::{words_view, HashSet};
use crate::ranking::{
    lemma_is_listing, lemma_nearness_order_total, lemma_sorted_ranking,
    lemma_word_order_total, listing, nearness_order, ranked_words, sort_ranked, sorted_by,
    word_order, RankedWord,
};
use crate::source::{line_word, source_words};
use crate::text::{lowered, to_lower};

verus! {

/// The number of buckets of a new checker's dictionary.
pub const DEFAULT_CAPACITY: usize = 50000;

/// How far each word is from `target`.
pub open spec fn distance_to(target: Seq<char>) -> spec_fn(Seq<char>) -> nat {
    |w: Seq<char>| edit_distance(target, w)
}

/// Nearest to `target` first; at equal distance, in word order.
pub open spec fn suggestion_order(target: Seq<char>) -> spec_fn(Seq<char>, Seq<char>) -> bool {
    nearness_order(distance_to(target))
}

/// Every word of `ws` followed by a line feed, one after the other.
pub open spec fn lines_text(ws: Seq<Seq<char>>) -> Seq<char>
    decreases ws.len(),
{
    if ws.len() == 0 {
        Seq::empty()
    } else {
        lines_text(ws.drop_last()) + ws.last() + seq!['\n']
    }
}

/// Every word of `s` is the lower-case form of some word.
pub open spec fn all_lowered(s: Set<Seq<char>>) -> bool {
    forall|w: Seq<char>| #[trigger] s.contains(w) ==> exists|x: Seq<char>| lowered(x) == w
}

/// A dictionary-backed spell checker. Every stored word is lower case.
pub struct SpellChecker {
    dictionary: HashSet,
}

impl View for SpellChecker {
    type V = Set<Seq<char>>;

    closed spec fn view(&self) -> Set<Seq<char>> {
        self.dictionary@
    }
}

impl SpellChecker {
    /// The dictionary is a well-formed set with buckets, of lower-case
    /// words.
    pub closed spec fn wf(&self) -> bool {
        &&& self.dictionary.wf()
        &&& self.dictionary.spec_capacity() > 0
        &&& all_lowered(self.dictionary@)
    }

    /// A well-formed checker knows finitely many words, each the lower-case
    /// form of some word.
    pub proof fn lemma_wf_facts(&self)
        requires
            self.wf(),
        ensures
            self@.finite(),
            all_lowered(self@),
    {
        self.dictionary.lemma_finite();
    }

    /// The number of known words.
    pub fn len(&self) -> (r: usize)
        requires
            self.wf(),
        ensures
            r == self@.len(),
    {
        self.dictionary.len()
    }

    /// A checker that knows no word.
    pub fn new() -> (r: SpellChecker)
        ensures
            r.wf(),
            r@ == Set::<Seq<char>>::empty(),
    {
        let r = SpellChecker { dictionary: HashSet::new().with_capacity(DEFAULT_CAPACITY) };
        assert(all_lowered(r.dictionary@));
        r
    }

    /// A checker that knows the word of each dictionary line: what comes
    /// before its first `/`, in lower case.
    pub fn from_word_source(lines: &Vec<String>) -> (r: SpellChecker)
        ensures
            r.wf(),
            r@ == source_words(words_view(lines@)).to_set().remove(Seq::<char>::empty()),
    {
        let mut checker = SpellChecker::new();
        let ghost words = source_words(words_view(lines@));
        let mut k: usize = 0;
        while k < lines.len()
            invariant
                k <= lines@.len(),
                words == source_words(words_view(lines@)),
                checker.wf(),
                checker@ == words.take(k as int).to_set().remove(Seq::<char>::empty()),
            decreases lines@.len() - k,
        {
            proof {
                words.take(k as int).lemma_cardinality_of_set();
            }
            let word = line_word(lines[k].as_str());
            let lower = to_lower(word.as_str());
            if !lower.as_str().is_empty() {
                checker.add_lowered(lower.as_str());
            }
            proof {
                let before = words.take(k as int);
                assert(words.take(k + 1) =~= before + seq![words[k as int]]);
                Seq::lemma_to_set_insert_commutes(before, words[k as int]);
                assert(words[k as int] == lower@);
                assert(words.take(k + 1).to_set() == before.to_set().insert(lower@));
                if lower@.len() == 0 {
                    assert(lower@ =~= Seq::<char>::empty());
                    assert(words.take(k + 1).to_set().remove(Seq::<char>::empty()) =~= before.to_set().remove(Seq::<char>::empty()));
                } else {
                    assert(lower@ != Seq::<char>::empty());
                    assert(words.take(k + 1).to_set().remove(Seq::<char>::empty()) =~= before.to_set().remove(Seq::<char>::empty()).insert(lower@));
                }
            }
            k = k + 1;
        }
        proof {
            assert(words.take(k as int) =~= words);
        }
        checker
    }

    /// Whether `word`, taken as it is, is in the dictionary.
    pub fn check_lowered(&self, word: &str) -> (r: bool)
        requires
            self.wf(),
        ensures
            r == self@.contains(word@),
    {
        self.dictionary.contains(word)
    }

    /// Adds `word`, which is already the lower-case form of some word, as it
    /// is.
    pub fn add_lowered(&mut self, word: &str)
        requires
            old(self).wf(),
            old(self)@.len() < usize::MAX,
            exists|x: Seq<char>| lowered(x) == word@,
        ensures
            final(self).wf(),
            final(self)@ == old(self)@.insert(word@),
    {
        self.dictionary.insert(word);
        proof {
            assert forall|w: Seq<char>| #[trigger] self.dictionary@.contains(w) implies exists|x: Seq<char>| lowered(x) == w by {
                if w != word@ {
                    assert(old(self).dictionary@.contains(w));
                }
            }
        }
    }

    /// Whether the lower-case form of `word` is in the dictionary.
    pub fn check(&self, word: &str) -> (r: bool)
        requires
            self.wf(),
        ensures
            r == self@.contains(lowered(word@)),
    {
        let lower = to_lower(word);
        self.dictionary.contains(lower.as_str())
    }

    /// Adds the lower-case form of `word` to the dictionary.
    pub fn add_word(&mut self, word: &str)
        requires
            old(self).wf(),
            old(self)@.len() < usize::MAX,
        ensures
            final(self).wf(),
            final(self)@ == old(self)@.insert(lowered(word@)),
    {
        let lower = to_lower(word);
        self.add_lowered(lower.as_str());
    }

    /// Every known word, once each, in no particular order.
    pub fn words(&self) -> (r: Vec<String>)
        requires
            self.wf(),
        ensures
            words_view(r@).no_duplicates(),
            words_view(r@).to_set() == self@,
    {
        self.dictionary.items()
    }

    /// Every known word, in `String`'s order.
    pub fn sorted_words(&self) -> (r: Vec<String>)
        requires
            self.wf(),
        ensures
            words_view(r@) == listing(self@, word_order()),
            sorted_by(words_view(r@), word_order()),
            words_view(r@).to_set() == self@,
    {
        let words = self.words();
        let ranked = rank_equally(words);
        let sorted = sort_ranked(ranked);
        let r = unrank(sorted);
        proof {
            let zero = |w: Seq<char>| 0nat;
            lemma_sorted_ranking(ranked@, sorted@, zero);
            lemma_word_order_total();
            assert forall|i: int, j: int| 0 <= i < j < words_view(r@).len() implies word_order()(#[trigger] words_view(r@)[i], #[trigger] words_view(r@)[j]) by {
                assert(nearness_order(zero)(words_view(r@)[i], words_view(r@)[j]));
            }
            lemma_is_listing(words_view(r@), self@, word_order());
        }
        r
    }

    /// Every known word, nearest to `word` first by edit distance; words at
    /// the same distance in `String`'s order.
    pub fn suggest(&self, word: &str) -> (r: Vec<String>)
        requires
            self.wf(),
        ensures
            words_view(r@) == listing(self@, suggestion_order(word@)),
            sorted_by(words_view(r@), suggestion_order(word@)),
            words_view(r@).to_set() == self@,
    {
        let words = self.words();
        let mut ranked: Vec<RankedWord> = Vec::new();
        let mut k: usize = 0;
        while k < words.len()
            invariant
                k <= words@.len(),
                ranked@.len() == k,
                forall|i: int| 0 <= i < k ==> (#[trigger] ranked@[i]).word@ == words@[i]@ && ranked@[i].ranking == edit_distance(word@, words@[i]@),
            decreases words@.len() - k,
        {
            let other = words[k].clone();
            let ranking = levenshtein_distance(word, other.as_str());
            ranked.push(RankedWord { ranking, word: other });
            k = k + 1;
        }
        let ghost input = ranked@;
        let sorted = sort_ranked(ranked);
        let r = unrank(sorted);
        proof {
            assert(ranked_words(input) =~= words_view(words@));
            lemma_sorted_ranking(input, sorted@, distance_to(word@));
            lemma_nearness_order_total(distance_to(word@));
            lemma_is_listing(words_view(r@), self@, suggestion_order(word@));
        }
        r
    }

    /// The first `limit` words of `suggest`, or all of them when there are
    /// fewer.
    pub fn suggest_limited(&self, word: &str, limit: usize) -> (r: Vec<String>)
        requires
            self.wf(),
        ensures
            words_view(r@) == listing(self@, suggestion_order(word@)).take(
                if limit <= self@.len() { limit as int } else { self@.len() as int },
            ),
    {
        let all = self.suggest(word);
        let ghost full = words_view(all@);
        let ghost n = if limit <= self@.len() { limit as int } else { self@.len() as int };
        proof {
            lemma_nearness_order_total(distance_to(word@));
            assert forall|i: int, j: int| 0 <= i < full.len() && 0 <= j < full.len() && i != j implies full[i] != full[j] by {
                if i < j {
                    assert(suggestion_order(word@)(full[i], full[j]));
                } else {
                    assert(suggestion_order(word@)(full[j], full[i]));
                }
            }
            full.unique_seq_to_set();
        }
        let mut all = all;
        if limit < all.len() {
            all.truncate(limit);
        }
        proof {
            assert(words_view(all@) =~= full.take(n));
        }
        all
    }

    /// Every known word in `String`'s order, each followed by a line feed.
    pub fn to_string(&self) -> (r: String)
        requires
            self.wf(),
        ensures
            r@ == lines_text(listing(self@, word_order())),
            sorted_by(listing(self@, word_order()), word_order()),
            listing(self@, word_order()).to_set() == self@,
    {
        let words = self.sorted_words();
        let mut text = String::new();
        let mut k: usize = 0;
        while k < words.len()
            invariant
                k <= words@.len(),
                text@ == lines_text(words_view(words@).take(k as int)),
            decreases words@.len() - k,
        {
            text.append(words[k].as_str());
            text.append("\n");
            proof {
                reveal_strlit("\n");
                assert(words_view(words@).take(k + 1).drop_last() =~= words_view(words@).take(k as int));
            }
            k = k + 1;
        }
        proof {
            assert(words_view(words@).take(k as int) =~= words_view(words@));
        }
        text
    }
}

/// Pairs each word with a score of zero.
fn rank_equally(words: Vec<String>) -> (r: Vec<RankedWord>)
    ensures
        ranked_words(r@) == words_view(words@),
        forall|k: int| 0 <= k < r@.len() ==> (#[trigger] r@[k]).ranking == 0,
{
    let mut r: Vec<RankedWord> = Vec::new();
    let mut k: usize = 0;
    while k < words.len()
        invariant
            k <= words@.len(),
            ranked_words(r@) == words_view(words@).take(k as int),
            forall|i: int| 0 <= i < r@.len() ==> (#[trigger] r@[i]).ranking == 0,
        decreases words@.len() - k,
    {
        let ghost before = r@;
        r.push(RankedWord { ranking: 0, word: words[k].clone() });
        proof {
            assert(ranked_words(r@) =~= ranked_words(before).push(words@[k as int]@));
            assert(words_view(words@).take(k + 1) =~= words_view(words@).take(k as int).push(words@[k as int]@));
        }
        k = k + 1;
    }
    proof {
        assert(words_view(words@).take(k as int) =~= words_view(words@));
    }
    r
}

/// The words of ranked entries, in the same order.
fn unrank(ranked: Vec<RankedWord>) -> (r: Vec<String>)
    ensures
        words_view(r@) == ranked_words(ranked@),
{
    let mut r: Vec<String> = Vec::new();
    let mut k: usize = 0;
    while k < ranked.len()
        invariant
            k <= ranked@.len(),
            words_view(r@) == ranked_words(ranked@).take(k as int),
        decreases ranked@.len() - k,
    {
        let ghost before = r@;
        r.push(ranked[k].word.clone());
        proof {
            assert(words_view(r@) =~= words_view(before).push(ranked@[k as int].word@));
            assert(ranked_words(ranked@).take(k + 1) =~= ranked_words(ranked@).take(k as int).push(ranked@[k as int].word@));
        }
        k = k + 1;
    }
    proof {
        assert(ranked_words(ranked@).take(k as int) =~= ranked_words(ranked@));
    }
    r
}

} // verus!
