//! The plain-text form of a dictionary: one word per line, each word
//! optionally followed by a `/` and a suffix that is ignored.
use vstd::prelude::*;
use crate::hashset::words_view;
use crate::text::{chars_of, lowered, push_char};

verus! {

/// The number of characters of `t` before the first `c`, or the length of
/// `t` when it holds no `c`.
pub open spec fn prefix_len(t: Seq<char>, c: char) -> nat
    decreases t.len(),
{
    if t.len() == 0 || t[0] == c {
        0
    } else {
        1 + prefix_len(t.drop_first(), c)
    }
}

/// A line without the carriage return that ended it.
pub open spec fn drop_cr(line: Seq<char>) -> Seq<char> {
    if line.len() > 0 && line.last() == '\r' {
        line.drop_last()
    } else {
        line
    }
}

/// The lines of a text. A line ends at a line feed, or a carriage return and
/// a line feed, which are not part of it; the last line needs no ending, and
/// a text that ends with a line ending has no empty line after it.
pub open spec fn lines_of(t: Seq<char>) -> Seq<Seq<char>>
    decreases t.len(),
{
    if t.len() == 0 {
        Seq::empty()
    } else if prefix_len(t, '\n') == t.len() {
        seq![t]
    } else {
        proof {
            lemma_prefix_len_bound(t, '\n');
        }
        seq![drop_cr(t.take(prefix_len(t, '\n') as int))] + lines_of(t.skip(prefix_len(t, '\n') + 1 as int))
    }
}

/// The word of a dictionary line: what comes before the first `/`.
pub open spec fn word_of_line(line: Seq<char>) -> Seq<char> {
    line.take(prefix_len(line, '/') as int)
}

/// The words that a list of dictionary lines contributes, lower case.
pub open spec fn source_words(lines: Seq<Seq<char>>) -> Seq<Seq<char>> {
    lines.map_values(|l: Seq<char>| lowered(word_of_line(l)))
}

/// At most all of `t` comes before the first `c`.
pub proof fn lemma_prefix_len_bound(t: Seq<char>, c: char)
    ensures
        prefix_len(t, c) <= t.len(),
    decreases t.len(),
{
    if t.len() > 0 && t[0] != c {
        lemma_prefix_len_bound(t.drop_first(), c);
    }
}

/// `k` is the number of characters before the first `c` when none of the
/// first `k` is a `c` and position `k` holds one or is the end.
pub proof fn lemma_prefix_len(t: Seq<char>, c: char, k: int)
    requires
        0 <= k <= t.len(),
        forall|j: int| 0 <= j < k ==> t[j] != c,
        k == t.len() || t[k] == c,
    ensures
        prefix_len(t, c) == k,
    decreases k,
{
    if k > 0 {
        lemma_prefix_len(t.drop_first(), c, k - 1);
    }
}

/// The characters `chars[from..to]` as a string.
fn string_of(chars: &Vec<char>, from: usize, to: usize) -> (r: String)
    requires
        from <= to <= chars@.len(),
    ensures
        r@ == chars@.subrange(from as int, to as int),
{
    let mut r = String::new();
    let mut k: usize = from;
    while k < to
        invariant
            from <= k <= to,
            to <= chars@.len(),
            r@ == chars@.subrange(from as int, k as int),
        decreases to - k,
    {
        push_char(&mut r, chars[k]);
        proof {
            assert(chars@.subrange(from as int, k + 1) =~= chars@.subrange(from as int, k as int).push(chars@[k as int]));
        }
        k = k + 1;
    }
    r
}

/// Splits a text into its lines.
pub fn split_lines(text: &str) -> (r: Vec<String>)
    ensures
        words_view(r@) == lines_of(text@),
{
    let chars = chars_of(text);
    let ghost t = chars@;
    let mut r: Vec<String> = Vec::new();
    let mut start: usize = 0;
    let mut i: usize = 0;
    proof {
        assert(t.skip(0) =~= t);
        assert(words_view(r@) + lines_of(t) =~= lines_of(t));
    }
    while i < chars.len()
        invariant
            chars@ == t,
            start <= i <= t.len(),
            lines_of(t) == words_view(r@) + lines_of(t.skip(start as int)),
            forall|j: int| start <= j < i ==> t[j] != '\n',
        decreases t.len() - i,
    {
        if chars[i] == '\n' {
            let ghost rest = t.skip(start as int);
            proof {
                lemma_prefix_len(rest, '\n', i - start);
                assert(rest.take(i - start) =~= t.subrange(start as int, i as int));
                assert(rest.skip(i - start + 1) =~= t.skip(i + 1));
            }
            let end = if i > start && chars[i - 1] == '\r' { i - 1 } else { i };
            let line = string_of(&chars, start, end);
            let ghost before = r@;
            r.push(line);
            proof {
                assert(drop_cr(t.subrange(start as int, i as int)) =~= t.subrange(start as int, end as int));
                assert(words_view(r@) =~= words_view(before).push(line@));
                assert(lines_of(rest) == seq![line@] + lines_of(t.skip(i + 1)));
                assert(words_view(before) + lines_of(rest) =~= words_view(r@) + lines_of(t.skip(i + 1)));
            }
            start = i + 1;
        }
        i = i + 1;
    }
    if start < chars.len() {
        let ghost rest = t.skip(start as int);
        proof {
            lemma_prefix_len(rest, '\n', rest.len() as int);
        }
        let line = string_of(&chars, start, chars.len());
        let ghost before = r@;
        r.push(line);
        proof {
            assert(rest =~= line@);
            assert(words_view(r@) =~= words_view(before).push(line@));
            assert(words_view(before) + lines_of(rest) =~= words_view(r@));
        }
    } else {
        proof {
            assert(t.skip(start as int).len() == 0);
            assert(words_view(r@) + lines_of(t.skip(start as int)) =~= words_view(r@));
        }
    }
    r
}

/// The word of a dictionary line: what comes before the first `/`.
pub fn line_word(line: &str) -> (r: String)
    ensures
        r@ == word_of_line(line@),
{
    let chars = chars_of(line);
    let mut k: usize = 0;
    while k < chars.len() && chars[k] != '/'
        invariant
            k <= chars@.len(),
            chars@ == line@,
            forall|j: int| 0 <= j < k ==> chars@[j] != '/',
        decreases chars@.len() - k,
    {
        k = k + 1;
    }
    proof {
        lemma_prefix_len(line@, '/', k as int);
    }
    string_of(&chars, 0, k)
}

} // verus!
