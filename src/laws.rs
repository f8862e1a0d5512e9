//! Properties that relate several operations of the word set and the
//! checker.
use vstd::prelude::*;
use crate::checker::lines_text;
use crate::ranking::{lemma_is_listing, lemma_word_order_total, listing, sorted_by, word_order};
use crate::source::{drop_cr, lemma_prefix_len, lines_of, source_words, word_of_line};
use crate::text::lowered;

verus! {

/// One change to a set of words.
pub enum SetOp {
    Insert(Seq<char>),
    Remove(Seq<char>),
}

/// What `insert` or `remove` makes of the words of a set.
pub open spec fn apply(s: Set<Seq<char>>, op: SetOp) -> Set<Seq<char>> {
    match op {
        SetOp::Insert(w) => s.insert(w),
        SetOp::Remove(w) => s.remove(w),
    }
}

/// The words of a set after a run of changes, first to last.
pub open spec fn apply_all(s: Set<Seq<char>>, ops: Seq<SetOp>) -> Set<Seq<char>>
    decreases ops.len(),
{
    if ops.len() == 0 {
        s
    } else {
        apply(apply_all(s, ops.drop_last()), ops.last())
    }
}

/// Inserting each word of `ws`, in order.
pub open spec fn inserts(ws: Seq<Seq<char>>) -> Seq<SetOp> {
    ws.map_values(|w: Seq<char>| SetOp::Insert(w))
}

/// Removing each word of `ws`, in order.
pub open spec fn removals(ws: Seq<Seq<char>>) -> Seq<SetOp> {
    ws.map_values(|w: Seq<char>| SetOp::Remove(w))
}

/// A word that was inserted stays in the set through any run of changes
/// that does not remove it.
pub proof fn lemma_inserted_word_stays(s: Set<Seq<char>>, w: Seq<char>, ops: Seq<SetOp>)
    requires
        forall|k: int| 0 <= k < ops.len() ==> ops[k] != SetOp::Remove(w),
    ensures
        apply_all(s.insert(w), ops).contains(w),
    decreases ops.len(),
{
    if ops.len() > 0 {
        lemma_inserted_word_stays(s, w, ops.drop_last());
        assert(ops.last() == ops[ops.len() - 1]);
    }
}

/// Inserting a word a second time changes nothing, the number of words
/// included.
pub proof fn lemma_insert_idempotent(s: Set<Seq<char>>, w: Seq<char>)
    requires
        s.finite(),
    ensures
        s.insert(w).insert(w) == s.insert(w),
        s.insert(w).insert(w).len() == s.insert(w).len(),
{
    assert(s.insert(w).insert(w) =~= s.insert(w));
}

/// A word that no change inserts is not in a set that started empty.
pub proof fn lemma_never_inserted_absent(w: Seq<char>, ops: Seq<SetOp>)
    requires
        forall|k: int| 0 <= k < ops.len() ==> ops[k] != SetOp::Insert(w),
    ensures
        !apply_all(Set::empty(), ops).contains(w),
    decreases ops.len(),
{
    if ops.len() > 0 {
        lemma_never_inserted_absent(w, ops.drop_last());
        assert(ops.last() == ops[ops.len() - 1]);
    }
}

proof fn lemma_apply_all_concat(s: Set<Seq<char>>, a: Seq<SetOp>, b: Seq<SetOp>)
    ensures
        apply_all(s, a + b) == apply_all(apply_all(s, a), b),
    decreases b.len(),
{
    if b.len() == 0 {
        assert(a + b =~= a);
    } else {
        assert((a + b).drop_last() =~= a + b.drop_last());
        lemma_apply_all_concat(s, a, b.drop_last());
    }
}

proof fn lemma_apply_inserts(ws: Seq<Seq<char>>)
    ensures
        apply_all(Set::empty(), inserts(ws)) == ws.to_set(),
    decreases ws.len(),
{
    if ws.len() > 0 {
        let init = ws.drop_last();
        assert(inserts(ws).drop_last() =~= inserts(init));
        lemma_apply_inserts(init);
        assert(ws =~= init + seq![ws.last()]);
        Seq::lemma_to_set_insert_commutes(init, ws.last());
    } else {
        assert(ws.to_set() =~= Set::empty());
    }
}

proof fn lemma_apply_removals(s: Set<Seq<char>>, ws: Seq<Seq<char>>)
    requires
        s.finite(),
        ws.no_duplicates(),
        forall|k: int| 0 <= k < ws.len() ==> s.contains(#[trigger] ws[k]),
    ensures
        apply_all(s, removals(ws)) == s.difference(ws.to_set()),
        apply_all(s, removals(ws)).finite(),
        apply_all(s, removals(ws)).len() == s.len() - ws.len(),
    decreases ws.len(),
{
    if ws.len() == 0 {
        assert(ws.to_set() =~= Set::empty());
        assert(s.difference(ws.to_set()) =~= s);
    } else {
        let init = ws.drop_last();
        assert(removals(ws).drop_last() =~= removals(init));
        assert forall|k: int| 0 <= k < init.len() implies s.contains(#[trigger] init[k]) by {
            assert(init[k] == ws[k]);
        }
        lemma_apply_removals(s, init);
        assert(ws =~= init + seq![ws.last()]);
        Seq::lemma_to_set_insert_commutes(init, ws.last());
        assert(!init.contains(ws.last()));
        assert(s.contains(ws[ws.len() - 1]));
        assert(s.difference(init.to_set()).contains(ws.last()));
        assert(s.difference(init.to_set()).remove(ws.last()) =~= s.difference(ws.to_set()));
    }
}

/// After inserting `n` distinct words into an empty set and then removing
/// `m` distinct words among them, the set holds `n - m` words.
pub proof fn lemma_count_after_inserts_and_removals(ins: Seq<Seq<char>>, rem: Seq<Seq<char>>)
    requires
        ins.no_duplicates(),
        rem.no_duplicates(),
        forall|k: int| 0 <= k < rem.len() ==> ins.contains(#[trigger] rem[k]),
    ensures
        apply_all(Set::empty(), inserts(ins) + removals(rem)).len() == ins.len() - rem.len(),
{
    lemma_apply_all_concat(Set::empty(), inserts(ins), removals(rem));
    lemma_apply_inserts(ins);
    ins.unique_seq_to_set();
    assert forall|k: int| 0 <= k < rem.len() implies ins.to_set().contains(#[trigger] rem[k]) by {
        assert(ins.contains(rem[k]));
    }
    lemma_apply_removals(ins.to_set(), rem);
}

/// A word that the plain-text listing writes out and reads back unchanged:
/// not empty, no line feed, no `/`, no carriage return at its end, already
/// lower case.
pub open spec fn survives_listing(w: Seq<char>) -> bool {
    &&& w.len() > 0
    &&& !w.contains('\n')
    &&& !w.contains('/')
    &&& !(w.len() > 0 && w.last() == '\r')
    &&& lowered(w) == w
}

proof fn lemma_lines_text_first(w: Seq<char>, rest: Seq<Seq<char>>)
    ensures
        lines_text(seq![w] + rest) == w + seq!['\n'] + lines_text(rest),
    decreases rest.len(),
{
    if rest.len() == 0 {
        assert(seq![w] + rest =~= seq![w]);
        assert(seq![w].drop_last() =~= Seq::<Seq<char>>::empty());
        assert(w + seq!['\n'] + lines_text(rest) =~= lines_text(Seq::<Seq<char>>::empty()) + w + seq!['\n']);
    } else {
        assert((seq![w] + rest).drop_last() =~= seq![w] + rest.drop_last());
        lemma_lines_text_first(w, rest.drop_last());
        assert(lines_text(seq![w] + rest) =~= w + seq!['\n'] + lines_text(rest));
    }
}

proof fn lemma_lines_of_first(w: Seq<char>, t: Seq<char>)
    requires
        !w.contains('\n'),
        !(w.len() > 0 && w.last() == '\r'),
    ensures
        lines_of(w + seq!['\n'] + t) == seq![w] + lines_of(t),
{
    let all = w + seq!['\n'] + t;
    assert forall|j: int| 0 <= j < w.len() implies all[j] != '\n' by {
        assert(all[j] == w[j]);
        if w[j] == '\n' {
            assert(w.contains(w[j]));
        }
    }
    lemma_prefix_len(all, '\n', w.len() as int);
    assert(all.take(w.len() as int) =~= w);
    assert(drop_cr(w) == w);
    assert(all.skip(w.len() + 1 as int) =~= t);
}

proof fn lemma_lines_of_lines_text(ws: Seq<Seq<char>>)
    requires
        forall|k: int| 0 <= k < ws.len() ==> survives_listing(#[trigger] ws[k]),
    ensures
        lines_of(lines_text(ws)) == ws,
    decreases ws.len(),
{
    if ws.len() == 0 {
        assert(lines_text(ws) =~= Seq::<char>::empty());
    } else {
        let rest = ws.drop_first();
        assert(ws =~= seq![ws[0]] + rest);
        lemma_lines_text_first(ws[0], rest);
        assert(survives_listing(ws[0]));
        lemma_lines_of_first(ws[0], lines_text(rest));
        assert forall|k: int| 0 <= k < rest.len() implies survives_listing(#[trigger] rest[k]) by {
            assert(rest[k] == ws[k + 1]);
        }
        lemma_lines_of_lines_text(rest);
    }
}

proof fn lemma_source_words_identity(ws: Seq<Seq<char>>)
    requires
        forall|k: int| 0 <= k < ws.len() ==> survives_listing(#[trigger] ws[k]),
    ensures
        source_words(ws) == ws,
{
    assert forall|k: int| 0 <= k < ws.len() implies source_words(ws)[k] == ws[k] by {
        let w = ws[k];
        assert(survives_listing(w));
        assert forall|j: int| 0 <= j < w.len() implies w[j] != '/' by {
            if w[j] == '/' {
                assert(w.contains(w[j]));
            }
        }
        lemma_prefix_len(w, '/', w.len() as int);
        assert(word_of_line(w) =~= w);
    }
    assert(source_words(ws) =~= ws);
}

/// Writing the sorted words of a dictionary out as text, one per line, and
/// reading that text back as a dictionary source gives the same words in the
/// same order, provided each word survives the listing.
pub proof fn lemma_export_round_trip(s: Set<Seq<char>>, ws: Seq<Seq<char>>)
    requires
        sorted_by(ws, word_order()),
        ws.to_set() == s,
        forall|w: Seq<char>| #[trigger] s.contains(w) ==> survives_listing(w),
    ensures
        source_words(lines_of(lines_text(ws))) == ws,
        source_words(lines_of(lines_text(ws))).to_set().remove(Seq::<char>::empty()) == s,
        listing(source_words(lines_of(lines_text(ws))).to_set().remove(Seq::<char>::empty()), word_order()) == ws,
{
    assert forall|k: int| 0 <= k < ws.len() implies survives_listing(#[trigger] ws[k]) by {
        assert(ws.to_set().contains(ws[k]));
    }
    lemma_lines_of_lines_text(ws);
    lemma_source_words_identity(ws);
    lemma_word_order_total();
    lemma_is_listing(ws, s, word_order());
    if s.contains(Seq::<char>::empty()) {
        assert(survives_listing(Seq::<char>::empty()));
    }
    assert(s.remove(Seq::<char>::empty()) =~= s);
}

} // verus!
