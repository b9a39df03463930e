//! Splitting a document into words and counting them.

use vstd::prelude::*;
use vstd::hash_map::StringHashMap;
use vstd::std_specs::iter::IteratorSpec;
use vstd::string::*;

use crate::text::utf8;

verus! {

broadcast use vstd::string::group_string_axioms;

/// Whether `c` has the Unicode `Alphabetic` property.
pub uninterp spec fn alphabetic(c: char) -> bool;

/// Relies on `char::is_alphabetic`.
#[verifier::external_body]
fn is_alphabetic(c: char) -> (r: bool)
    ensures
        r == alphabetic(c),
{
    c.is_alphabetic()
}

/// Relies on `char`'s `to_string`: the one-character string.
#[verifier::external_body]
fn char_string(c: char) -> (r: String)
    ensures
        r@ == seq![c],
{
    c.to_string()
}

/// The words of `s`, after a word `cur` already begun: the maximal runs of
/// alphabetic characters, in order.
pub open spec fn words_from(s: Seq<char>, cur: Seq<char>) -> Seq<Seq<char>>
    decreases s.len(),
{
    if s.len() == 0 {
        if cur.len() > 0 {
            seq![cur]
        } else {
            seq![]
        }
    } else if alphabetic(s[0]) {
        words_from(s.drop_first(), cur.push(s[0]))
    } else {
        (if cur.len() > 0 {
            seq![cur]
        } else {
            seq![]
        }) + words_from(s.drop_first(), seq![])
    }
}

/// The words of `s`: its maximal runs of alphabetic characters, in order.
pub open spec fn words(s: Seq<char>) -> Seq<Seq<char>> {
    words_from(s, seq![])
}

/// How many entries of `ws` equal `w`.
pub open spec fn occurrences(ws: Seq<Seq<char>>, w: Seq<char>) -> nat
    decreases ws.len(),
{
    if ws.len() == 0 {
        0
    } else {
        occurrences(ws.drop_last(), w) + if ws.last() == w {
            1nat
        } else {
            0nat
        }
    }
}

/// How often `w` occurs as a word of `s`.
pub open spec fn word_count(s: Seq<char>, w: Seq<char>) -> nat {
    occurrences(words(s), w)
}

proof fn lemma_occurrences_bound(ws: Seq<Seq<char>>, w: Seq<char>)
    ensures
        occurrences(ws, w) <= ws.len(),
    decreases ws.len(),
{
    if ws.len() > 0 {
        lemma_occurrences_bound(ws.drop_last(), w);
    }
}

proof fn lemma_utf8_len(s: Seq<char>)
    ensures
        utf8(s).len() >= s.len(),
    decreases s.len(),
{
    if s.len() > 0 {
        lemma_utf8_len(s.drop_first());
    }
}

/// Records one more occurrence of `word` in the counts `freq` of the words `done`.
fn tally(freq: &mut StringHashMap<usize>, word: String, Ghost(done): Ghost<Seq<Seq<char>>>, Ghost(bound): Ghost<int>)
    requires
        done.len() < bound <= usize::MAX,
        forall|w: Seq<char>| #[trigger] old(freq)@.contains_key(w) <==> occurrences(done, w) > 0,
        forall|w: Seq<char>|
            old(freq)@.contains_key(w) ==> #[trigger] old(freq)@[w] == occurrences(done, w),
    ensures
        forall|w: Seq<char>|
            #[trigger] final(freq)@.contains_key(w) <==> occurrences(done.push(word@), w) > 0,
        forall|w: Seq<char>|
            final(freq)@.contains_key(w) ==> #[trigger] final(freq)@[w] == occurrences(
                done.push(word@),
                w,
            ),
{
    let ghost next = done.push(word@);
    assert(next.drop_last() =~= done);
    proof {
        lemma_occurrences_bound(done, word@);
    }
    let n = match freq.get(word.as_str()) {
        Some(v) => *v,
        None => 0,
    };
    freq.insert(word, n + 1);
}

/// Counts the words of the document: each maximal run of alphabetic
/// characters, mapped to how often it occurs.
pub fn build_word_freq(doc: &str) -> (r: StringHashMap<usize>)
    ensures
        forall|w: Seq<char>| #[trigger] r@.contains_key(w) <==> word_count(doc@, w) > 0,
        forall|w: Seq<char>| r@.contains_key(w) ==> #[trigger] r@[w] == word_count(doc@, w),
{
    let total = doc.as_bytes().len();
    proof {
        lemma_utf8_len(doc@);
    }
    let mut freq: StringHashMap<usize> = StringHashMap::new();
    let mut word = String::new();
    let mut it = doc.chars();
    let ghost mut done: Seq<Seq<char>> = seq![];
    let ghost mut k: int = 0;
    assert(doc@.skip(0) =~= doc@);
    loop
        invariant
            0 <= k <= doc@.len() <= total,
            it.remaining() == doc@.skip(k),
            words(doc@) == done + words_from(doc@.skip(k), word@),
            done.len() + (if word@.len() > 0 {
                1int
            } else {
                0int
            }) <= k,
            forall|w: Seq<char>| #[trigger] freq@.contains_key(w) <==> occurrences(done, w) > 0,
            forall|w: Seq<char>| freq@.contains_key(w) ==> #[trigger] freq@[w] == occurrences(done, w),
        ensures
            k == doc@.len(),
        decreases doc@.len() - k,
    {
        let ghost rest = doc@.skip(k);
        match it.next() {
            Some(c) => {
                assert(rest.drop_first() =~= doc@.skip(k + 1));
                assert(rest[0] == c);
                if is_alphabetic(c) {
                    let piece = char_string(c);
                    let ghost begun = word@;
                    word.append(piece.as_str());
                    assert(word@ =~= begun.push(c));
                } else {
                    if !word.as_str().is_empty() {
                        let finished = word;
                        proof {
                            assert(done + (seq![finished@] + words_from(doc@.skip(k + 1), seq![]))
                                =~= done.push(finished@) + words_from(doc@.skip(k + 1), seq![]));
                        }
                        tally(&mut freq, finished, Ghost(done), Ghost(total as int));
                        proof {
                            done = done.push(finished@);
                        }
                    } else {
                        assert(seq![] + words_from(doc@.skip(k + 1), seq![]) =~= words_from(
                            doc@.skip(k + 1),
                            seq![],
                        ));
                    }
                    word = String::new();
                }
                proof {
                    k = k + 1;
                }
            },
            None => {
                assert(rest.len() == 0);
                break ;
            },
        }
    }
    assert(doc@.skip(k) =~= Seq::<char>::empty());
    if !word.as_str().is_empty() {
        let ghost finished = word@;
        assert(done + seq![finished] =~= done.push(finished));
        tally(&mut freq, word, Ghost(done), Ghost(total as int));
    } else {
        assert(done + seq![] =~= done);
    }
    freq
}

} // verus!
