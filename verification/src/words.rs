//! Word-list plumbing around the trie build: the parallel sort, duplicate
//! removal, the binary search for a letter boundary, and the game's
//! word-length filter.

use vstd::prelude::*;
use vstd::seq_lib::group_to_multiset_ensures;

use rayon::slice::ParallelSliceMut;

use crate::order::lemma_lex_lt_transitive;
use crate::order::lex_le;
use crate::order::lex_lt;
use crate::order::sorted_words;
use crate::order::str_lt;
use crate::order::strictly_sorted_words;

verus! {

broadcast use vstd::set::group_set_axioms;

/// The character sequences of the words in a list.
pub open spec fn word_views(ws: Seq<String>) -> Seq<Seq<char>> {
    ws.map_values(|s: String| s@)
}

/// Total number of characters in a word list: the measure that shrinks at
/// every level of the divide-and-conquer trie build.
pub open spec fn total_chars(ws: Seq<Seq<char>>) -> nat
    decreases ws.len(),
{
    if ws.len() == 0 {
        0
    } else {
        ws[0].len() + total_chars(ws.drop_first())
    }
}

pub proof fn lemma_total_chars_subrange(ws: Seq<Seq<char>>, a: int, b: int)
    requires
        0 <= a <= b <= ws.len(),
    ensures
        total_chars(ws.subrange(a, b)) <= total_chars(ws),
    decreases ws.len(),
{
    if a > 0 {
        assert(ws.subrange(a, b) =~= ws.drop_first().subrange(a - 1, b - 1));
        lemma_total_chars_subrange(ws.drop_first(), a - 1, b - 1);
    } else if b > 0 {
        let sub = ws.subrange(0, b);
        assert(sub.len() > 0);
        assert(sub[0] == ws[0]);
        assert(sub.drop_first() =~= ws.drop_first().subrange(0, b - 1));
        lemma_total_chars_subrange(ws.drop_first(), 0, b - 1);
    }
}

pub proof fn lemma_total_chars_drop_heads(ws: Seq<Seq<char>>)
    requires
        forall|i: int| 0 <= i < ws.len() ==> (#[trigger] ws[i]).len() > 0,
    ensures
        total_chars(ws.map_values(|w: Seq<char>| w.drop_first())) + ws.len() == total_chars(ws),
    decreases ws.len(),
{
    let mapped = ws.map_values(|w: Seq<char>| w.drop_first());
    if ws.len() > 0 {
        assert(mapped[0] == ws[0].drop_first());
        assert(mapped.drop_first() =~= ws.drop_first().map_values(|w: Seq<char>| w.drop_first()));
        lemma_total_chars_drop_heads(ws.drop_first());
    }
}

/// Extending a list by one element extends what it contains by exactly that
/// element.
pub proof fn lemma_push_contains<A>(s: Seq<A>, x: A, w: A)
    ensures
        s.push(x).contains(w) <==> s.contains(w) || w == x,
{
    if s.push(x).contains(w) {
        let k = choose|k: int| 0 <= k < s.push(x).len() && s.push(x)[k] == w;
        if k < s.len() {
            assert(s[k] == w);
        }
    }
    if s.contains(w) {
        let k = choose|k: int| 0 <= k < s.len() && s[k] == w;
        assert(s.push(x)[k] == w);
    }
    assert(s.push(x)[s.len() as int] == x);
}

/// Taking one more element of a list extends what the prefix contains by
/// exactly that element.
pub proof fn lemma_take_one_more_contains<A>(s: Seq<A>, i: int, w: A)
    requires
        0 <= i < s.len(),
    ensures
        s.take(i + 1).contains(w) <==> s.take(i).contains(w) || w == s[i],
{
    if s.take(i + 1).contains(w) {
        let k = choose|k: int| 0 <= k < s.take(i + 1).len() && #[trigger] s.take(i + 1)[k] == w;
        if k < i {
            assert(s.take(i)[k] == w);
        }
    }
    if s.take(i).contains(w) {
        let k = choose|k: int| 0 <= k < s.take(i).len() && s.take(i)[k] == w;
        assert(s.take(i + 1)[k] == w);
    }
    assert(s.take(i + 1)[i] == s[i]);
}

/// Two word lists holding the same multiset of elements hold the same set.
pub proof fn lemma_same_multiset_same_set<A>(s1: Seq<A>, s2: Seq<A>)
    requires
        s1.to_multiset() == s2.to_multiset(),
    ensures
        s1.to_set() == s2.to_set(),
{
    broadcast use group_to_multiset_ensures;

    assert(s1.to_set() =~= s2.to_set()) by {
        assert(forall|a: A| s1.contains(a) <==> s1.to_multiset().count(a) > 0);
        assert(forall|a: A| s2.contains(a) <==> s2.to_multiset().count(a) > 0);
    }
}

/// Relies on rayon's `par_sort` (a stable parallel merge sort): it reorders
/// the elements of the slice into nondecreasing `Ord` order and keeps every
/// element. `Ord` on `String` compares the UTF-8 bytes, and UTF-8 byte order
/// agrees with lexicographic order on the character sequences.
#[verifier::external_body]
fn sort_strings(words: &mut Vec<String>)
    ensures
        sorted_words(word_views(final (words)@)),
        word_views(final (words)@).to_multiset() == word_views(old(words)@).to_multiset(),
{
    words.par_sort();
}

/// Sorts a word list in nondecreasing lexicographic order, keeping every
/// occurrence of every word.
pub fn sort_word_list(words: &mut Vec<String>)
    ensures
        sorted_words(word_views(final (words)@)),
        word_views(final (words)@).to_multiset() == word_views(old(words)@).to_multiset(),
        word_views(final (words)@).to_set() == word_views(old(words)@).to_set(),
{
    sort_strings(words);
    proof {
        lemma_same_multiset_same_set(word_views(words@), word_views(old(words)@));
    }
}

/// Removes duplicates from a sorted word list, producing the strictly
/// increasing list of its distinct words.
pub fn dedup_words(words: &Vec<String>) -> (out: Vec<String>)
    requires
        sorted_words(word_views(words@)),
    ensures
        strictly_sorted_words(word_views(out@)),
        word_views(out@).to_set() == word_views(words@).to_set(),
{
    let ghost vs = word_views(words@);
    let mut out: Vec<String> = Vec::new();
    let mut i: usize = 0;
    while i < words.len()
        invariant
            i <= vs.len(),
            vs == word_views(words@),
            sorted_words(vs),
            strictly_sorted_words(word_views(out@)),
            word_views(out@).to_set() == vs.take(i as int).to_set(),
            i == 0 ==> out@.len() == 0,
            i > 0 ==> out@.len() > 0 && word_views(out@).last() == vs[i as int - 1],
        decreases vs.len() - i,
    {
        let ghost old_out = word_views(out@);
        let keep: bool = if out.len() == 0 {
            true
        } else {
            !(out[out.len() - 1] == words[i])
        };
        if keep {
            out.push(words[i].clone());
            proof {
                let new_out = word_views(out@);
                assert(new_out =~= old_out.push(vs[i as int]));
                if i > 0 {
                    let last = old_out.last();
                    assert(lex_le(vs[i as int - 1], vs[i as int]));
                    assert(last != vs[i as int]);
                    assert(lex_lt(last, vs[i as int]));
                    assert forall|k: int| 0 <= k < new_out.len() - 1 implies lex_lt(
                        #[trigger] new_out[k],
                        new_out[new_out.len() - 1],
                    ) by {
                        if k < old_out.len() - 1 {
                            lemma_lex_lt_transitive(old_out[k], last, vs[i as int]);
                        }
                    }
                }
            }
        }
        proof {
            let new_out = word_views(out@);
            let x = vs[i as int];
            if !keep {
                assert(old_out[old_out.len() - 1] == x);
                assert(old_out.contains(x));
            }
            assert forall|w: Seq<char>|
                new_out.to_set().contains(w) <==> vs.take(i as int + 1).to_set().contains(w) by {
                lemma_take_one_more_contains(vs, i as int, w);
                assert(vs.take(i as int + 1).to_set().contains(w) == vs.take(
                    i as int + 1,
                ).contains(w));
                assert(vs.take(i as int).to_set().contains(w) == vs.take(i as int).contains(w));
                assert(old_out.to_set().contains(w) == old_out.contains(w));
                assert(new_out.to_set().contains(w) == new_out.contains(w));
                assert(old_out.contains(w) <==> vs.take(i as int).contains(w));
                if keep {
                    assert(new_out =~= old_out.push(x));
                    lemma_push_contains(old_out, x, w);
                    assert(new_out.contains(w) <==> old_out.contains(w) || w == x);
                } else {
                    assert(new_out == old_out);
                }
            }
            assert(new_out.to_set() =~= vs.take(i as int + 1).to_set());
        }
        i = i + 1;
    }
    proof {
        assert(vs.take(vs.len() as int) =~= vs);
    }
    out
}

/// First index at or after which every word of the sorted list is
/// lexicographically at least `target`: the boundary the divide-and-conquer
/// build partitions at.
pub fn lower_bound(words: &Vec<String>, target: &str) -> (pos: usize)
    requires
        strictly_sorted_words(word_views(words@)),
    ensures
        pos <= words@.len(),
        forall|k: int| 0 <= k < pos ==> lex_lt(#[trigger] word_views(words@)[k], target@),
        forall|k: int|
            pos <= k < words@.len() ==> !lex_lt(#[trigger] word_views(words@)[k], target@),
{
    let ghost vs = word_views(words@);
    let mut lo: usize = 0;
    let mut hi: usize = words.len();
    while lo < hi
        invariant
            lo <= hi <= vs.len(),
            vs == word_views(words@),
            strictly_sorted_words(vs),
            forall|k: int| 0 <= k < lo ==> lex_lt(#[trigger] vs[k], target@),
            forall|k: int| hi <= k < vs.len() ==> !lex_lt(#[trigger] vs[k], target@),
        decreases hi - lo,
    {
        let mid = lo + (hi - lo) / 2;
        if str_lt(words[mid].as_str(), target) {
            proof {
                assert forall|k: int| 0 <= k < mid + 1 implies lex_lt(
                    #[trigger] vs[k],
                    target@,
                ) by {
                    if k < mid {
                        lemma_lex_lt_transitive(vs[k], vs[mid as int], target@);
                    }
                }
            }
            lo = mid + 1;
        } else {
            proof {
                assert forall|k: int| mid <= k < vs.len() implies !lex_lt(
                    #[trigger] vs[k],
                    target@,
                ) by {
                    if k > mid && lex_lt(vs[k], target@) {
                        lemma_lex_lt_transitive(vs[mid as int], vs[k], target@);
                    }
                }
            }
            hi = mid;
        }
    }
    lo
}

/// A word the nine-letter game keeps from a raw dictionary: four to nine
/// characters long.
pub open spec fn is_9p_like(w: Seq<char>) -> bool {
    4 <= w.len() <= 9
}

/// The words of the list that the nine-letter game keeps, in their original
/// order.
pub open spec fn keep_9p_like(ws: Seq<Seq<char>>) -> Seq<Seq<char>> {
    ws.filter(|w: Seq<char>| is_9p_like(w))
}

/// Keeps the words a nine-letter game can use: those of four to nine
/// characters.
pub fn filter_9p_like(words: &Vec<String>) -> (out: Vec<String>)
    ensures
        word_views(out@) == keep_9p_like(word_views(words@)),
{
    let ghost vs = word_views(words@);
    let mut out: Vec<String> = Vec::new();
    let mut i: usize = 0;
    proof {
        assert(vs.take(0) =~= Seq::<Seq<char>>::empty());
        reveal_with_fuel(Seq::filter, 2);
        assert(word_views(out@) =~= keep_9p_like(vs.take(0)));
    }
    while i < words.len()
        invariant
            i <= vs.len(),
            vs == word_views(words@),
            word_views(out@) == keep_9p_like(vs.take(i as int)),
        decreases vs.len() - i,
    {
        let ghost old_out = word_views(out@);
        let len = words[i].as_str().unicode_len();
        if 4 <= len && len <= 9 {
            out.push(words[i].clone());
        }
        proof {
            reveal_with_fuel(Seq::filter, 2);
            let taken = vs.take(i as int + 1);
            assert(taken.drop_last() =~= vs.take(i as int));
            assert(taken.last() == vs[i as int]);
            assert(word_views(out@) =~= keep_9p_like(taken));
        }
        i = i + 1;
    }
    proof {
        assert(vs.take(vs.len() as int) =~= vs);
    }
    out
}

} // verus!
