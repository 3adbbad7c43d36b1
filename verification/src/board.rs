//! The board: the puzzle's available-letter multiset. A query normalizes the
//! board by sorting its letters; the search consumes one occurrence of a
//! letter per descent, which is what enforces multiplicity.

use vstd::prelude::*;
use vstd::multiset::Multiset;
use vstd::seq_lib::group_to_multiset_ensures;

use crate::letters::is_letter;

verus! {

broadcast use vstd::set::group_set_axioms, vstd::multiset::group_multiset_axioms;

/// The pool's letters are in nondecreasing order.
pub open spec fn sorted_letters(s: Seq<char>) -> bool {
    forall|i: int, j: int| #![trigger s[i], s[j]] 0 <= i < j < s.len() ==> s[i] as u32 <= s[j] as u32
}

/// The word can be spelled from the pool: every letter is used at most as
/// many times as the pool holds it.
pub open spec fn spellable(w: Seq<char>, pool: Seq<char>) -> bool {
    w.to_multiset().subset_of(pool.to_multiset())
}

/// The empty word is spellable from any pool.
pub proof fn lemma_spellable_empty(pool: Seq<char>)
    ensures
        spellable(Seq::<char>::empty(), pool),
{
    broadcast use group_to_multiset_ensures;

    let e = Seq::<char>::empty();
    assert forall|c: char| e.to_multiset().count(c) == 0 by {
        if e.to_multiset().count(c) > 0 {
            assert(e.contains(c));
        }
    }
}

/// A spellable nonempty word draws its first letter from the pool.
pub proof fn lemma_spellable_first(w: Seq<char>, pool: Seq<char>)
    requires
        w.len() > 0,
        spellable(w, pool),
    ensures
        pool.contains(w[0]),
{
    broadcast use group_to_multiset_ensures;

    assert(w.contains(w[0]));
    assert(w.to_multiset().count(w[0]) > 0);
    assert(pool.to_multiset().count(w[0]) > 0);
}

/// Spelling a word that starts with `pool[idx]` amounts to spelling its tail
/// from the pool with that one occurrence removed.
pub proof fn lemma_spellable_drop(w: Seq<char>, pool: Seq<char>, idx: int)
    requires
        w.len() > 0,
        0 <= idx < pool.len(),
        pool[idx] == w[0],
    ensures
        spellable(w, pool) <==> spellable(w.drop_first(), pool.remove(idx)),
{
    broadcast use group_to_multiset_ensures;

    let c = w[0];
    assert(w.drop_first() =~= w.remove(0));
    assert(w.remove(0).to_multiset() =~= w.to_multiset().remove(c));
    assert(pool.remove(idx).to_multiset() =~= pool.to_multiset().remove(c));
    assert(w.contains(c));
    assert(w.to_multiset().count(c) > 0);
    assert(pool.contains(c));
    assert(pool.to_multiset().count(c) > 0);
    let wm = w.to_multiset();
    let pm = pool.to_multiset();
    if wm.subset_of(pm) {
        assert forall|d: char| wm.remove(c).count(d) <= pm.remove(c).count(d) by {
            assert(wm.count(d) <= pm.count(d));
        }
    }
    if wm.remove(c).subset_of(pm.remove(c)) {
        assert forall|d: char| wm.count(d) <= pm.count(d) by {
            assert(wm.remove(c).count(d) <= pm.remove(c).count(d));
        }
    }
}

/// Pools holding the same letter multiset spell the same words.
pub proof fn lemma_spellable_same_pool(w: Seq<char>, pool1: Seq<char>, pool2: Seq<char>)
    requires
        pool1.to_multiset() == pool2.to_multiset(),
    ensures
        spellable(w, pool1) == spellable(w, pool2),
{
}

/// The characters of a string, in order.
pub fn string_chars(s: &str) -> (v: Vec<char>)
    ensures
        v@ == s@,
{
    let len = s.unicode_len();
    let mut v: Vec<char> = Vec::new();
    let mut i: usize = 0;
    while i < len
        invariant
            i <= len,
            len == s@.len(),
            v@ == s@.take(i as int),
        decreases len - i,
    {
        v.push(s.get_char(i));
        proof {
            assert(v@ =~= s@.take(i as int + 1));
        }
        i = i + 1;
    }
    proof {
        assert(s@.take(len as int) =~= s@);
    }
    v
}

/// A copy of the pool.
pub fn copy_letters(letters: &Vec<char>) -> (out: Vec<char>)
    ensures
        out@ == letters@,
{
    let mut out: Vec<char> = Vec::new();
    let mut i: usize = 0;
    while i < letters.len()
        invariant
            i <= letters@.len(),
            out@ == letters@.take(i as int),
        decreases letters@.len() - i,
    {
        out.push(letters[i]);
        proof {
            assert(out@ =~= letters@.take(i as int + 1));
        }
        i = i + 1;
    }
    proof {
        assert(letters@.take(letters@.len() as int) =~= letters@);
    }
    out
}

/// Sorts the pool's letters into nondecreasing order by insertion, keeping
/// the multiset of letters.
pub fn sort_letters(letters: Vec<char>) -> (out: Vec<char>)
    ensures
        sorted_letters(out@),
        out@.to_multiset() == letters@.to_multiset(),
{
    broadcast use group_to_multiset_ensures;

    let ghost lv = letters@;
    let mut out: Vec<char> = Vec::new();
    let mut i: usize = 0;
    proof {
        assert(out@ =~= lv.take(0));
    }
    while i < letters.len()
        invariant
            i <= lv.len(),
            lv == letters@,
            sorted_letters(out@),
            out@.to_multiset() == lv.take(i as int).to_multiset(),
        decreases lv.len() - i,
    {
        let c = letters[i];
        let mut p: usize = 0;
        while p < out.len() && out[p] as u32 <= c as u32
            invariant
                p <= out@.len(),
                sorted_letters(out@),
                forall|k: int| 0 <= k < p ==> (#[trigger] out@[k]) as u32 <= c as u32,
            decreases out@.len() - p,
        {
            p = p + 1;
        }
        proof {
            // everything at or after the insertion point is above `c`
            assert forall|k: int| p <= k < out@.len() implies ((#[trigger] out@[k]) as u32) > (c
                as u32) by {
                if out@[p as int] as u32 <= c as u32 {
                    assert(false);
                }
            }
        }
        let ghost prev = out@;
        out.insert(p, c);
        proof {
            assert(out@ == prev.insert(p as int, c));
            assert forall|a: int, b: int|
                #![trigger out@[a], out@[b]]
                0 <= a < b < out@.len() implies out@[a] as u32 <= out@[b] as u32 by {
                assert(out@.len() == prev.len() + 1);
                if a < p && b < p {
                } else if a < p && b == p {
                } else if a < p && b > p {
                    assert(out@[b] == prev[b - 1]);
                } else if a == p && b > p {
                    assert(out@[b] == prev[b - 1]);
                } else {
                    assert(out@[a] == prev[a - 1]);
                    assert(out@[b] == prev[b - 1]);
                }
            }
            // the multiset gains exactly one `c`
            let tk = lv.take(i as int);
            tk.to_multiset_ensures();
            Seq::<char>::empty().to_multiset_ensures();
            assert(out@ =~= prev.take(p as int) + (seq![c] + prev.skip(p as int)));
            vstd::seq_lib::lemma_multiset_commutative(
                prev.take(p as int),
                seq![c] + prev.skip(p as int),
            );
            vstd::seq_lib::lemma_multiset_commutative(seq![c], prev.skip(p as int));
            vstd::seq_lib::lemma_multiset_commutative(prev.take(p as int), prev.skip(p as int));
            assert(prev =~= prev.take(p as int) + prev.skip(p as int));
            assert(seq![c] =~= Seq::<char>::empty().push(c));
            assert(Seq::<char>::empty().push(c).to_multiset() == Seq::<
                char,
            >::empty().to_multiset().insert(c));
            assert forall|d: char| Seq::<char>::empty().to_multiset().count(d) == 0 by {
                if Seq::<char>::empty().to_multiset().count(d) > 0 {
                    assert(Seq::<char>::empty().contains(d));
                }
            }
            assert(Seq::<char>::empty().to_multiset() =~= Multiset::<char>::empty());
            assert(seq![c].to_multiset() =~= Multiset::<char>::empty().insert(c));
            assert(out@.to_multiset() =~= prev.to_multiset().insert(c));
            assert(lv.take(i as int + 1) =~= tk.push(c));
            assert(tk.push(c).to_multiset() == tk.to_multiset().insert(c));
            assert(out@.to_multiset() =~= lv.take(i as int + 1).to_multiset());
        }
        i = i + 1;
    }
    proof {
        assert(lv.take(lv.len() as int) =~= lv);
    }
    out
}

/// The distinct letters of a sorted pool, each once, in order: the letters a
/// search branches on, while the pool itself keeps the multiplicities.
pub fn dedup_letters(letters: &Vec<char>) -> (out: Vec<char>)
    requires
        sorted_letters(letters@),
    ensures
        out@.no_duplicates(),
        forall|c: char| out@.contains(c) <==> letters@.contains(c),
{
    let ghost lv = letters@;
    let mut out: Vec<char> = Vec::new();
    let mut i: usize = 0;
    while i < letters.len()
        invariant
            i <= lv.len(),
            lv == letters@,
            sorted_letters(lv),
            sorted_letters(out@),
            out@.no_duplicates(),
            forall|c: char| out@.contains(c) <==> lv.take(i as int).contains(c),
            i == 0 ==> out@.len() == 0,
            i > 0 ==> out@.len() > 0 && out@.last() == lv[i as int - 1],
        decreases lv.len() - i,
    {
        let c = letters[i];
        let keep: bool = if out.len() == 0 {
            true
        } else {
            !(out[out.len() - 1] as u32 == c as u32)
        };
        let ghost prev = out@;
        if keep {
            proof {
                if prev.len() > 0 {
                    crate::letters::lemma_char_injective(prev.last(), prev.last());
                }
            }
            out.push(c);
        }
        proof {
            if keep && prev.len() > 0 {
                // `c` is strictly above the last kept letter, hence above all of them
                assert(prev.last() as u32 <= c as u32);
                if prev.last() == c {
                    assert(false);
                }
                assert forall|k: int| 0 <= k < prev.len() implies ((#[trigger] prev[k]) as u32) < (
                c as u32) by {
                    assert(prev[k] as u32 <= prev.last() as u32);
                    if prev[k] as u32 == c as u32 {
                        crate::letters::lemma_char_injective(prev[k], c);
                    }
                }
                if prev.contains(c) {
                    let k = choose|k: int| 0 <= k < prev.len() && prev[k] == c;
                    assert(false);
                }
            }
            if !keep {
                crate::letters::lemma_char_injective(prev.last(), c);
                assert(prev[prev.len() - 1] == c);
                assert(prev.contains(c));
            }
            assert forall|d: char| out@.contains(d) <==> lv.take(i as int + 1).contains(d) by {
                crate::words::lemma_take_one_more_contains(lv, i as int, d);
                if keep {
                    crate::words::lemma_push_contains(prev, c, d);
                }
            }
            if keep {
                assert(out@.no_duplicates()) by {
                    crate::words::lemma_push_contains(prev, c, c);
                    assert(forall|k: int| 0 <= k < prev.len() ==> out@[k] == prev[k]);
                    assert(out@[out@.len() - 1] == c);
                    assert forall|k1: int, k2: int|
                        0 <= k1 < k2 < out@.len() implies out@[k1] != out@[k2] by {
                        if k2 == out@.len() - 1 {
                            assert(((#[trigger] prev[k1]) as u32) < (c as u32) || prev.len()
                                == 0);
                        }
                    }
                }
            }
        }
        i = i + 1;
    }
    proof {
        assert(lv.take(lv.len() as int) =~= lv);
    }
    out
}

/// Index of one occurrence of `c` in the sorted pool, found by binary search.
pub fn find_letter(letters: &Vec<char>, c: char) -> (idx: usize)
    requires
        sorted_letters(letters@),
        letters@.contains(c),
    ensures
        idx < letters@.len(),
        letters@[idx as int] == c,
{
    let ghost lv = letters@;
    let mut lo: usize = 0;
    let mut hi: usize = letters.len();
    proof {
        let k = choose|k: int| 0 <= k < lv.len() && lv[k] == c;
    }
    while lo < hi
        invariant
            lo <= hi <= lv.len(),
            lv == letters@,
            sorted_letters(lv),
            exists|k: int| lo <= k < hi && lv[k] == c,
        decreases hi - lo,
    {
        let mid = lo + (hi - lo) / 2;
        let m = letters[mid];
        if m as u32 == c as u32 {
            proof {
                crate::letters::lemma_char_injective(m, c);
            }
            return mid;
        } else if (m as u32) < (c as u32) {
            proof {
                let k = choose|k: int| lo <= k < hi && lv[k] == c;
                if k <= mid {
                    assert(lv[k] as u32 <= lv[mid as int] as u32);
                    assert(false);
                }
            }
            lo = mid + 1;
        } else {
            proof {
                let k = choose|k: int| lo <= k < hi && lv[k] == c;
                if k >= mid {
                    assert(lv[mid as int] as u32 <= lv[k] as u32);
                    assert(false);
                }
            }
            hi = mid;
        }
    }
    proof {
        assert(false);
    }
    vstd::pervasive::unreached()
}

} // verus!
