//! The 26-way prefix trie: built from a sorted, deduplicated word list in one
//! divide-and-conquer pass, enumerated depth first, and searched under a
//! letter-multiset constraint.

use vstd::prelude::*;

use crate::board::copy_letters;
use crate::board::dedup_letters;
use crate::board::find_letter;
use crate::board::lemma_spellable_drop;
use crate::board::lemma_spellable_empty;
use crate::board::lemma_spellable_first;
use crate::board::sort_letters;
use crate::board::sorted_letters;
use crate::board::spellable;
use crate::board::string_chars;
use crate::letters::all_letters;
use crate::letters::id_to_letter;
use crate::letters::id_to_str;
use crate::letters::is_letter;
use crate::letters::lemma_char_injective;
use crate::letters::letter_index;
use crate::letters::letter_to_id;
use crate::order::lemma_lex_lt_single;
use crate::order::lex_lt;
use crate::order::strictly_sorted_words;
use crate::words::dedup_words;
use crate::words::lemma_total_chars_drop_heads;
use crate::words::lemma_total_chars_subrange;
use crate::words::lower_bound;
use crate::words::sort_word_list;
use crate::words::total_chars;
use crate::words::word_views;

verus! {

broadcast use vstd::set::group_set_axioms;

/// One trie node: an optional child per letter, and a flag that marks the
/// path from the root to this node as a complete stored word.
pub struct LetterNode {
    children: Vec<Option<LetterNode>>,
    is_terminator: bool,
}

/// A dictionary held as a prefix trie; immutable once generated.
pub struct WordTree {
    root: LetterNode,
}

/// Structural soundness of a node: exactly one child slot per letter, at
/// every depth.
pub closed spec fn node_wf(n: LetterNode) -> bool
    decreases n,
{
    &&& n.children@.len() == 26
    &&& forall|i: int|
        0 <= i < 26 ==> (#[trigger] n.children@[i] matches Some(c) ==> node_wf(c))
}

/// The word `w` is stored in the subtree rooted at `n`: its letters name a
/// chain of present children and the final node is a terminator.
pub closed spec fn node_contains(n: LetterNode, w: Seq<char>) -> bool
    decreases w.len(),
{
    if w.len() == 0 {
        n.is_terminator
    } else {
        &&& is_letter(w[0])
        &&& 0 <= letter_index(w[0]) < n.children@.len()
        &&& n.children@[letter_index(w[0])] matches Some(c) && node_contains(c, w.drop_first())
    }
}

impl LetterNode {
    /// Structural soundness of this node and every node below it.
    pub closed spec fn wf(self) -> bool {
        node_wf(self)
    }

    /// The set of words stored in the subtree rooted at this node.
    pub closed spec fn words(self) -> Set<Seq<char>> {
        Set::new(|w: Seq<char>| node_contains(self, w))
    }
}

impl Default for LetterNode {
    /// A leaf that stores nothing: no children, not a terminator.
    fn default() -> (n: Self)
        ensures
            n.wf(),
            n.words() == Set::<Seq<char>>::empty(),
    {
        let mut children: Vec<Option<LetterNode>> = Vec::new();
        let mut i: usize = 0;
        while i < 26
            invariant
                i <= 26,
                children@.len() == i,
                forall|k: int| 0 <= k < i ==> children@[k] is None,
            decreases 26 - i,
        {
            children.push(None);
            i = i + 1;
        }
        let n = LetterNode { children, is_terminator: false };
        proof {
            assert forall|w: Seq<char>| !node_contains(n, w) by {
                if w.len() > 0 && is_letter(w[0]) {
                    assert(n.children@[letter_index(w[0])] is None);
                }
            }
            assert(n.words() =~= Set::<Seq<char>>::empty());
        }
        n
    }
}

impl LetterNode {
    /// Builds the unique trie holding exactly the given words, which must be
    /// strictly sorted (so also free of duplicates). One call builds one
    /// node: the leading letters partition the list into the child ranges,
    /// found by binary search from 'z' down to 'a'.
    pub fn new(remaining_words: Vec<String>) -> (node: LetterNode)
        requires
            strictly_sorted_words(word_views(remaining_words@)),
            forall|k: int|
                0 <= k < remaining_words@.len() ==> all_letters(
                    #[trigger] word_views(remaining_words@)[k],
                ),
        ensures
            node.wf(),
            forall|w: Seq<char>|
                node.words().contains(w) <==> word_views(remaining_words@).contains(w),
        decreases total_chars(word_views(remaining_words@)),
    {
        let ghost ws = word_views(remaining_words@);
        let n = remaining_words.len();
        let is_terminator = n > 0 && remaining_words[0].as_str().is_empty();
        proof {
            // the empty word can only sit at index 0 of a strictly sorted list
            assert forall|k: int| 0 < k < n implies ws[k].len() > 0 by {
                if ws[k].len() == 0 {
                    assert(lex_lt(ws[0], ws[k]));
                }
            }
        }
        let mut children: Vec<Option<LetterNode>> = Vec::new();
        let mut j: usize = 0;
        while j < 26
            invariant
                j <= 26,
                children@.len() == j,
                forall|k: int| 0 <= k < j ==> children@[k] is None,
            decreases 26 - j,
        {
            children.push(None);
            j = j + 1;
        }
        let mut end: usize = n;
        if n > 0 && remaining_words[n - 1].as_str().is_empty() {
            end = n - 1;
            proof {
                if n > 1 {
                    assert(lex_lt(ws[0], ws[n - 1]));
                    assert(false);
                }
            }
        }
        let mut i: usize = 26;
        while i > 0
            invariant
                i <= 26,
                end <= n,
                n == remaining_words@.len(),
                ws == word_views(remaining_words@),
                strictly_sorted_words(ws),
                forall|k: int| 0 <= k < n ==> all_letters(#[trigger] ws[k]),
                children@.len() == 26,
                // every unprocessed word's first letter is below the letters already processed
                forall|k: int|
                    0 <= k < end ==> (#[trigger] ws[k]).len() > 0 ==> letter_index(ws[k][0])
                        < i,
                // the words above `end` all begin with letters already processed
                forall|k: int|
                    end <= k < n ==> (#[trigger] ws[k]).len() > 0 ==> letter_index(ws[k][0])
                        >= i,
                // letters not yet reached have no child
                forall|k: int| 0 <= k < i ==> children@[k] is None,
                // an absent child among the processed letters means no word starts there
                forall|j2: int|
                    i <= j2 < 26 && children@[j2] is None ==> forall|k: int|
                        0 <= k < n ==> (#[trigger] ws[k]).len() > 0 ==> letter_index(ws[k][0])
                            != j2,
                // a present child holds exactly the tails of the words starting with its letter
                forall|j2: int|
                    i <= j2 < 26 ==> (#[trigger] children@[j2] matches Some(ch) ==> ch.wf()
                        && forall|u: Seq<char>|
                        ch.words().contains(u) <==> exists|k: int|
                            0 <= k < n && (#[trigger] ws[k]).len() > 0 && letter_index(ws[k][0])
                                == j2 && ws[k].drop_first() == u),
            decreases i,
        {
            i = i - 1;
            let c = id_to_letter(i);
            let target = id_to_str(i);
            proof {
                lemma_char_injective(target@[0], c);
            }
            let start = lower_bound(&remaining_words, target);
            proof {
                // a word at or after `start` is not below the one-letter word of `c`,
                // so it is nonempty and starts at or above `c`
                assert forall|k: int| start <= k < n implies ws[k].len() > 0 && (ws[k][0] as u32)
                    >= (c as u32) by {
                    lemma_lex_lt_single(ws[k], c);
                    assert(target@ =~= seq![c]);
                }
                // a word below `start` is empty or starts strictly below `c`
                assert forall|k: int| 0 <= k < start implies ws[k].len() == 0 || ((ws[k][0] as u32)
                    < (c as u32)) by {
                    lemma_lex_lt_single(ws[k], c);
                    assert(target@ =~= seq![c]);
                }
            }
            if start < end {
                proof {
                    // every word in the child range begins with exactly `c`
                    assert forall|k: int| start <= k < end implies ws[k].len() > 0 && ws[k][0]
                        == c by {
                        assert(letter_index(ws[k][0]) < i + 1);
                        lemma_char_injective(ws[k][0], c);
                    }
                }
                let ghost block = ws.subrange(start as int, end as int);
                let mut dequed: Vec<String> = Vec::new();
                let mut k = start;
                while k < end
                    invariant
                        start <= k <= end <= n,
                        n == remaining_words@.len(),
                        ws == word_views(remaining_words@),
                        forall|k2: int|
                            start <= k2 < end ==> (#[trigger] ws[k2]).len() > 0 && ws[k2][0] == c,
                        dequed@.len() == k - start,
                        forall|j2: int|
                            0 <= j2 < k - start ==> word_views(dequed@)[j2] == ws[
                                start + j2
                            ].drop_first(),
                    decreases end - k,
                {
                    let ghost prev = word_views(dequed@);
                    let s = &remaining_words[k];
                    proof {
                        assert(s@ == ws[k as int]);
                    }
                    let s_len = s.as_str().unicode_len();
                    let tail = s.as_str().substring_char(1, s_len);
                    proof {
                        assert(tail@ =~= ws[k as int].drop_first());
                    }
                    dequed.push(tail.to_owned());
                    proof {
                        assert(word_views(dequed@) =~= prev.push(ws[k as int].drop_first()));
                    }
                    k = k + 1;
                }
                let ghost dvs = word_views(dequed@);
                proof {
                    assert(dvs =~= block.map_values(|w: Seq<char>| w.drop_first()));
                    // the child's list is strictly sorted: the words of the block share
                    // their first letter, so the strict order passes to the tails
                    assert forall|a: int, b: int|
                        #![trigger dvs[a], dvs[b]]
                        0 <= a < b < dvs.len() implies lex_lt(dvs[a], dvs[b]) by {
                        assert(lex_lt(ws[start + a], ws[start + b]));
                    }
                    assert forall|k2: int| 0 <= k2 < dvs.len() implies all_letters(
                        #[trigger] dvs[k2],
                    ) by {
                        assert(all_letters(ws[start + k2]));
                        assert forall|m: int| 0 <= m < dvs[k2].len() implies is_letter(
                            #[trigger] dvs[k2][m],
                        ) by {
                            assert(dvs[k2][m] == ws[start + k2][m + 1]);
                        }
                    }
                    // the measure shrinks: the block loses one character per word
                    lemma_total_chars_subrange(ws, start as int, end as int);
                    lemma_total_chars_drop_heads(block);
                }
                let child = LetterNode::new(dequed);
                children[i] = Some(child);
                proof {
                    // the tails of the block are exactly the tails of all words that
                    // start with `c` anywhere in the list
                    assert forall|u: Seq<char>| child.words().contains(u) <==> exists|k2: int|
                        0 <= k2 < n && (#[trigger] ws[k2]).len() > 0 && letter_index(ws[k2][0])
                            == i && ws[k2].drop_first() == u by {
                        if child.words().contains(u) {
                            assert(dvs.contains(u));
                            let j2 = choose|j2: int| 0 <= j2 < dvs.len() && dvs[j2] == u;
                            assert(ws[start + j2].len() > 0 && letter_index(ws[start + j2][0])
                                == i && ws[start + j2].drop_first() == u);
                        }
                        if exists|k2: int|
                            0 <= k2 < n && (#[trigger] ws[k2]).len() > 0 && letter_index(ws[k2][0])
                                == i && ws[k2].drop_first() == u {
                            let k2 = choose|k2: int|
                                0 <= k2 < n && (#[trigger] ws[k2]).len() > 0 && letter_index(
                                    ws[k2][0],
                                ) == i && ws[k2].drop_first() == u;
                            // such a word can only sit inside the block
                            assert(ws[k2][0] as u32 == c as u32);
                            lemma_char_injective(ws[k2][0], c);
                            assert(k2 >= start);
                            assert(k2 < end);
                            assert(dvs[k2 - start] == u);
                            assert(dvs.contains(u));
                        }
                    }
                }
                end = start;
            }
        }
        let node = LetterNode { children, is_terminator };
        proof {
            assert(node.wf());
            assert forall|w: Seq<char>| node.words().contains(w) <==> ws.contains(w) by {
                if w.len() == 0 {
                    if node_contains(node, w) {
                        assert(ws[0] =~= w);
                        assert(ws.contains(w));
                    }
                    if ws.contains(w) {
                        let k = choose|k: int| 0 <= k < ws.len() && ws[k] == w;
                        assert(k == 0);
                        assert(is_terminator);
                    }
                } else {
                    if !is_letter(w[0]) {
                        if ws.contains(w) {
                            let k = choose|k: int| 0 <= k < ws.len() && ws[k] == w;
                            assert(is_letter(w[0]));
                        }
                        assert(!node_contains(node, w));
                    } else {
                        let j2 = letter_index(w[0]);
                        if node.children@[j2] is Some {
                            let ch = node.children@[j2].unwrap();
                            if node_contains(node, w) {
                                assert(ch.words().contains(w.drop_first()));
                                let k = choose|k: int|
                                    0 <= k < n && (#[trigger] ws[k]).len() > 0 && letter_index(
                                        ws[k][0],
                                    ) == j2 && ws[k].drop_first() == w.drop_first();
                                lemma_char_injective(ws[k][0], w[0]);
                                assert(ws[k].drop_first() == w.drop_first());
                                assert(ws[k].len() == w.len());
                                assert forall|m: int| 0 <= m < w.len() implies ws[k][m]
                                    == w[m] by {
                                    if m > 0 {
                                        assert(ws[k][m] == ws[k].drop_first()[m - 1]);
                                        assert(w[m] == w.drop_first()[m - 1]);
                                    }
                                }
                                assert(ws[k] =~= w);
                                assert(ws.contains(w));
                            }
                            if ws.contains(w) {
                                let k = choose|k: int| 0 <= k < ws.len() && ws[k] == w;
                                assert(ch.words().contains(w.drop_first()));
                                assert(node_contains(node, w));
                            }
                        } else {
                            if ws.contains(w) {
                                let k = choose|k: int| 0 <= k < ws.len() && ws[k] == w;
                                assert(letter_index(ws[k][0]) != j2);
                            }
                            assert(!node_contains(node, w));
                        }
                    }
                }
            }
        }
        node
    }

    /// The path to this node spells a complete stored word.
    fn is_terminator(&self) -> (r: bool)
        ensures
            r == self.is_terminator,
    {
        self.is_terminator
    }
}

/// Appending to a shared prefix is injective: equal results mean equal tails.
pub proof fn lemma_concat_cancel(p: Seq<char>, a: Seq<char>, b: Seq<char>)
    requires
        p + a == p + b,
    ensures
        a == b,
{
    assert((p + a).len() == p.len() + a.len());
    assert((p + b).len() == p.len() + b.len());
    assert(a.len() == b.len());
    assert forall|m: int| 0 <= m < a.len() implies a[m] == b[m] by {
        assert((p + a)[p.len() + m] == a[m]);
        assert((p + b)[p.len() + m] == b[m]);
    }
    assert(a =~= b);
}

/// The string `s` extends `prefix` by some stored word of `node`.
#[verifier::opaque]
pub open spec fn emitted_entry(node: LetterNode, prefix: Seq<char>, s: String) -> bool {
    exists|w: Seq<char>| #[trigger] node_contains(node, w) && s@ == prefix + w
}

/// The string `s` extends `prefix` by a stored word whose first letter index
/// is below `bound`.
#[verifier::opaque]
pub open spec fn listed_entry_below(
    node: LetterNode,
    prefix: Seq<char>,
    bound: int,
    s: String,
) -> bool {
    exists|w: Seq<char>|
        #[trigger] node_contains(node, w) && w.len() > 0 && letter_index(w[0]) < bound && s@
            == prefix + w
}

/// Every entry of `rs` from `base` on extends `prefix` by a stored word.
#[verifier::opaque]
pub open spec fn emitted_sound(
    node: LetterNode,
    prefix: Seq<char>,
    base: int,
    rs: Seq<String>,
) -> bool {
    forall|k: int|
        #![trigger rs[k]]
        base <= k < rs.len() ==> emitted_entry(node, prefix, rs[k])
}

/// Every stored word, extended behind `prefix`, appears among the entries of
/// `rs` from `base` on.
#[verifier::opaque]
pub open spec fn emitted_complete(
    node: LetterNode,
    prefix: Seq<char>,
    base: int,
    rs: Seq<String>,
) -> bool {
    forall|w: Seq<char>|
        #[trigger] node_contains(node, w) ==> exists|k: int|
            base <= k < rs.len() && (#[trigger] rs[k])@ == prefix + w
}

/// The entries of `rs` from `base` on are pairwise distinct words.
#[verifier::opaque]
pub open spec fn listed_distinct(base: int, rs: Seq<String>) -> bool {
    forall|k1: int, k2: int|
        #![trigger rs[k1], rs[k2]]
        base <= k1 < k2 < rs.len() ==> (rs[k1])@ != (rs[k2])@
}

/// Soundness of a partial enumeration: entries so far stand for stored words
/// whose first letter index is below `bound`.
#[verifier::opaque]
pub open spec fn listed_sound_below(
    node: LetterNode,
    prefix: Seq<char>,
    bound: int,
    base: int,
    rs: Seq<String>,
) -> bool {
    forall|k: int|
        #![trigger rs[k]]
        base <= k < rs.len() ==> listed_entry_below(node, prefix, bound, rs[k])
}

/// Completeness of a partial enumeration: every stored word whose first
/// letter index is below `bound` has its entry already.
#[verifier::opaque]
pub open spec fn listed_complete_below(
    node: LetterNode,
    prefix: Seq<char>,
    bound: int,
    base: int,
    rs: Seq<String>,
) -> bool {
    forall|w: Seq<char>|
        #[trigger] node_contains(node, w) && w.len() > 0 && letter_index(w[0]) < bound
            ==> exists|k: int| base <= k < rs.len() && (#[trigger] rs[k])@ == prefix + w
}

/// Lifting a stored tail up through the `c` branch.
#[verifier::rlimit(100)]
proof fn lemma_child_word_up(node: LetterNode, child: LetterNode, i: int, c: char, u: Seq<char>)
    requires
        0 <= i < 26,
        node.children@.len() == 26,
        node.children@[i] == Some(child),
        is_letter(c),
        letter_index(c) == i,
        node_contains(child, u),
    ensures
        node_contains(node, seq![c] + u),
{
    let w = seq![c] + u;
    assert(w[0] == c);
    assert(w.len() > 0);
    assert(w.drop_first() =~= u);
}

/// Splitting a stored word on the branch of its first letter.
#[verifier::rlimit(100)]
proof fn lemma_child_word_down(node: LetterNode, child: LetterNode, i: int, c: char, w: Seq<char>)
    requires
        0 <= i < 26,
        node.children@.len() == 26,
        node.children@[i] == Some(child),
        is_letter(c),
        letter_index(c) == i,
        node_contains(node, w),
        w.len() > 0,
        letter_index(w[0]) == i,
    ensures
        w[0] == c,
        node_contains(child, w.drop_first()),
        seq![c] + w.drop_first() == w,
{
    lemma_char_injective(w[0], c);
    assert(seq![c] + w.drop_first() =~= w);
}

/// One enumeration step, soundness: the entries a child appended stand for
/// stored words of this node beginning with the child's letter.
#[verifier::rlimit(100)]
#[verifier::spinoff_prover]
proof fn lemma_gw_step_sound(
    node: LetterNode,
    child: LetterNode,
    i: int,
    c: char,
    ww: Seq<char>,
    base: int,
    before: Seq<String>,
    after: Seq<String>,
)
    requires
        0 <= i < 26,
        node.children@.len() == 26,
        node.children@[i] == Some(child),
        is_letter(c),
        letter_index(c) == i,
        0 <= base <= before.len() <= after.len(),
        forall|k: int| 0 <= k < before.len() ==> after[k] == before[k],
        emitted_sound(child, ww + seq![c], before.len() as int, after),
        listed_sound_below(node, ww, i, base, before),
    ensures
        listed_sound_below(node, ww, i + 1, base, after),
{
    reveal(emitted_sound);
    reveal(emitted_entry);
    reveal(listed_sound_below);
    reveal(listed_entry_below);
    let mid = before.len() as int;
    assert forall|k: int|
        #![trigger after[k]]
        base <= k < after.len() implies listed_entry_below(node, ww, i + 1, after[k]) by {
        if k < mid {
            assert(after[k] == before[k]);
            let w = choose|w: Seq<char>|
                #[trigger] node_contains(node, w) && w.len() > 0 && letter_index(w[0]) < i && (
                before[k])@ == ww + w;
            assert(node_contains(node, w) && w.len() > 0 && letter_index(w[0]) < i + 1 && (
            after[k])@ == ww + w);
        } else {
            let u = choose|u: Seq<char>|
                #[trigger] node_contains(child, u) && (after[k])@ == (ww + seq![c]) + u;
            lemma_child_word_up(node, child, i, c, u);
            let w = seq![c] + u;
            assert((ww + seq![c]) + u =~= ww + (seq![c] + u));
            assert(node_contains(node, w) && w.len() > 0 && letter_index(w[0]) < i + 1 && (
            after[k])@ == ww + w);
        }
    }
}

/// One enumeration step, completeness: every stored word beginning with the
/// child's letter now has its entry.
#[verifier::rlimit(100)]
#[verifier::spinoff_prover]
proof fn lemma_gw_step_complete(
    node: LetterNode,
    child: LetterNode,
    i: int,
    c: char,
    ww: Seq<char>,
    base: int,
    before: Seq<String>,
    after: Seq<String>,
)
    requires
        0 <= i < 26,
        node.children@.len() == 26,
        node.children@[i] == Some(child),
        is_letter(c),
        letter_index(c) == i,
        0 <= base <= before.len() <= after.len(),
        forall|k: int| 0 <= k < before.len() ==> after[k] == before[k],
        emitted_complete(child, ww + seq![c], before.len() as int, after),
        listed_complete_below(node, ww, i, base, before),
    ensures
        listed_complete_below(node, ww, i + 1, base, after),
{
    reveal(emitted_complete);
    reveal(listed_complete_below);
    let mid = before.len() as int;
    assert forall|w: Seq<char>|
        #[trigger] node_contains(node, w) && w.len() > 0 && letter_index(w[0]) < i + 1 implies
        exists|k: int| base <= k < after.len() && (#[trigger] after[k])@ == ww + w by {
        if letter_index(w[0]) < i {
            let k = choose|k: int| base <= k < mid && (#[trigger] before[k])@ == ww + w;
            assert(after[k] == before[k]);
            assert((after[k])@ == ww + w);
        } else {
            lemma_child_word_down(node, child, i, c, w);
            let k = choose|k: int|
                mid <= k < after.len() && (#[trigger] after[k])@ == (ww + seq![c])
                    + w.drop_first();
            assert((ww + seq![c]) + w.drop_first() =~= ww + (seq![c] + w.drop_first()));
            assert((after[k])@ == ww + w);
        }
    }
}

/// One enumeration step, distinctness: a child's entries begin with its own
/// letter, so they cannot repeat an earlier entry.
#[verifier::rlimit(100)]
#[verifier::spinoff_prover]
proof fn lemma_gw_step_distinct(
    node: LetterNode,
    child: LetterNode,
    i: int,
    c: char,
    ww: Seq<char>,
    base: int,
    before: Seq<String>,
    after: Seq<String>,
)
    requires
        0 <= i < 26,
        is_letter(c),
        letter_index(c) == i,
        0 <= base <= before.len() <= after.len(),
        forall|k: int| 0 <= k < before.len() ==> after[k] == before[k],
        emitted_sound(child, ww + seq![c], before.len() as int, after),
        listed_distinct(before.len() as int, after),
        listed_sound_below(node, ww, i, base, before),
        listed_distinct(base, before),
    ensures
        listed_distinct(base, after),
{
    reveal(emitted_sound);
    reveal(emitted_entry);
    reveal(listed_sound_below);
    reveal(listed_entry_below);
    reveal(listed_distinct);
    let mid = before.len() as int;
    assert forall|k1: int, k2: int|
        #![trigger after[k1], after[k2]]
        base <= k1 < k2 < after.len() implies (after[k1])@ != (after[k2])@ by {
        if k2 < mid {
            assert(after[k1] == before[k1]);
            assert(after[k2] == before[k2]);
        } else if k1 >= mid {
        } else {
            assert(after[k1] == before[k1]);
            let w1 = choose|w: Seq<char>|
                #[trigger] node_contains(node, w) && w.len() > 0 && letter_index(w[0]) < i && (
                before[k1])@ == ww + w;
            let u2 = choose|u: Seq<char>|
                #[trigger] node_contains(child, u) && (after[k2])@ == (ww + seq![c]) + u;
            if (after[k1])@ == (after[k2])@ {
                assert((ww + seq![c]) + u2 =~= ww + (seq![c] + u2));
                assert(ww + w1 == ww + (seq![c] + u2));
                lemma_concat_cancel(ww, w1, seq![c] + u2);
                assert(w1[0] == c);
                assert(false);
            }
        }
    }
}

/// A letter without a child stores no word, so skipping it advances the
/// partial enumeration clauses for free.
#[verifier::rlimit(100)]
#[verifier::spinoff_prover]
proof fn lemma_gw_skip(node: LetterNode, i: int, ww: Seq<char>, base: int, rs: Seq<String>)
    requires
        0 <= i < 26,
        node.children@.len() == 26,
        node.children@[i] is None,
        0 <= base,
        listed_sound_below(node, ww, i, base, rs),
        listed_complete_below(node, ww, i, base, rs),
    ensures
        listed_sound_below(node, ww, i + 1, base, rs),
        listed_complete_below(node, ww, i + 1, base, rs),
{
    reveal(emitted_sound);
    reveal(emitted_complete);
    reveal(listed_distinct);
    reveal(listed_sound_below);
    reveal(listed_complete_below);
    reveal(found_sound);
    reveal(found_complete);
    reveal(search_sound);
    reveal(search_complete);
    reveal(listed_entry_below);
    assert forall|k: int|
        #![trigger rs[k]]
        base <= k < rs.len() implies listed_entry_below(node, ww, i + 1, rs[k]) by {
        let w = choose|w: Seq<char>|
            #[trigger] node_contains(node, w) && w.len() > 0 && letter_index(w[0]) < i && (rs[k])@
                == ww + w;
        assert(node_contains(node, w) && w.len() > 0 && letter_index(w[0]) < i + 1 && (rs[k])@ == ww
            + w);
    }
    assert forall|w: Seq<char>|
        #[trigger] node_contains(node, w) && w.len() > 0 && letter_index(w[0]) < i + 1 implies
        exists|k: int| base <= k < rs.len() && (#[trigger] rs[k])@ == ww + w by {
        if letter_index(w[0]) == i {
            assert(node.children@[letter_index(w[0])] is None);
            assert(false);
        }
    }
    assert(listed_sound_below(node, ww, i + 1, base, rs));
    assert(listed_complete_below(node, ww, i + 1, base, rs));
}

/// Closing an enumeration, soundness: with all 26 letters done and the
/// node's own word pushed last if it is a terminator, every entry stands for
/// a stored word.
#[verifier::rlimit(100)]
#[verifier::spinoff_prover]
proof fn lemma_gw_finish_sound(
    node: LetterNode,
    ww: Seq<char>,
    base: int,
    before: Seq<String>,
    after: Seq<String>,
)
    requires
        0 <= base <= before.len(),
        listed_sound_below(node, ww, 26, base, before),
        node.is_terminator ==> after.len() == before.len() + 1 && (after[before.len() as int])@
            == ww && forall|k: int| 0 <= k < before.len() ==> after[k] == before[k],
        !node.is_terminator ==> after == before,
    ensures
        emitted_sound(node, ww, base, after),
        after.len() >= before.len(),
{
    reveal(emitted_sound);
    reveal(emitted_entry);
    reveal(listed_sound_below);
    reveal(listed_entry_below);
    let e = Seq::<char>::empty();
    assert(ww + e =~= ww);
    assert forall|k: int|
        #![trigger after[k]]
        base <= k < after.len() implies emitted_entry(node, ww, after[k]) by {
        if k < before.len() {
            let w = choose|w: Seq<char>|
                #[trigger] node_contains(node, w) && w.len() > 0 && letter_index(w[0]) < 26 && (
                before[k])@ == ww + w;
            assert(after[k] == before[k]);
            assert(node_contains(node, w) && (after[k])@ == ww + w);
        } else {
            assert(node.is_terminator);
            assert(node_contains(node, e) && (after[k])@ == ww + e);
        }
    }
}

/// Closing an enumeration, completeness: every stored word has its entry.
#[verifier::rlimit(100)]
#[verifier::spinoff_prover]
proof fn lemma_gw_finish_complete(
    node: LetterNode,
    ww: Seq<char>,
    base: int,
    before: Seq<String>,
    after: Seq<String>,
)
    requires
        node.children@.len() == 26,
        0 <= base <= before.len(),
        listed_complete_below(node, ww, 26, base, before),
        node.is_terminator ==> after.len() == before.len() + 1 && (after[before.len() as int])@
            == ww && forall|k: int| 0 <= k < before.len() ==> after[k] == before[k],
        !node.is_terminator ==> after == before,
    ensures
        emitted_complete(node, ww, base, after),
{
    reveal(emitted_complete);
    reveal(listed_complete_below);
    let e = Seq::<char>::empty();
    assert(ww + e =~= ww);
    assert forall|w: Seq<char>| #[trigger] node_contains(node, w) implies exists|k: int|
        base <= k < after.len() && (#[trigger] after[k])@ == ww + w by {
        if w.len() > 0 {
            assert(is_letter(w[0]));
            assert(letter_index(w[0]) < 26);
            let k = choose|k: int| base <= k < before.len() && (#[trigger] before[k])@ == ww + w;
            assert(after[k] == before[k]);
            assert((after[k])@ == ww + w);
        } else {
            assert(w =~= e);
            assert(node.is_terminator);
            assert((after[before.len() as int])@ == ww + w);
        }
    }
}

/// Closing an enumeration, distinctness: the terminator entry is the bare
/// prefix, shorter than any entry a child appended.
#[verifier::rlimit(100)]
#[verifier::spinoff_prover]
proof fn lemma_gw_finish_distinct(
    node: LetterNode,
    ww: Seq<char>,
    base: int,
    before: Seq<String>,
    after: Seq<String>,
)
    requires
        0 <= base <= before.len(),
        listed_sound_below(node, ww, 26, base, before),
        listed_distinct(base, before),
        node.is_terminator ==> after.len() == before.len() + 1 && (after[before.len() as int])@
            == ww && forall|k: int| 0 <= k < before.len() ==> after[k] == before[k],
        !node.is_terminator ==> after == before,
    ensures
        listed_distinct(base, after),
{
    reveal(listed_sound_below);
    reveal(listed_entry_below);
    reveal(listed_distinct);
    assert forall|k1: int, k2: int|
        #![trigger after[k1], after[k2]]
        base <= k1 < k2 < after.len() implies (after[k1])@ != (after[k2])@ by {
        if k2 >= before.len() {
            let w1 = choose|w: Seq<char>|
                #[trigger] node_contains(node, w) && w.len() > 0 && letter_index(w[0]) < 26 && (
                before[k1])@ == ww + w;
            assert(after[k1] == before[k1]);
            assert((after[k1])@.len() == ww.len() + w1.len());
            assert((after[k2])@.len() == ww.len());
        } else {
            assert(after[k1] == before[k1]);
            assert(after[k2] == before[k2]);
        }
    }
}

impl LetterNode {
    /// Depth-first enumeration: descends into the children in ascending
    /// letter order, then records the node's own word last if it is a
    /// terminator. Every stored word, extended behind `working_word`, is
    /// appended to `results` exactly once.
    pub fn get_words(&self, working_word: String, results: &mut Vec<String>)
        requires
            self.wf(),
        ensures
            final (results)@.len() >= old(results)@.len(),
            forall|k: int|
                0 <= k < old(results)@.len() ==> final (results)@[k] == old(results)@[k],
            emitted_sound(*self, working_word@, old(results)@.len() as int, final (results)@),
            emitted_complete(*self, working_word@, old(results)@.len() as int, final (results)@),
            listed_distinct(old(results)@.len() as int, final (results)@),
        decreases *self,
    {
        let ghost ww = working_word@;
        let ghost base = results@.len() as int;
        proof {
            reveal(listed_sound_below);
            reveal(listed_complete_below);
            reveal(listed_distinct);
            assert(listed_sound_below(*self, ww, 0, base, results@));
            assert(listed_complete_below(*self, ww, 0, base, results@));
            assert(listed_distinct(base, results@));
        }
        let mut i: usize = 0;
        while i < 26
            invariant
                i <= 26,
                self.wf(),
                working_word@ == ww,
                base == old(results)@.len(),
                results@.len() >= old(results)@.len(),
                forall|k: int| 0 <= k < old(results)@.len() ==> results@[k] == old(results)@[k],
                listed_sound_below(*self, ww, i as int, base, results@),
                listed_complete_below(*self, ww, i as int, base, results@),
                listed_distinct(base, results@),
            decreases 26 - i,
        {
            proof {
                assert(node_wf(*self));
            }
            if let Some(child) = &self.children[i] {
                proof {
                    assert(self.children@[i as int] is Some);
                    assert(node_wf(*child));
                }
                let mut next_word = working_word.clone();
                let lstr = id_to_str(i);
                next_word.append(lstr);
                let ghost c = lstr@[0];
                let ghost res_before = results@;
                proof {
                    assert(lstr@ =~= seq![c]);
                    assert(next_word@ == ww + seq![c]);
                    assert(decreases_to!(*self => *child));
                }
                child.get_words(next_word, results);
                proof {
                    assert(self.children@[i as int] == Some(*child));
                    lemma_gw_step_sound(*self, *child, i as int, c, ww, base, res_before, results@);
                    lemma_gw_step_complete(*self, *child, i as int, c, ww, base, res_before, results@);
                    lemma_gw_step_distinct(*self, *child, i as int, c, ww, base, res_before, results@);
                }
            } else {
                proof {
                    assert(self.children@[i as int] is None);
                    lemma_gw_skip(*self, i as int, ww, base, results@);
                }
            }
            i = i + 1;
        }
        let ghost res_loop = results@;
        if self.is_terminator() {
            results.push(working_word);
        }
        proof {
            lemma_gw_finish_sound(*self, ww, base, res_loop, results@);
            lemma_gw_finish_complete(*self, ww, base, res_loop, results@);
            lemma_gw_finish_distinct(*self, ww, base, res_loop, results@);
        }
    }
}

/// The string `s` extends `prefix` by a stored word the pool can spell.
#[verifier::opaque]
pub open spec fn found_entry(node: LetterNode, prefix: Seq<char>, pool: Seq<char>, s: String) -> bool {
    exists|w: Seq<char>|
        #[trigger] node_contains(node, w) && spellable(w, pool) && s@ == prefix + w
}

/// The string `s` extends `prefix` by a spellable stored word whose first
/// letter is among the first `jb` distinct letters of the pool.
#[verifier::opaque]
pub open spec fn search_entry(
    node: LetterNode,
    prefix: Seq<char>,
    pool: Seq<char>,
    thin: Seq<char>,
    jb: int,
    s: String,
) -> bool {
    exists|w: Seq<char>|
        #[trigger] node_contains(node, w) && spellable(w, pool) && w.len() > 0 && (exists|j2: int|
            0 <= j2 < jb && w[0] == thin[j2]) && s@ == prefix + w
}

/// Every entry of `rs` from `base` on extends `prefix` by a stored word that
/// the pool can spell.
#[verifier::opaque]
pub open spec fn found_sound(
    node: LetterNode,
    prefix: Seq<char>,
    pool: Seq<char>,
    base: int,
    rs: Seq<String>,
) -> bool {
    forall|k: int|
        #![trigger rs[k]]
        base <= k < rs.len() ==> found_entry(node, prefix, pool, rs[k])
}

/// Every stored word the pool can spell, extended behind `prefix`, appears
/// among the entries of `rs` from `base` on.
#[verifier::opaque]
pub open spec fn found_complete(
    node: LetterNode,
    prefix: Seq<char>,
    pool: Seq<char>,
    base: int,
    rs: Seq<String>,
) -> bool {
    forall|w: Seq<char>|
        #[trigger] node_contains(node, w) && spellable(w, pool) ==> exists|k: int|
            base <= k < rs.len() && (#[trigger] rs[k])@ == prefix + w
}

/// Soundness of a partial search: entries so far stand for spellable stored
/// words whose first letter is among the first `jb` distinct letters.
#[verifier::opaque]
pub open spec fn search_sound(
    node: LetterNode,
    prefix: Seq<char>,
    pool: Seq<char>,
    thin: Seq<char>,
    jb: int,
    base: int,
    rs: Seq<String>,
) -> bool {
    forall|k: int|
        #![trigger rs[k]]
        base <= k < rs.len() ==> search_entry(node, prefix, pool, thin, jb, rs[k])
}

/// Completeness of a partial search over the first `jb` distinct letters.
#[verifier::opaque]
pub open spec fn search_complete(
    node: LetterNode,
    prefix: Seq<char>,
    pool: Seq<char>,
    thin: Seq<char>,
    jb: int,
    base: int,
    rs: Seq<String>,
) -> bool {
    forall|w: Seq<char>|
        #[trigger] node_contains(node, w) && spellable(w, pool) && w.len() > 0 && (exists|j2: int|
            0 <= j2 < jb && w[0] == thin[j2]) ==> exists|k: int|
            base <= k < rs.len() && (#[trigger] rs[k])@ == prefix + w
}

/// One search step, soundness: the child's entries stand for spellable
/// stored words beginning with the distinct letter `thin[j]`.
#[verifier::rlimit(100)]
#[verifier::spinoff_prover]
proof fn lemma_solve_step_sound(
    node: LetterNode,
    child: LetterNode,
    id: int,
    c: char,
    cw: Seq<char>,
    pool: Seq<char>,
    idx: int,
    thin: Seq<char>,
    j: int,
    base: int,
    before: Seq<String>,
    after: Seq<String>,
)
    requires
        0 <= id < 26,
        node.children@.len() == 26,
        node.children@[id] == Some(child),
        is_letter(c),
        letter_index(c) == id,
        0 <= idx < pool.len(),
        pool[idx] == c,
        0 <= j < thin.len(),
        thin[j] == c,
        0 <= base <= before.len() <= after.len(),
        forall|k: int| 0 <= k < before.len() ==> after[k] == before[k],
        found_sound(child, cw + seq![c], pool.remove(idx), before.len() as int, after),
        search_sound(node, cw, pool, thin, j, base, before),
    ensures
        search_sound(node, cw, pool, thin, j + 1, base, after),
{
    reveal(found_sound);
    reveal(found_entry);
    reveal(search_sound);
    reveal(search_entry);
    let mid = before.len() as int;
    let npool = pool.remove(idx);
    assert forall|k: int|
        #![trigger after[k]]
        base <= k < after.len() implies search_entry(node, cw, pool, thin, j + 1, after[k]) by {
        if k < mid {
            assert(after[k] == before[k]);
            let w = choose|w: Seq<char>|
                #[trigger] node_contains(node, w) && spellable(w, pool) && w.len() > 0 && (exists|
                    j2: int,
                | 0 <= j2 < j && w[0] == thin[j2]) && (before[k])@ == cw + w;
            assert(node_contains(node, w) && spellable(w, pool) && w.len() > 0 && (exists|j2: int|
                0 <= j2 < j + 1 && w[0] == thin[j2]) && (after[k])@ == cw + w);
        } else {
            let u = choose|u: Seq<char>|
                #[trigger] node_contains(child, u) && spellable(u, npool) && (after[k])@ == (cw
                    + seq![c]) + u;
            lemma_child_word_up(node, child, id, c, u);
            let w = seq![c] + u;
            assert(w.drop_first() =~= u);
            lemma_spellable_drop(w, pool, idx);
            assert((cw + seq![c]) + u =~= cw + (seq![c] + u));
            assert(w[0] == thin[j]);
            assert(node_contains(node, w) && spellable(w, pool) && w.len() > 0 && (exists|j2: int|
                0 <= j2 < j + 1 && w[0] == thin[j2]) && (after[k])@ == cw + w);
        }
    }
}

/// One search step, completeness: every spellable stored word beginning with
/// `thin[j]` now has its entry.
#[verifier::rlimit(100)]
#[verifier::spinoff_prover]
proof fn lemma_solve_step_complete(
    node: LetterNode,
    child: LetterNode,
    id: int,
    c: char,
    cw: Seq<char>,
    pool: Seq<char>,
    idx: int,
    thin: Seq<char>,
    j: int,
    base: int,
    before: Seq<String>,
    after: Seq<String>,
)
    requires
        0 <= id < 26,
        node.children@.len() == 26,
        node.children@[id] == Some(child),
        is_letter(c),
        letter_index(c) == id,
        0 <= idx < pool.len(),
        pool[idx] == c,
        0 <= j < thin.len(),
        thin[j] == c,
        0 <= base <= before.len() <= after.len(),
        forall|k: int| 0 <= k < before.len() ==> after[k] == before[k],
        found_complete(child, cw + seq![c], pool.remove(idx), before.len() as int, after),
        search_complete(node, cw, pool, thin, j, base, before),
    ensures
        search_complete(node, cw, pool, thin, j + 1, base, after),
{
    reveal(found_complete);
    reveal(search_complete);
    let mid = before.len() as int;
    let npool = pool.remove(idx);
    assert forall|w: Seq<char>|
        #[trigger] node_contains(node, w) && spellable(w, pool) && w.len() > 0 && (exists|j2: int|
            0 <= j2 < j + 1 && w[0] == thin[j2]) implies exists|k: int|
        base <= k < after.len() && (#[trigger] after[k])@ == cw + w by {
        let j2 = choose|j2: int| 0 <= j2 < j + 1 && w[0] == thin[j2];
        if j2 < j {
            let k = choose|k: int| base <= k < mid && (#[trigger] before[k])@ == cw + w;
            assert(after[k] == before[k]);
            assert((after[k])@ == cw + w);
        } else {
            assert(w[0] == c);
            assert(letter_index(w[0]) == id);
            lemma_child_word_down(node, child, id, c, w);
            lemma_spellable_drop(w, pool, idx);
            assert(spellable(w.drop_first(), npool));
            let k = choose|k: int|
                mid <= k < after.len() && (#[trigger] after[k])@ == (cw + seq![c])
                    + w.drop_first();
            assert((cw + seq![c]) + w.drop_first() =~= cw + w);
            assert((after[k])@ == cw + w);
        }
    }
}

/// One search step, distinctness: the child's entries begin with its own
/// distinct letter, so they cannot repeat an earlier entry.
#[verifier::rlimit(100)]
#[verifier::spinoff_prover]
proof fn lemma_solve_step_distinct(
    node: LetterNode,
    child: LetterNode,
    id: int,
    c: char,
    cw: Seq<char>,
    pool: Seq<char>,
    idx: int,
    thin: Seq<char>,
    j: int,
    base: int,
    before: Seq<String>,
    after: Seq<String>,
)
    requires
        0 <= id < 26,
        is_letter(c),
        letter_index(c) == id,
        0 <= idx < pool.len(),
        0 <= j < thin.len(),
        thin[j] == c,
        thin.no_duplicates(),
        0 <= base <= before.len() <= after.len(),
        forall|k: int| 0 <= k < before.len() ==> after[k] == before[k],
        found_sound(child, cw + seq![c], pool.remove(idx), before.len() as int, after),
        listed_distinct(before.len() as int, after),
        search_sound(node, cw, pool, thin, j, base, before),
        listed_distinct(base, before),
    ensures
        listed_distinct(base, after),
{
    reveal(found_sound);
    reveal(found_entry);
    reveal(search_sound);
    reveal(search_entry);
    reveal(listed_distinct);
    let mid = before.len() as int;
    let npool = pool.remove(idx);
    assert forall|k1: int, k2: int|
        #![trigger after[k1], after[k2]]
        base <= k1 < k2 < after.len() implies (after[k1])@ != (after[k2])@ by {
        if k2 < mid {
            assert(after[k1] == before[k1]);
            assert(after[k2] == before[k2]);
        } else if k1 >= mid {
        } else {
            assert(after[k1] == before[k1]);
            let w1 = choose|w: Seq<char>|
                #[trigger] node_contains(node, w) && spellable(w, pool) && w.len() > 0 && (exists|
                    j2: int,
                | 0 <= j2 < j && w[0] == thin[j2]) && (before[k1])@ == cw + w;
            let u2 = choose|u: Seq<char>|
                #[trigger] node_contains(child, u) && spellable(u, npool) && (after[k2])@ == (cw
                    + seq![c]) + u;
            if (after[k1])@ == (after[k2])@ {
                assert((cw + seq![c]) + u2 =~= cw + (seq![c] + u2));
                assert(cw + w1 == cw + (seq![c] + u2));
                lemma_concat_cancel(cw, w1, seq![c] + u2);
                assert(w1[0] == c);
                let j2 = choose|j2: int| 0 <= j2 < j && w1[0] == thin[j2];
                assert(thin[j2] == thin[j]);
                assert(false);
            }
        }
    }
}

/// A distinct letter without a child starts no stored word, so skipping it
/// advances the partial search clauses for free.
#[verifier::rlimit(100)]
#[verifier::spinoff_prover]
proof fn lemma_solve_skip(
    node: LetterNode,
    id: int,
    c: char,
    cw: Seq<char>,
    pool: Seq<char>,
    thin: Seq<char>,
    j: int,
    base: int,
    rs: Seq<String>,
)
    requires
        0 <= id < 26,
        node.children@.len() == 26,
        node.children@[id] is None,
        is_letter(c),
        letter_index(c) == id,
        0 <= j < thin.len(),
        thin[j] == c,
        0 <= base,
        search_sound(node, cw, pool, thin, j, base, rs),
        search_complete(node, cw, pool, thin, j, base, rs),
    ensures
        search_sound(node, cw, pool, thin, j + 1, base, rs),
        search_complete(node, cw, pool, thin, j + 1, base, rs),
{
    reveal(emitted_sound);
    reveal(emitted_complete);
    reveal(listed_distinct);
    reveal(listed_sound_below);
    reveal(listed_complete_below);
    reveal(found_sound);
    reveal(found_complete);
    reveal(search_sound);
    reveal(search_complete);
    reveal(search_entry);
    assert forall|k: int|
        #![trigger rs[k]]
        base <= k < rs.len() implies search_entry(node, cw, pool, thin, j + 1, rs[k]) by {
        let w = choose|w: Seq<char>|
            #[trigger] node_contains(node, w) && spellable(w, pool) && w.len() > 0 && (exists|
                j2: int,
            | 0 <= j2 < j && w[0] == thin[j2]) && (rs[k])@ == cw + w;
        assert(node_contains(node, w) && spellable(w, pool) && w.len() > 0 && (exists|j2: int|
            0 <= j2 < j + 1 && w[0] == thin[j2]) && (rs[k])@ == cw + w);
    }
    assert forall|w: Seq<char>|
        #[trigger] node_contains(node, w) && spellable(w, pool) && w.len() > 0 && (exists|j2: int|
            0 <= j2 < j + 1 && w[0] == thin[j2]) implies exists|k: int|
        base <= k < rs.len() && (#[trigger] rs[k])@ == cw + w by {
        let j2 = choose|j2: int| 0 <= j2 < j + 1 && w[0] == thin[j2];
        if j2 == j {
            lemma_char_injective(w[0], c);
            assert(node.children@[letter_index(w[0])] is None);
            assert(false);
        }
    }
}

/// Closing a search, soundness: every entry stands for a spellable stored
/// word.
#[verifier::rlimit(100)]
#[verifier::spinoff_prover]
proof fn lemma_solve_finish_sound(
    node: LetterNode,
    cw: Seq<char>,
    pool: Seq<char>,
    thin: Seq<char>,
    base: int,
    before: Seq<String>,
    after: Seq<String>,
)
    requires
        0 <= base <= before.len(),
        search_sound(node, cw, pool, thin, thin.len() as int, base, before),
        node.is_terminator ==> after.len() == before.len() + 1 && (after[before.len() as int])@
            == cw && forall|k: int| 0 <= k < before.len() ==> after[k] == before[k],
        !node.is_terminator ==> after == before,
    ensures
        found_sound(node, cw, pool, base, after),
        after.len() >= before.len(),
{
    reveal(found_sound);
    reveal(found_entry);
    reveal(search_sound);
    reveal(search_entry);
    let e = Seq::<char>::empty();
    assert(cw + e =~= cw);
    lemma_spellable_empty(pool);
    assert forall|k: int|
        #![trigger after[k]]
        base <= k < after.len() implies found_entry(node, cw, pool, after[k]) by {
        if k < before.len() {
            let w = choose|w: Seq<char>|
                #[trigger] node_contains(node, w) && spellable(w, pool) && w.len() > 0 && (exists|
                    j2: int,
                | 0 <= j2 < thin.len() && w[0] == thin[j2]) && (before[k])@ == cw + w;
            assert(after[k] == before[k]);
            assert(node_contains(node, w) && spellable(w, pool) && (after[k])@ == cw + w);
        } else {
            assert(node.is_terminator);
            assert(node_contains(node, e) && spellable(e, pool) && (after[k])@ == cw + e);
        }
    }
}

/// Closing a search, completeness: every spellable stored word has its
/// entry, since its first letter is one of the pool's distinct letters.
#[verifier::rlimit(100)]
#[verifier::spinoff_prover]
proof fn lemma_solve_finish_complete(
    node: LetterNode,
    cw: Seq<char>,
    pool: Seq<char>,
    thin: Seq<char>,
    base: int,
    before: Seq<String>,
    after: Seq<String>,
)
    requires
        forall|c: char| thin.contains(c) <==> pool.contains(c),
        0 <= base <= before.len(),
        search_complete(node, cw, pool, thin, thin.len() as int, base, before),
        node.is_terminator ==> after.len() == before.len() + 1 && (after[before.len() as int])@
            == cw && forall|k: int| 0 <= k < before.len() ==> after[k] == before[k],
        !node.is_terminator ==> after == before,
    ensures
        found_complete(node, cw, pool, base, after),
{
    reveal(found_complete);
    reveal(search_complete);
    let e = Seq::<char>::empty();
    assert(cw + e =~= cw);
    lemma_spellable_empty(pool);
    assert forall|w: Seq<char>|
        #[trigger] node_contains(node, w) && spellable(w, pool) implies exists|k: int|
        base <= k < after.len() && (#[trigger] after[k])@ == cw + w by {
        if w.len() > 0 {
            lemma_spellable_first(w, pool);
            assert(thin.contains(w[0]));
            let k = choose|k: int| base <= k < before.len() && (#[trigger] before[k])@ == cw + w;
            assert(after[k] == before[k]);
            assert((after[k])@ == cw + w);
        } else {
            assert(w =~= e);
            assert(node.is_terminator);
            assert((after[before.len() as int])@ == cw + w);
        }
    }
}

/// Closing a search, distinctness: the terminator entry is the bare prefix,
/// shorter than any entry a child appended.
#[verifier::rlimit(100)]
#[verifier::spinoff_prover]
proof fn lemma_solve_finish_distinct(
    node: LetterNode,
    cw: Seq<char>,
    pool: Seq<char>,
    thin: Seq<char>,
    base: int,
    before: Seq<String>,
    after: Seq<String>,
)
    requires
        0 <= base <= before.len(),
        search_sound(node, cw, pool, thin, thin.len() as int, base, before),
        listed_distinct(base, before),
        node.is_terminator ==> after.len() == before.len() + 1 && (after[before.len() as int])@
            == cw && forall|k: int| 0 <= k < before.len() ==> after[k] == before[k],
        !node.is_terminator ==> after == before,
    ensures
        listed_distinct(base, after),
{
    reveal(search_sound);
    reveal(search_entry);
    reveal(listed_distinct);
    assert forall|k1: int, k2: int|
        #![trigger after[k1], after[k2]]
        base <= k1 < k2 < after.len() implies (after[k1])@ != (after[k2])@ by {
        if k2 >= before.len() {
            let w1 = choose|w: Seq<char>|
                #[trigger] node_contains(node, w) && spellable(w, pool) && w.len() > 0 && (exists|
                    j2: int,
                | 0 <= j2 < thin.len() && w[0] == thin[j2]) && (before[k1])@ == cw + w;
            assert(after[k1] == before[k1]);
            assert((after[k1])@.len() == cw.len() + w1.len());
            assert((after[k2])@.len() == cw.len());
        } else {
            assert(after[k1] == before[k1]);
            assert(after[k2] == before[k2]);
        }
    }
}

impl LetterNode {
    /// Backtracking search: tries each distinct available letter once per
    /// node, consuming one occurrence per descent, and records the word of
    /// every terminator it can reach within the pool.
    fn solve(&self, available_letters: Vec<char>, current_word: String, results: &mut Vec<String>)
        requires
            self.wf(),
            sorted_letters(available_letters@),
            all_letters(available_letters@),
        ensures
            final (results)@.len() >= old(results)@.len(),
            forall|k: int|
                0 <= k < old(results)@.len() ==> final (results)@[k] == old(results)@[k],
            found_sound(
                *self,
                current_word@,
                available_letters@,
                old(results)@.len() as int,
                final (results)@,
            ),
            found_complete(
                *self,
                current_word@,
                available_letters@,
                old(results)@.len() as int,
                final (results)@,
            ),
            listed_distinct(old(results)@.len() as int, final (results)@),
        decreases available_letters@.len(),
    {
        let ghost cw = current_word@;
        let ghost pool = available_letters@;
        let ghost base = results@.len() as int;
        let thin_letters = dedup_letters(&available_letters);
        let ghost thin = thin_letters@;
        proof {
            reveal(search_sound);
            reveal(search_complete);
            reveal(listed_distinct);
            assert(search_sound(*self, cw, pool, thin, 0, base, results@));
            assert(search_complete(*self, cw, pool, thin, 0, base, results@));
            assert(listed_distinct(base, results@));
        }
        let mut j: usize = 0;
        while j < thin_letters.len()
            invariant
                j <= thin.len(),
                thin == thin_letters@,
                self.wf(),
                sorted_letters(pool),
                all_letters(pool),
                pool == available_letters@,
                current_word@ == cw,
                base == old(results)@.len(),
                thin.no_duplicates(),
                forall|c: char| thin.contains(c) <==> pool.contains(c),
                results@.len() >= old(results)@.len(),
                forall|k: int| 0 <= k < old(results)@.len() ==> results@[k] == old(results)@[k],
                search_sound(*self, cw, pool, thin, j as int, base, results@),
                search_complete(*self, cw, pool, thin, j as int, base, results@),
                listed_distinct(base, results@),
            decreases thin.len() - j,
        {
            let c = thin_letters[j];
            proof {
                assert(node_wf(*self));
                assert(thin.contains(c));
                assert(pool.contains(c));
                let m = choose|m: int| 0 <= m < pool.len() && pool[m] == c;
                assert(is_letter(pool[m]));
            }
            let id = letter_to_id(&c);
            if let Some(child) = &self.children[id] {
                proof {
                    assert(self.children@[id as int] is Some);
                    assert(node_wf(*child));
                }
                let idx = find_letter(&available_letters, c);
                let mut next_available = copy_letters(&available_letters);
                next_available.remove(idx);
                let mut next_word = current_word.clone();
                let lstr = id_to_str(id);
                next_word.append(lstr);
                let ghost npool = next_available@;
                proof {
                    lemma_char_injective(lstr@[0], c);
                    assert(lstr@ =~= seq![c]);
                    assert(next_word@ == cw + seq![c]);
                    assert(npool == pool.remove(idx as int));
                    assert forall|a: int, b: int|
                        #![trigger npool[a], npool[b]]
                        0 <= a < b < npool.len() implies npool[a] as u32 <= npool[b] as u32 by {
                        assert(npool[a] == if a < idx {
                            pool[a]
                        } else {
                            pool[a + 1]
                        });
                        assert(npool[b] == if b < idx {
                            pool[b]
                        } else {
                            pool[b + 1]
                        });
                    }
                    assert forall|m: int| 0 <= m < npool.len() implies is_letter(
                        #[trigger] npool[m],
                    ) by {
                        assert(npool[m] == if m < idx {
                            pool[m]
                        } else {
                            pool[m + 1]
                        });
                    }
                }
                let ghost res_before = results@;
                child.solve(next_available, next_word, results);
                proof {
                    assert(self.children@[id as int] == Some(*child));
                    lemma_solve_step_sound(*self, *child, id as int, c, cw, pool, idx as int, thin, j as int, base, res_before, results@);
                    lemma_solve_step_complete(*self, *child, id as int, c, cw, pool, idx as int, thin, j as int, base, res_before, results@);
                    lemma_solve_step_distinct(*self, *child, id as int, c, cw, pool, idx as int, thin, j as int, base, res_before, results@);
                }
            } else {
                proof {
                    assert(self.children@[id as int] is None);
                    lemma_solve_skip(
                        *self,
                        id as int,
                        c,
                        cw,
                        pool,
                        thin,
                        j as int,
                        base,
                        results@,
                    );
                }
            }
            j = j + 1;
        }
        let ghost res_loop = results@;
        if self.is_terminator() {
            results.push(current_word);
        }
        proof {
            lemma_solve_finish_sound(*self, cw, pool, thin, base, res_loop, results@);
            lemma_solve_finish_complete(*self, cw, pool, thin, base, res_loop, results@);
            lemma_solve_finish_distinct(*self, cw, pool, thin, base, res_loop, results@);
        }
    }
}
impl Default for WordTree {
    /// An empty dictionary: no words stored.
    fn default() -> (tree: Self)
        ensures
            tree.wf(),
            tree@ == Set::<Seq<char>>::empty(),
    {
        let tree = WordTree { root: LetterNode::default() };
        proof {
            assert(tree@ =~= Set::<Seq<char>>::empty());
        }
        tree
    }
}

impl View for WordTree {
    type V = Set<Seq<char>>;

    /// The set of words the dictionary stores.
    closed spec fn view(&self) -> Set<Seq<char>> {
        self.root.words()
    }
}

impl WordTree {
    /// Structural soundness of the whole trie; every constructor establishes
    /// it and every query requires it.
    pub closed spec fn wf(self) -> bool {
        self.root.wf()
    }

    /// Builds the trie for a word list: sort, deduplicate, then one
    /// divide-and-conquer pass. The tree stores exactly the set of the given
    /// words.
    pub fn new(words: &Vec<String>) -> (tree: WordTree)
        requires
            forall|k: int|
                0 <= k < words@.len() ==> all_letters(#[trigger] word_views(words@)[k]),
        ensures
            tree.wf(),
            tree@ == word_views(words@).to_set(),
    {
        let mut tree = WordTree::default();
        let mut owned: Vec<String> = Vec::new();
        let mut k: usize = 0;
        while k < words.len()
            invariant
                k <= words@.len(),
                owned@ == words@.take(k as int),
            decreases words@.len() - k,
        {
            owned.push(words[k].clone());
            proof {
                assert(owned@ =~= words@.take(k as int + 1));
            }
            k = k + 1;
        }
        proof {
            assert(words@.take(words@.len() as int) =~= words@);
        }
        tree.generate(&mut owned);
        tree
    }

    /// Rebuilds the trie from the given word list, sorting it in place; the
    /// rebuilt tree stores exactly the set of the given words, duplicates
    /// collapsed.
    pub fn generate(&mut self, words: &mut Vec<String>)
        requires
            forall|k: int|
                0 <= k < old(words)@.len() ==> all_letters(
                    #[trigger] word_views(old(words)@)[k],
                ),
        ensures
            final (self).wf(),
            final (self)@ == word_views(old(words)@).to_set(),
            word_views(final (words)@).to_multiset() == word_views(old(words)@).to_multiset(),
    {
        let ghost ows = word_views(old(words)@);
        sort_word_list(words);
        proof {
            assert forall|k: int| 0 <= k < words@.len() implies all_letters(
                #[trigger] word_views(words@)[k],
            ) by {
                assert(word_views(words@).to_set().contains(word_views(words@)[k]));
                assert(ows.to_set().contains(word_views(words@)[k]));
                let m = choose|m: int| 0 <= m < ows.len() && ows[m] == word_views(words@)[k];
                assert(all_letters(ows[m]));
            }
        }
        let deduped = dedup_words(words);
        proof {
            let dvs = word_views(deduped@);
            assert forall|k: int| 0 <= k < dvs.len() implies all_letters(#[trigger] dvs[k]) by {
                assert(dvs.to_set().contains(dvs[k]));
                assert(word_views(words@).to_set().contains(dvs[k]));
                let m = choose|m: int|
                    0 <= m < word_views(words@).len() && word_views(words@)[m] == dvs[k];
                assert(all_letters(word_views(words@)[m]));
            }
        }
        let root = LetterNode::new(deduped);
        self.root = root;
        proof {
            let dvs = word_views(deduped@);
            assert forall|w: Seq<char>|
                self@.contains(w) <==> #[trigger] ows.to_set().contains(w) by {
                assert(self.root.words().contains(w) <==> dvs.contains(w));
                assert(dvs.to_set().contains(w) <==> dvs.contains(w));
                assert(dvs.to_set() == word_views(words@).to_set());
            }
            assert(self@ =~= ows.to_set());
        }
    }

    /// Lists every stored word exactly once: children first in ascending
    /// letter order, each node's own word after its subtree.
    pub fn get_words(&self) -> (result: Vec<String>)
        requires
            self.wf(),
        ensures
            forall|k: int| 0 <= k < result@.len() ==> self@.contains((#[trigger] result@[k])@),
            forall|w: Seq<char>|
                #[trigger] self@.contains(w) ==> exists|k: int|
                    0 <= k < result@.len() && (#[trigger] result@[k])@ == w,
            listed_distinct(0, result@),
    {
        let mut result: Vec<String> = Vec::new();
        let prefix = String::new();
        self.root.get_words(prefix, &mut result);
        proof {
            reveal(emitted_sound);
            reveal(emitted_entry);
            reveal(emitted_complete);
            let e = Seq::<char>::empty();
            assert forall|k: int| 0 <= k < result@.len() implies self@.contains(
                (#[trigger] result@[k])@,
            ) by {
                assert(emitted_entry(self.root, e, result@[k]));
                let w = choose|w: Seq<char>|
                    #[trigger] node_contains(self.root, w) && (result@[k])@ == e + w;
                assert(e + w =~= w);
            }
            assert forall|w: Seq<char>| #[trigger] self@.contains(w) implies exists|k: int|
                0 <= k < result@.len() && (#[trigger] result@[k])@ == w by {
                assert(node_contains(self.root, w));
                let k = choose|k: int|
                    0 <= k < result@.len() && (#[trigger] result@[k])@ == e + w;
                assert(e + w =~= w);
            }
        }
        result
    }

    /// Finds every stored word that the board's letters can spell, each
    /// letter used at most as many times as the board holds it. Each answer
    /// appears exactly once.
    pub fn solve(&self, available_letters: &String) -> (result: Vec<String>)
        requires
            self.wf(),
            all_letters(available_letters@),
        ensures
            forall|k: int|
                0 <= k < result@.len() ==> self@.contains((#[trigger] result@[k])@) && spellable(
                    (result@[k])@,
                    available_letters@,
                ),
            forall|w: Seq<char>|
                #[trigger] self@.contains(w) && spellable(w, available_letters@) ==> exists|k: int|
                    0 <= k < result@.len() && (#[trigger] result@[k])@ == w,
            listed_distinct(0, result@),
    {
        let ghost letters = available_letters@;
        let chars = string_chars(available_letters.as_str());
        let sorted_pool = sort_letters(chars);
        let ghost pool = sorted_pool@;
        proof {
            broadcast use vstd::seq_lib::group_to_multiset_ensures;

            assert forall|m: int| 0 <= m < pool.len() implies is_letter(#[trigger] pool[m]) by {
                assert(pool.contains(pool[m]));
                assert(pool.to_multiset().count(pool[m]) > 0);
                assert(letters.contains(pool[m]));
                let m2 = choose|m2: int| 0 <= m2 < letters.len() && letters[m2] == pool[m];
                assert(is_letter(letters[m2]));
            }
        }
        let mut result: Vec<String> = Vec::new();
        let prefix = String::new();
        self.root.solve(sorted_pool, prefix, &mut result);
        proof {
            reveal(found_sound);
            reveal(found_entry);
            reveal(found_complete);
            let e = Seq::<char>::empty();
            assert forall|k: int| 0 <= k < result@.len() implies self@.contains(
                (#[trigger] result@[k])@,
            ) && spellable((result@[k])@, letters) by {
                assert(found_entry(self.root, e, pool, result@[k]));
                let w = choose|w: Seq<char>|
                    #[trigger] node_contains(self.root, w) && spellable(w, pool) && (result@[k])@
                        == e + w;
                assert(e + w =~= w);
                crate::board::lemma_spellable_same_pool(w, pool, letters);
            }
            assert forall|w: Seq<char>|
                #[trigger] self@.contains(w) && spellable(w, letters) implies exists|k: int|
                0 <= k < result@.len() && (#[trigger] result@[k])@ == w by {
                assert(node_contains(self.root, w));
                crate::board::lemma_spellable_same_pool(w, pool, letters);
                let k = choose|k: int|
                    0 <= k < result@.len() && (#[trigger] result@[k])@ == e + w;
                assert(e + w =~= w);
            }
        }
        result
    }
}

/// Law: enumerating a tree built from a word list yields exactly the list's
/// set of words, with duplicates collapsed and order immaterial. `stored` is
/// what building from `ws` stores; `listed` is any enumeration of it.
pub proof fn lemma_enumerate_round_trip(
    ws: Seq<Seq<char>>,
    stored: Set<Seq<char>>,
    listed: Seq<Seq<char>>,
)
    requires
        stored == ws.to_set(),
        forall|k: int| 0 <= k < listed.len() ==> stored.contains(#[trigger] listed[k]),
        forall|w: Seq<char>| #[trigger] stored.contains(w) ==> listed.contains(w),
    ensures
        listed.to_set() == ws.to_set(),
{
    assert forall|w: Seq<char>|
        listed.to_set().contains(w) <==> ws.to_set().contains(w) by {
        if listed.contains(w) {
            let k = choose|k: int| 0 <= k < listed.len() && listed[k] == w;
            assert(stored.contains(listed[k]));
        }
    }
    assert(listed.to_set() =~= ws.to_set());
}

/// Law: building from a permutation of the word list (for example, the list
/// sorted), or from the list with every word repeated, stores the same set of
/// words, so enumeration and search agree.
pub proof fn lemma_build_input_insensitive(ws: Seq<Seq<char>>, perm: Seq<Seq<char>>)
    requires
        perm.to_multiset() == ws.to_multiset(),
    ensures
        perm.to_set() == ws.to_set(),
        (ws + ws).to_set() == ws.to_set(),
{
    crate::words::lemma_same_multiset_same_set(perm, ws);
    let dbl = ws + ws;
    assert forall|w: Seq<char>| dbl.contains(w) <==> ws.contains(w) by {
        if dbl.contains(w) {
            let k = choose|k: int| 0 <= k < dbl.len() && dbl[k] == w;
            if k < ws.len() {
                assert(ws[k] == w);
            } else {
                assert(ws[k - ws.len()] == w);
            }
        }
        if ws.contains(w) {
            let k = choose|k: int| 0 <= k < ws.len() && ws[k] == w;
            assert(dbl[k] == w);
        }
    }
    assert((ws + ws).to_set() =~= ws.to_set());
}

} // verus!
