//! Lexicographic order on character sequences: the order in which the word
//! list is sorted before the divide-and-conquer trie build, and the order the
//! binary searches over that list rely on.

use vstd::prelude::*;

use crate::letters::is_letter;
use crate::letters::letter_index;

verus! {

/// Strict lexicographic order: `a` comes before `b`.
pub open spec fn lex_lt(a: Seq<char>, b: Seq<char>) -> bool
    decreases a.len(),
{
    if b.len() == 0 {
        false
    } else if a.len() == 0 {
        true
    } else if (a[0] as u32) < (b[0] as u32) {
        true
    } else if a[0] == b[0] {
        lex_lt(a.drop_first(), b.drop_first())
    } else {
        false
    }
}

/// Non-strict lexicographic order.
pub open spec fn lex_le(a: Seq<char>, b: Seq<char>) -> bool {
    lex_lt(a, b) || a == b
}

/// The word list is in nondecreasing lexicographic order.
pub open spec fn sorted_words(ws: Seq<Seq<char>>) -> bool {
    forall|i: int, j: int| #![trigger ws[i], ws[j]] 0 <= i < j < ws.len() ==> lex_le(ws[i], ws[j])
}

/// The word list is in strictly increasing lexicographic order, so it is both
/// sorted and free of duplicates.
pub open spec fn strictly_sorted_words(ws: Seq<Seq<char>>) -> bool {
    forall|i: int, j: int| #![trigger ws[i], ws[j]] 0 <= i < j < ws.len() ==> lex_lt(ws[i], ws[j])
}

pub proof fn lemma_lex_lt_transitive(a: Seq<char>, b: Seq<char>, c: Seq<char>)
    requires
        lex_lt(a, b),
        lex_lt(b, c),
    ensures
        lex_lt(a, c),
    decreases a.len(),
{
    if a.len() > 0 && b.len() > 0 && c.len() > 0 {
        if a[0] == b[0] && b[0] == c[0] {
            lemma_lex_lt_transitive(a.drop_first(), b.drop_first(), c.drop_first());
        }
    }
}

/// Against a one-letter word, the strict order is decided by the first
/// character alone.
pub proof fn lemma_lex_lt_single(w: Seq<char>, c: char)
    ensures
        lex_lt(w, seq![c]) <==> (w.len() == 0 || (w.len() > 0 && (w[0] as u32) < (c as u32))),
{
    let s = seq![c];
    assert(s.len() == 1);
    assert(s[0] == c);
    if w.len() > 0 && w[0] == c {
        assert(s.drop_first().len() == 0);
        assert(!lex_lt(w.drop_first(), s.drop_first()));
    }
}

/// Compares two strings in lexicographic order over their characters.
pub fn str_lt(a: &str, b: &str) -> (r: bool)
    ensures
        r == lex_lt(a@, b@),
{
    let a_len = a.unicode_len();
    let b_len = b.unicode_len();
    let mut i: usize = 0;
    proof {
        assert(a@.skip(0) =~= a@);
        assert(b@.skip(0) =~= b@);
    }
    loop
        invariant
            i <= a_len,
            i <= b_len,
            a_len == a@.len(),
            b_len == b@.len(),
            lex_lt(a@, b@) <==> lex_lt(a@.skip(i as int), b@.skip(i as int)),
        decreases b_len - i,
    {
        if i >= b_len {
            assert(b@.skip(i as int).len() == 0);
            return false;
        }
        if i >= a_len {
            assert(a@.skip(i as int).len() == 0);
            assert(b@.skip(i as int).len() > 0);
            return true;
        }
        let ca = a.get_char(i);
        let cb = b.get_char(i);
        proof {
            assert(a@.skip(i as int)[0] == a@[i as int]);
            assert(b@.skip(i as int)[0] == b@[i as int]);
        }
        if (ca as u32) < (cb as u32) {
            return true;
        }
        if (ca as u32) > (cb as u32) {
            return false;
        }
        proof {
            assert(ca == cb);
            assert(a@.skip(i as int).drop_first() =~= a@.skip(i as int + 1));
            assert(b@.skip(i as int).drop_first() =~= b@.skip(i as int + 1));
        }
        i = i + 1;
    }
}

} // verus!
