//! The alphabet of the puzzle: the 26 lowercase Latin letters and their
//! dense indices 0..25, plus the reserved sentinel for line terminators.

use vstd::prelude::*;

verus! {

/// A character the puzzle can store: one of the lowercase letters 'a'..'z'.
pub open spec fn is_letter(c: char) -> bool {
    'a' as u32 <= c as u32 <= 'z' as u32
}

/// Dense index of a lowercase letter: 'a' maps to 0, ..., 'z' maps to 25.
pub open spec fn letter_index(c: char) -> int {
    c as u32 - 'a' as u32
}

/// Every character of the word is a lowercase letter.
pub open spec fn all_letters(w: Seq<char>) -> bool {
    forall|i: int| 0 <= i < w.len() ==> is_letter(#[trigger] w[i])
}

/// Two characters with the same scalar value are the same character, so a
/// letter is determined by its dense index.
pub proof fn lemma_char_injective(c1: char, c2: char)
    requires
        c1 as u32 == c2 as u32,
    ensures
        c1 == c2,
{
    vstd::utf8::char_u32_cast(c1, c1 as u32);
    vstd::utf8::char_u32_cast(c2, c2 as u32);
}

/// Index reserved for carriage return and line feed during raw-line cleanup;
/// it never denotes a trie branch.
pub const TERMINATOR_ID: usize = 26;

/// Maps a lowercase letter to its dense index, and a line terminator to the
/// reserved sentinel. Any other character is an input-validation defect that
/// callers must rule out before querying the mapping.
pub fn letter_to_id(letter: &char) -> (id: usize)
    requires
        is_letter(*letter) || *letter == '\n' || *letter == '\r',
    ensures
        is_letter(*letter) ==> id == letter_index(*letter),
        !is_letter(*letter) ==> id == TERMINATOR_ID,
{
    match *letter {
        'a' => 0,
        'b' => 1,
        'c' => 2,
        'd' => 3,
        'e' => 4,
        'f' => 5,
        'g' => 6,
        'h' => 7,
        'i' => 8,
        'j' => 9,
        'k' => 10,
        'l' => 11,
        'm' => 12,
        'n' => 13,
        'o' => 14,
        'p' => 15,
        'q' => 16,
        'r' => 17,
        's' => 18,
        't' => 19,
        'u' => 20,
        'v' => 21,
        'w' => 22,
        'x' => 23,
        'y' => 24,
        'z' => 25,
        _ => 26,
    }
}

/// Exact inverse of `letter_to_id` on the indices 0..25.
pub fn id_to_letter(id: usize) -> (c: char)
    requires
        id < 26,
    ensures
        is_letter(c),
        letter_index(c) == id as int,
{
    match id {
        0 => 'a',
        1 => 'b',
        2 => 'c',
        3 => 'd',
        4 => 'e',
        5 => 'f',
        6 => 'g',
        7 => 'h',
        8 => 'i',
        9 => 'j',
        10 => 'k',
        11 => 'l',
        12 => 'm',
        13 => 'n',
        14 => 'o',
        15 => 'p',
        16 => 'q',
        17 => 'r',
        18 => 's',
        19 => 't',
        20 => 'u',
        21 => 'v',
        22 => 'w',
        23 => 'x',
        _ => {
            if id == 24 {
                'y'
            } else {
                'z'
            }
        },
    }
}

/// The one-character string of the letter with the given index, used to grow
/// prefix strings while walking the trie.
pub fn id_to_str(id: usize) -> (s: &'static str)
    requires
        id < 26,
    ensures
        s@.len() == 1,
        is_letter(s@[0]),
        letter_index(s@[0]) == id as int,
{
    match id {
        0 => {
            proof {
                reveal_strlit("a");
            }
            "a"
        },
        1 => {
            proof {
                reveal_strlit("b");
            }
            "b"
        },
        2 => {
            proof {
                reveal_strlit("c");
            }
            "c"
        },
        3 => {
            proof {
                reveal_strlit("d");
            }
            "d"
        },
        4 => {
            proof {
                reveal_strlit("e");
            }
            "e"
        },
        5 => {
            proof {
                reveal_strlit("f");
            }
            "f"
        },
        6 => {
            proof {
                reveal_strlit("g");
            }
            "g"
        },
        7 => {
            proof {
                reveal_strlit("h");
            }
            "h"
        },
        8 => {
            proof {
                reveal_strlit("i");
            }
            "i"
        },
        9 => {
            proof {
                reveal_strlit("j");
            }
            "j"
        },
        10 => {
            proof {
                reveal_strlit("k");
            }
            "k"
        },
        11 => {
            proof {
                reveal_strlit("l");
            }
            "l"
        },
        12 => {
            proof {
                reveal_strlit("m");
            }
            "m"
        },
        13 => {
            proof {
                reveal_strlit("n");
            }
            "n"
        },
        14 => {
            proof {
                reveal_strlit("o");
            }
            "o"
        },
        15 => {
            proof {
                reveal_strlit("p");
            }
            "p"
        },
        16 => {
            proof {
                reveal_strlit("q");
            }
            "q"
        },
        17 => {
            proof {
                reveal_strlit("r");
            }
            "r"
        },
        18 => {
            proof {
                reveal_strlit("s");
            }
            "s"
        },
        19 => {
            proof {
                reveal_strlit("t");
            }
            "t"
        },
        20 => {
            proof {
                reveal_strlit("u");
            }
            "u"
        },
        21 => {
            proof {
                reveal_strlit("v");
            }
            "v"
        },
        22 => {
            proof {
                reveal_strlit("w");
            }
            "w"
        },
        23 => {
            proof {
                reveal_strlit("x");
            }
            "x"
        },
        _ => {
            if id == 24 {
                proof {
                    reveal_strlit("y");
                }
                "y"
            } else {
                proof {
                    reveal_strlit("z");
                }
                "z"
            }
        },
    }
}

} // verus!
