use vstd::prelude::*;

verus! {

/// The three characters of the word that stands for nibble `n`.
pub open spec fn word_chars(n: u8) -> (char, char, char) {
    match n {
        0 => ('u', 'w', 'u'),
        1 => ('o', 'w', 'o'),
        2 => ('u', 'm', 'u'),
        3 => ('n', 'y', 'a'),
        4 => ('o', 'm', 'o'),
        5 => ('o', '_', 'o'),
        6 => ('q', '_', 'p'),
        7 => ('u', '_', 'u'),
        8 => ('o', '~', 'o'),
        9 => ('U', 'w', 'U'),
        10 => ('O', 'w', 'O'),
        11 => ('U', 'm', 'U'),
        12 => ('O', 'm', 'O'),
        13 => ('O', '_', 'O'),
        14 => ('U', '_', 'U'),
        _ => ('N', 'y', 'a'),
    }
}

/// The word of the vocabulary that stands for nibble `n` (for `n < 16`).
pub open spec fn word(n: u8) -> Seq<char> {
    seq![word_chars(n).0, word_chars(n).1, word_chars(n).2]
}

/// Whether `w` is one of the sixteen words.
pub open spec fn is_word(w: Seq<char>) -> bool {
    exists|n: u8| n < 16 && #[trigger] word(n) == w
}

/// The nibble whose word is `w`, if `w` is a word of the vocabulary.
pub open spec fn nibble_of(w: Seq<char>) -> Option<u8> {
    if is_word(w) {
        Some(choose|n: u8| n < 16 && #[trigger] word(n) == w)
    } else {
        None
    }
}

/// The nibble that a word decodes to: unrecognized words count as zero.
pub open spec fn nibble_value(w: Seq<char>) -> u8 {
    match nibble_of(w) {
        Some(n) => n,
        None => 0,
    }
}

/// Distinct nibbles have distinct words.
pub proof fn lemma_word_injective(n: u8, m: u8)
    requires
        n < 16,
        m < 16,
        word(n) == word(m),
    ensures
        n == m,
{
    assert(word(n)[0] == word(m)[0]);
    assert(word(n)[1] == word(m)[1]);
    assert(word(n)[2] == word(m)[2]);
}

/// The reverse lookup is the exact inverse of the forward table.
pub proof fn lemma_nibble_of_word(n: u8)
    requires
        n < 16,
    ensures
        nibble_of(word(n)) == Some(n),
        nibble_value(word(n)) == n,
{
    assert(is_word(word(n)));
    let m = choose|m: u8| m < 16 && #[trigger] word(m) == word(n);
    lemma_word_injective(n, m);
}

/// A word of the vocabulary has three characters, those of `word_chars`.
proof fn lemma_word_shape(w: Seq<char>, n: u8)
    requires
        n < 16,
        word(n) == w,
    ensures
        w.len() == 3,
        (w[0], w[1], w[2]) == word_chars(n),
{
}

/// The word for nibble `n`.
pub fn word_for(n: u8) -> (r: &'static str)
    requires
        n < 16,
    ensures
        r@ == word(n),
{
    let r = match n {
        0 => {
            proof { reveal_strlit("uwu"); }
            "uwu"
        },
        1 => {
            proof { reveal_strlit("owo"); }
            "owo"
        },
        2 => {
            proof { reveal_strlit("umu"); }
            "umu"
        },
        3 => {
            proof { reveal_strlit("nya"); }
            "nya"
        },
        4 => {
            proof { reveal_strlit("omo"); }
            "omo"
        },
        5 => {
            proof { reveal_strlit("o_o"); }
            "o_o"
        },
        6 => {
            proof { reveal_strlit("q_p"); }
            "q_p"
        },
        7 => {
            proof { reveal_strlit("u_u"); }
            "u_u"
        },
        8 => {
            proof { reveal_strlit("o~o"); }
            "o~o"
        },
        9 => {
            proof { reveal_strlit("UwU"); }
            "UwU"
        },
        10 => {
            proof { reveal_strlit("OwO"); }
            "OwO"
        },
        11 => {
            proof { reveal_strlit("UmU"); }
            "UmU"
        },
        12 => {
            proof { reveal_strlit("OmO"); }
            "OmO"
        },
        13 => {
            proof { reveal_strlit("O_O"); }
            "O_O"
        },
        14 => {
            proof { reveal_strlit("U_U"); }
            "U_U"
        },
        _ => {
            proof { reveal_strlit("Nya"); }
            "Nya"
        },
    };
    assert(r@ =~= word(n));
    r
}

/// The nibble whose word is `w`, or `None` for a word outside the vocabulary.
pub fn nibble_for(w: &[char]) -> (r: Option<u8>)
    ensures
        r == nibble_of(w@),
        r matches Some(n) ==> n < 16,
{
    if w.len() != 3 {
        proof {
            if is_word(w@) {
                let n = choose|n: u8| n < 16 && #[trigger] word(n) == w@;
                lemma_word_shape(w@, n);
            }
        }
        return None;
    }
    let n: u8 = match (w[0], w[1], w[2]) {
        ('u', 'w', 'u') => 0,
        ('o', 'w', 'o') => 1,
        ('u', 'm', 'u') => 2,
        ('n', 'y', 'a') => 3,
        ('o', 'm', 'o') => 4,
        ('o', '_', 'o') => 5,
        ('q', '_', 'p') => 6,
        ('u', '_', 'u') => 7,
        ('o', '~', 'o') => 8,
        ('U', 'w', 'U') => 9,
        ('O', 'w', 'O') => 10,
        ('U', 'm', 'U') => 11,
        ('O', 'm', 'O') => 12,
        ('O', '_', 'O') => 13,
        ('U', '_', 'U') => 14,
        ('N', 'y', 'a') => 15,
        _ => {
            proof {
                if is_word(w@) {
                    let n = choose|n: u8| n < 16 && #[trigger] word(n) == w@;
                    lemma_word_shape(w@, n);
                }
            }
            return None;
        },
    };
    proof {
        assert(w@ =~= word(n));
        lemma_nibble_of_word(n);
    }
    Some(n)
}

/// The nibble that `w` decodes to: its value in the vocabulary, or zero for
/// an unrecognized word.
pub fn decode_word(w: &[char]) -> (r: u8)
    ensures
        r == nibble_value(w@),
        r < 16,
{
    match nibble_for(w) {
        Some(n) => n,
        None => 0,
    }
}

} // verus!
