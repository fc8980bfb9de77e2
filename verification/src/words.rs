//! Words as byte sequences: letter counting and dictionary intake.

use vstd::prelude::*;

verus! {

/// Number of letters in a dictionary word.
pub const WORD_LENGTH: usize = 5;

/// How many of the first `n` bytes of `s` equal `c`.
pub open spec fn count_byte_upto(s: Seq<u8>, c: u8, n: int) -> nat
    decreases n,
{
    if n <= 0 {
        0
    } else {
        count_byte_upto(s, c, n - 1) + if s[n - 1] == c {
            1nat
        } else {
            0nat
        }
    }
}

/// How many times the byte `c` occurs in `s`.
pub open spec fn count_byte(s: Seq<u8>, c: u8) -> nat {
    count_byte_upto(s, c, s.len() as int)
}

/// A word holds a letter at most as many times as it has positions.
pub proof fn lemma_count_byte_le_len(s: Seq<u8>, c: u8, n: int)
    requires
        0 <= n,
    ensures
        count_byte_upto(s, c, n) <= n,
    decreases n,
{
    if n > 0 {
        lemma_count_byte_le_len(s, c, n - 1);
    }
}

/// How many times the byte `c` occurs in `w`.
pub fn count_letter(w: &Vec<u8>, c: u8) -> (n: usize)
    ensures
        n == count_byte(w@, c),
{
    let mut n: usize = 0;
    let mut i: usize = 0;
    while i < w.len()
        invariant
            0 <= i <= w.len(),
            n == count_byte_upto(w@, c, i as int),
            n <= i,
        decreases w.len() - i,
    {
        if w[i] == c {
            n = n + 1;
        }
        i = i + 1;
    }
    n
}

/// The test a word of the dictionary must pass: exactly `WORD_LENGTH` letters.
pub open spec fn has_word_length() -> spec_fn(Seq<u8>) -> bool {
    |w: Seq<u8>| w.len() == WORD_LENGTH as nat
}

/// Keeps the words that have exactly `WORD_LENGTH` letters, in order.
/// The caller supplies the raw dictionary, one word per entry.
pub fn get_all_5_words(words: &Vec<Vec<u8>>) -> (out: Vec<Vec<u8>>)
    ensures
        out.deep_view() == words.deep_view().filter(has_word_length()),
{
    let mut out: Vec<Vec<u8>> = Vec::new();
    let mut i: usize = 0;
    proof {
        assert(out.deep_view() =~= words.deep_view().take(0int).filter(has_word_length()));
    }
    while i < words.len()
        invariant
            0 <= i <= words.len(),
            out.deep_view() == words.deep_view().take(i as int).filter(has_word_length()),
        decreases words.len() - i,
    {
        proof {
            crate::filter::lemma_filter_push(
                words.deep_view().take(i as int),
                words.deep_view()[i as int],
                has_word_length(),
            );
            assert(words.deep_view().take(i + 1) =~= words.deep_view().take(i as int).push(
                words.deep_view()[i as int],
            ));
        }
        if words[i].len() == WORD_LENGTH {
            let w = clone_word(&words[i]);
            out.push(w);
            proof {
                assert(words.deep_view()[i as int] =~= words@[i as int]@);
                assert(w.deep_view() =~= words.deep_view()[i as int]);
                assert(out.deep_view() =~= words.deep_view().take(i + 1).filter(
                    has_word_length(),
                ));
            }
        } else {
            proof {
                assert(words.deep_view()[i as int].len() != WORD_LENGTH as nat);
            }
        }
        i = i + 1;
    }
    proof {
        assert(words.deep_view().take(words@.len() as int) =~= words.deep_view());
    }
    out
}

/// Copy of a word, letter by letter.
pub fn clone_word(w: &Vec<u8>) -> (out: Vec<u8>)
    ensures
        out@ == w@,
{
    let mut out: Vec<u8> = Vec::new();
    let mut i: usize = 0;
    while i < w.len()
        invariant
            0 <= i <= w.len(),
            out@ == w@.take(i as int),
        decreases w.len() - i,
    {
        out.push(w[i]);
        proof {
            assert(out@ =~= w@.take(i + 1));
        }
        i = i + 1;
    }
    proof {
        assert(out@ =~= w@);
    }
    out
}

} // verus!
