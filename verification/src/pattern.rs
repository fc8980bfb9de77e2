//! Canonical base-3 numbering of feedback classifications.

use vstd::prelude::*;
use crate::classify::{Tag, spec_classify, classify, lemma_classify_upto_len};

verus! {

/// The base-3 digit a tag contributes: absent 0, exact 1, present 2.
pub open spec fn tag_digit(t: Tag) -> nat {
    match t {
        Tag::Absent => 0,
        Tag::Exact => 1,
        Tag::Present => 2,
    }
}

/// Powers of three.
pub open spec fn pow3(n: nat) -> nat
    decreases n,
{
    if n == 0 {
        1
    } else {
        3 * pow3((n - 1) as nat)
    }
}

pub proof fn lemma_pow3_pos(n: nat)
    ensures
        pow3(n) >= 1,
    decreases n,
{
    if n > 0 {
        lemma_pow3_pos((n - 1) as nat);
    }
}

pub proof fn lemma_pow3_mono(m: nat, n: nat)
    requires
        m <= n,
    ensures
        pow3(m) <= pow3(n),
    decreases n,
{
    if m < n {
        lemma_pow3_mono(m, (n - 1) as nat);
        lemma_pow3_pos((n - 1) as nat);
    }
}

/// Patterns of words no longer than twenty letters fit a machine word on any
/// machine this library runs on.
pub proof fn lemma_pow3_fits_usize(n: nat)
    requires
        n <= 20,
    ensures
        pow3(n) <= usize::MAX as nat + 1,
{
    assert(pow3(20) == 3486784401) by {
        reveal_with_fuel(pow3, 21);
    }
    lemma_pow3_mono(n, 20);
}

/// A classification read as a base-3 number, position 0 least significant.
pub open spec fn spec_encode(tags: Seq<Tag>) -> nat
    decreases tags.len(),
{
    if tags.len() == 0 {
        0
    } else {
        tag_digit(tags[0]) + 3 * spec_encode(tags.subrange(1, tags.len() as int))
    }
}

/// The encoding stays below three to the number of positions.
pub proof fn lemma_encode_bound(tags: Seq<Tag>)
    ensures
        spec_encode(tags) < pow3(tags.len()),
    decreases tags.len(),
{
    if tags.len() == 0 {
    } else {
        lemma_encode_bound(tags.subrange(1, tags.len() as int));
    }
}

/// The canonical number of the classification the answer gives the guess.
pub open spec fn spec_pattern(ans: Seq<u8>, g: Seq<u8>) -> nat {
    spec_encode(spec_classify(ans, g))
}

/// Distinct classifications of the same length never share an encoding.
pub proof fn lemma_encode_injective(t1: Seq<Tag>, t2: Seq<Tag>)
    requires
        t1.len() == t2.len(),
        spec_encode(t1) == spec_encode(t2),
    ensures
        t1 == t2,
    decreases t1.len(),
{
    if t1.len() == 0 {
        assert(t1 =~= t2);
    } else {
        let r1 = t1.subrange(1, t1.len() as int);
        let r2 = t2.subrange(1, t2.len() as int);
        assert(tag_digit(t1[0]) < 3 && tag_digit(t2[0]) < 3);
        assert(tag_digit(t1[0]) == tag_digit(t2[0]) && spec_encode(r1) == spec_encode(r2)) by {
            assert(tag_digit(t1[0]) + 3 * spec_encode(r1) == tag_digit(t2[0]) + 3 * spec_encode(
                r2,
            ));
        }
        assert(t1[0] == t2[0]);
        lemma_encode_injective(r1, r2);
        assert forall|i: int| 0 <= i < t1.len() implies t1[i] == t2[i] by {
            if i > 0 {
                assert(r1[i - 1] == t1[i]);
                assert(r2[i - 1] == t2[i]);
            }
        }
        assert(t1 =~= t2);
    }
}

/// Two answers that give a guess the same pattern number give it the very
/// same classification: grouping pool words by pattern groups them by
/// feedback.
pub proof fn lemma_pattern_injective(a1: Seq<u8>, a2: Seq<u8>, g: Seq<u8>)
    requires
        a1.len() == g.len(),
        a2.len() == g.len(),
        spec_pattern(a1, g) == spec_pattern(a2, g),
    ensures
        spec_classify(a1, g) == spec_classify(a2, g),
{
    lemma_classify_upto_len(a1, g, g.len() as int);
    lemma_classify_upto_len(a2, g, g.len() as int);
    lemma_encode_injective(spec_classify(a1, g), spec_classify(a2, g));
}

/// Turns the tags into their base-3 pattern number.
pub fn encode_pattern(tags: &Vec<Tag>) -> (p: usize)
    requires
        pow3(tags@.len()) <= usize::MAX as nat + 1,
    ensures
        p == spec_encode(tags@),
{
    let mut p: usize = 0;
    let mut i: usize = tags.len();
    proof {
        assert(tags@.subrange(tags@.len() as int, tags@.len() as int) =~= Seq::<Tag>::empty());
    }
    while i > 0
        invariant
            0 <= i <= tags@.len(),
            pow3(tags@.len()) <= usize::MAX as nat + 1,
            p == spec_encode(tags@.subrange(i as int, tags@.len() as int)),
        decreases i,
    {
        proof {
            let tail = tags@.subrange(i as int, tags@.len() as int);
            lemma_encode_bound(tail);
            lemma_pow3_mono(tail.len() + 1, tags@.len());
            let next = tags@.subrange(i - 1, tags@.len() as int);
            assert(next[0] == tags@[i - 1]);
            assert(next.subrange(1, next.len() as int) =~= tail);
        }
        i = i - 1;
        let d: usize = match tags[i] {
            Tag::Absent => 0,
            Tag::Exact => 1,
            Tag::Present => 2,
        };
        p = 3 * p + d;
    }
    proof {
        assert(tags@.subrange(0, tags@.len() as int) =~= tags@);
    }
    p
}

/// The pattern number of the feedback the answer gives the guess. Patterns
/// are equal exactly when the feedback per position is the same.
pub fn get_pattern_from_guess(answer: &Vec<u8>, guess: &Vec<u8>) -> (p: usize)
    requires
        answer@.len() == guess@.len(),
        pow3(guess@.len()) <= usize::MAX as nat + 1,
    ensures
        p == spec_pattern(answer@, guess@),
{
    let tags = classify(answer, guess);
    encode_pattern(&tags)
}

} // verus!
