//! Turning one round of feedback into positional and count restrictions.

use vstd::prelude::*;
use itertools::Itertools;
use crate::classify::{
    Tag, spec_classify, positions_with_tag_upto, lemma_positions_in_range,
};

verus! {

/// One constraint a surviving word must meet.
#[derive(Clone, Copy, PartialEq, Eq, Structural, Debug)]
pub enum Restrictions {
    /// The letter must stand at the position.
    AtPosition(u8, usize),
    /// The letter must not stand at the position.
    NotAtPosition(u8, usize),
    /// The letter must occur at least the first and at most the second
    /// number of times (both inclusive).
    Count(u8, usize, usize),
}

/// The distinct values of `s`, each at its first occurrence, in order.
pub open spec fn spec_unique(s: Seq<u8>) -> Seq<u8>
    decreases s.len(),
{
    if s.len() == 0 {
        Seq::empty()
    } else {
        spec_unique(s.drop_last()) + if s.drop_last().contains(s.last()) {
            Seq::empty()
        } else {
            seq![s.last()]
        }
    }
}

/// Relies on itertools::Itertools::unique: it filters out elements already
/// produced once, keeping the first occurrence of each distinct value, in the
/// order of the input.
#[verifier::external_body]
fn unique_letters(w: &Vec<u8>) -> (r: Vec<u8>)
    ensures
        r@ == spec_unique(w@),
{
    w.iter().copied().unique().collect()
}

/// How many listed positions are inside the word and carry the letter `c`.
pub open spec fn count_at_positions(word: Seq<u8>, pos: Seq<usize>, c: u8) -> nat
    decreases pos.len(),
{
    if pos.len() == 0 {
        0
    } else {
        count_at_positions(word, pos.drop_last(), c) + if pos.last() < word.len() && word[pos.last() as int] == c {
            1nat
        } else {
            0nat
        }
    }
}

/// Whether some position of the word carries `c` but is listed neither as
/// green nor as yellow: the feedback showed `c` there as gray.
pub open spec fn is_gray_letter(word: Seq<u8>, gp: Seq<usize>, yp: Seq<usize>, c: u8) -> bool {
    exists|i: int|
        0 <= i < word.len() && word[i] == c && !gp.contains(i as usize) && !yp.contains(i as usize)
}

/// The occurrence bound derived for letter `c`: at least the green and yellow
/// sightings; if some occurrence of `c` was gray, exactly that many, otherwise
/// at most the word length.
pub open spec fn count_restriction_for(word: Seq<u8>, gp: Seq<usize>, yp: Seq<usize>, c: u8) -> Restrictions {
    let lower = count_at_positions(word, gp, c) + count_at_positions(word, yp, c);
    let upper = if is_gray_letter(word, gp, yp, c) {
        lower
    } else {
        word.len()
    };
    Restrictions::Count(c, lower as usize, upper as usize)
}

pub open spec fn count_restriction_fn(word: Seq<u8>, gp: Seq<usize>, yp: Seq<usize>) -> spec_fn(u8) -> Restrictions {
    |c: u8| count_restriction_for(word, gp, yp, c)
}

pub open spec fn at_position_fn(word: Seq<u8>) -> spec_fn(usize) -> Restrictions {
    |p: usize| Restrictions::AtPosition(word[p as int], p)
}

pub open spec fn not_at_position_fn(word: Seq<u8>) -> spec_fn(usize) -> Restrictions {
    |p: usize| Restrictions::NotAtPosition(word[p as int], p)
}

/// The full restriction set for one round of feedback on `word`: one count
/// bound per distinct letter, one positional demand per green position, one
/// positional veto per yellow position.
pub open spec fn spec_restrictions(word: Seq<u8>, gp: Seq<usize>, yp: Seq<usize>) -> Seq<Restrictions> {
    spec_unique(word).map_values(count_restriction_fn(word, gp, yp)) + gp.map_values(
        at_position_fn(word),
    ) + yp.map_values(not_at_position_fn(word))
}

/// Whether the position list holds `x`.
fn pos_contains(pos: &Vec<usize>, x: usize) -> (r: bool)
    ensures
        r == pos@.contains(x),
{
    let mut k: usize = 0;
    while k < pos.len()
        invariant
            0 <= k <= pos.len(),
            forall|j: int| 0 <= j < k ==> pos@[j] != x,
        decreases pos.len() - k,
    {
        if pos[k] == x {
            proof {
                assert(pos@[k as int] == x);
            }
            return true;
        }
        k = k + 1;
    }
    proof {
        assert(!pos@.contains(x)) by {
            if pos@.contains(x) {
                let j = choose|j: int| 0 <= j < pos@.len() && pos@[j] == x;
            }
        }
    }
    false
}

/// How many listed positions carry the letter `c`.
fn count_at(word: &Vec<u8>, pos: &Vec<usize>, c: u8) -> (n: usize)
    ensures
        n == count_at_positions(word@, pos@, c),
{
    let mut n: usize = 0;
    let mut k: usize = 0;
    proof {
        assert(pos@.take(0int) =~= Seq::<usize>::empty());
    }
    while k < pos.len()
        invariant
            0 <= k <= pos.len(),
            n == count_at_positions(word@, pos@.take(k as int), c),
            n <= k,
        decreases pos.len() - k,
    {
        proof {
            assert(pos@.take(k + 1).drop_last() =~= pos@.take(k as int));
            assert(pos@.take(k + 1).last() == pos@[k as int]);
        }
        if pos[k] < word.len() && word[pos[k]] == c {
            n = n + 1;
        }
        k = k + 1;
    }
    proof {
        assert(pos@.take(pos@.len() as int) =~= pos@);
    }
    n
}

/// Whether the letter `c` was shown gray somewhere in the word.
fn exec_is_gray(word: &Vec<u8>, gp: &Vec<usize>, yp: &Vec<usize>, c: u8) -> (r: bool)
    ensures
        r == is_gray_letter(word@, gp@, yp@, c),
{
    let mut i: usize = 0;
    while i < word.len()
        invariant
            0 <= i <= word.len(),
            forall|j: int|
                0 <= j < i ==> !(word@[j] == c && !gp@.contains(j as usize) && !yp@.contains(
                    j as usize,
                )),
        decreases word.len() - i,
    {
        if word[i] == c && !pos_contains(gp, i) && !pos_contains(yp, i) {
            proof {
                assert(0 <= i < word@.len() && word@[i as int] == c && !gp@.contains(i)
                    && !yp@.contains(i));
            }
            return true;
        }
        i = i + 1;
    }
    proof {
        assert(!is_gray_letter(word@, gp@, yp@, c)) by {
            if is_gray_letter(word@, gp@, yp@, c) {
                let j = choose|j: int|
                    0 <= j < word@.len() && word@[j] == c && !gp@.contains(j as usize)
                        && !yp@.contains(j as usize);
            }
        }
    }
    false
}

/// Builds the restriction set from the green and yellow position lists of one
/// round of feedback on `word`; every unlisted position counts as gray.
pub fn convert_pos_to_restrictions(
    word: &Vec<u8>,
    green_pos: Vec<usize>,
    yellow_pos: Vec<usize>,
) -> (r: Vec<Restrictions>)
    requires
        green_pos@.len() + yellow_pos@.len() <= usize::MAX,
        forall|k: int| 0 <= k < green_pos@.len() ==> #[trigger] green_pos@[k] < word@.len(),
        forall|k: int| 0 <= k < yellow_pos@.len() ==> #[trigger] yellow_pos@[k] < word@.len(),
    ensures
        r@ == spec_restrictions(word@, green_pos@, yellow_pos@),
{
    let ghost cf = count_restriction_fn(word@, green_pos@, yellow_pos@);
    let ghost af = at_position_fn(word@);
    let ghost nf = not_at_position_fn(word@);

    let uniq = unique_letters(word);
    let mut r: Vec<Restrictions> = Vec::new();

    let mut k: usize = 0;
    proof {
        assert(r@ =~= spec_unique(word@).take(0int).map_values(cf));
    }
    while k < uniq.len()
        invariant
            0 <= k <= uniq.len(),
            uniq@ == spec_unique(word@),
            green_pos@.len() + yellow_pos@.len() <= usize::MAX,
            r@ == spec_unique(word@).take(k as int).map_values(cf),
            r@.len() == k,
            cf == count_restriction_fn(word@, green_pos@, yellow_pos@),
        decreases uniq.len() - k,
    {
        let c = uniq[k];
        let green_seen = count_at(word, &green_pos, c);
        let yellow_seen = count_at(word, &yellow_pos, c);
        proof {
            lemma_count_at_le_len(word@, green_pos@, c);
            lemma_count_at_le_len(word@, yellow_pos@, c);
        }
        let lower = green_seen + yellow_seen;
        let upper = if exec_is_gray(word, &green_pos, &yellow_pos, c) {
            lower
        } else {
            word.len()
        };
        r.push(Restrictions::Count(c, lower, upper));
        proof {
            assert(r@ =~= spec_unique(word@).take(k + 1).map_values(cf));
        }
        k = k + 1;
    }
    proof {
        assert(spec_unique(word@).take(uniq@.len() as int) =~= spec_unique(word@));
    }

    let ghost counts_part = spec_unique(word@).map_values(cf);
    let mut k: usize = 0;
    proof {
        assert(r@ =~= counts_part + green_pos@.take(0int).map_values(af));
    }
    while k < green_pos.len()
        invariant
            0 <= k <= green_pos.len(),
            forall|j: int| 0 <= j < green_pos@.len() ==> #[trigger] green_pos@[j] < word@.len(),
            r@ == counts_part + green_pos@.take(k as int).map_values(af),
            af == at_position_fn(word@),
            counts_part == spec_unique(word@).map_values(
                count_restriction_fn(word@, green_pos@, yellow_pos@),
            ),
        decreases green_pos.len() - k,
    {
        let p = green_pos[k];
        let letter = word[p];
        r.push(Restrictions::AtPosition(letter, p));
        proof {
            assert(r@ =~= counts_part + green_pos@.take(k + 1).map_values(af));
        }
        k = k + 1;
    }
    proof {
        assert(green_pos@.take(green_pos@.len() as int) =~= green_pos@);
    }

    let ghost head = counts_part + green_pos@.map_values(af);
    let mut k: usize = 0;
    proof {
        assert(r@ =~= head + yellow_pos@.take(0int).map_values(nf));
    }
    while k < yellow_pos.len()
        invariant
            0 <= k <= yellow_pos.len(),
            forall|j: int| 0 <= j < yellow_pos@.len() ==> #[trigger] yellow_pos@[j] < word@.len(),
            r@ == head + yellow_pos@.take(k as int).map_values(nf),
            nf == not_at_position_fn(word@),
            head == spec_unique(word@).map_values(
                count_restriction_fn(word@, green_pos@, yellow_pos@),
            ) + green_pos@.map_values(at_position_fn(word@)),
        decreases yellow_pos.len() - k,
    {
        let p = yellow_pos[k];
        let letter = word[p];
        r.push(Restrictions::NotAtPosition(letter, p));
        proof {
            assert(r@ =~= head + yellow_pos@.take(k + 1).map_values(nf));
        }
        k = k + 1;
    }
    proof {
        assert(yellow_pos@.take(yellow_pos@.len() as int) =~= yellow_pos@);
        assert(r@ =~= spec_restrictions(word@, green_pos@, yellow_pos@));
    }
    r
}

/// A position list yields at most one sighting per entry.
pub proof fn lemma_count_at_le_len(word: Seq<u8>, pos: Seq<usize>, c: u8)
    ensures
        count_at_positions(word, pos, c) <= pos.len(),
    decreases pos.len(),
{
    if pos.len() > 0 {
        lemma_count_at_le_len(word, pos.drop_last(), c);
    }
}

/// Green and yellow positions of one classification never overlap, so their
/// lists together have at most one entry per guess position.
pub proof fn lemma_positions_disjoint_len(tags: Seq<Tag>, n: int)
    requires
        0 <= n,
    ensures
        positions_with_tag_upto(tags, Tag::Exact, n).len() + positions_with_tag_upto(
            tags,
            Tag::Present,
            n,
        ).len() <= n,
    decreases n,
{
    if n > 0 {
        lemma_positions_disjoint_len(tags, n - 1);
    }
}

/// The restriction set that the answer's own feedback for `guess` induces.
pub open spec fn spec_restrictions_of(ans: Seq<u8>, guess: Seq<u8>) -> Seq<Restrictions> {
    spec_restrictions(
        guess,
        positions_with_tag_upto(spec_classify(ans, guess), Tag::Exact, guess.len() as int),
        positions_with_tag_upto(spec_classify(ans, guess), Tag::Present, guess.len() as int),
    )
}

/// Classifies the guess against the answer and converts the resulting
/// position lists into the round's restriction set.
pub fn get_restrictions_from_guess(answer: &Vec<u8>, guess: &Vec<u8>) -> (r: Vec<Restrictions>)
    requires
        answer@.len() == guess@.len(),
    ensures
        r@ == spec_restrictions_of(answer@, guess@),
{
    let (yellow_pos, green_pos) = crate::classify::get_pos_from_guess(answer, guess);
    let n = guess.len();
    proof {
        assert(guess@.len() == n && n <= usize::MAX);
        lemma_positions_disjoint_len(spec_classify(answer@, guess@), guess@.len() as int);
        lemma_positions_in_range(spec_classify(answer@, guess@), Tag::Exact, guess@.len() as int);
        lemma_positions_in_range(
            spec_classify(answer@, guess@),
            Tag::Present,
            guess@.len() as int,
        );
    }
    convert_pos_to_restrictions(guess, green_pos, yellow_pos)
}

} // verus!
