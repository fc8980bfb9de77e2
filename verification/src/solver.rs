//! The solver's round-by-round decisions and terminal states.

use vstd::prelude::*;
use crate::restrict::{Restrictions, spec_restrictions, convert_pos_to_restrictions};
use crate::filter::{keeps_word, update_words_from_restrictions};
use crate::words::clone_word;

verus! {

/// Where the solver stands after looking at its pool.
pub enum SolverOutcome {
    /// One candidate remains: it is the answer.
    Solved(Vec<u8>),
    /// No candidate remains: earlier feedback was inconsistent with the
    /// dictionary, a reportable end, not a failure.
    Exhausted,
    /// More than one candidate remains; another round is needed.
    Active,
}

/// What one round said about the current guess.
pub enum FeedbackEvent {
    /// The guess is not an accepted word; it leaves the pool and the round
    /// consumes no feedback.
    NotAWord,
    /// The positions reported green (first) and yellow (second).
    Feedback(Vec<usize>, Vec<usize>),
}

/// The test a word must pass to stay when another word is struck.
pub open spec fn is_not_word(w: Seq<u8>) -> spec_fn(Seq<u8>) -> bool {
    |x: Seq<u8>| x != w
}

/// Reads the terminal state off the pool: empty means exhausted, a single
/// word means solved, anything more stays active.
pub fn solver_outcome(pool: &Vec<Vec<u8>>) -> (r: SolverOutcome)
    ensures
        pool@.len() == 0 ==> r is Exhausted,
        pool@.len() == 1 ==> (r matches SolverOutcome::Solved(w) && w@ == pool@[0]@),
        pool@.len() > 1 ==> r is Active,
{
    if pool.len() == 0 {
        SolverOutcome::Exhausted
    } else if pool.len() == 1 {
        SolverOutcome::Solved(clone_word(&pool[0]))
    } else {
        SolverOutcome::Active
    }
}

/// Whether two words are the same sequence of letters.
pub fn words_equal(a: &Vec<u8>, b: &Vec<u8>) -> (r: bool)
    ensures
        r == (a@ == b@),
{
    if a.len() != b.len() {
        return false;
    }
    let mut i: usize = 0;
    while i < a.len()
        invariant
            0 <= i <= a@.len(),
            a@.len() == b@.len(),
            forall|j: int| 0 <= j < i ==> a@[j] == b@[j],
        decreases a@.len() - i,
    {
        if a[i] != b[i] {
            return false;
        }
        i = i + 1;
    }
    proof {
        assert(a@ =~= b@);
    }
    true
}

/// Strikes every copy of `w` from the pool, keeping the order of the rest.
pub fn remove_word(pool: &Vec<Vec<u8>>, w: &Vec<u8>) -> (out: Vec<Vec<u8>>)
    ensures
        out.deep_view() == pool.deep_view().filter(is_not_word(w@)),
{
    let mut out: Vec<Vec<u8>> = Vec::new();
    let mut i: usize = 0;
    proof {
        assert(out.deep_view() =~= pool.deep_view().take(0int).filter(is_not_word(w@)));
    }
    while i < pool.len()
        invariant
            0 <= i <= pool@.len(),
            out.deep_view() == pool.deep_view().take(i as int).filter(is_not_word(w@)),
        decreases pool@.len() - i,
    {
        proof {
            crate::filter::lemma_filter_push(
                pool.deep_view().take(i as int),
                pool.deep_view()[i as int],
                is_not_word(w@),
            );
            assert(pool.deep_view().take(i + 1) =~= pool.deep_view().take(i as int).push(
                pool.deep_view()[i as int],
            ));
            assert(pool.deep_view()[i as int] =~= pool@[i as int]@);
        }
        if !words_equal(&pool[i], w) {
            let kept = clone_word(&pool[i]);
            out.push(kept);
            proof {
                assert(kept.deep_view() =~= pool.deep_view()[i as int]);
                assert(out.deep_view() =~= pool.deep_view().take(i + 1).filter(is_not_word(w@)));
            }
        }
        i = i + 1;
    }
    proof {
        assert(pool.deep_view().take(pool@.len() as int) =~= pool.deep_view());
    }
    out
}

/// One decision step of the solver loop: a rejected guess leaves the pool
/// unweighed, accepted feedback narrows the pool to the words consistent with
/// the restrictions it induces.
pub fn solver_round(pool: &Vec<Vec<u8>>, guess: &Vec<u8>, ev: FeedbackEvent) -> (out: Vec<Vec<u8>>)
    requires
        (ev matches FeedbackEvent::Feedback(gp, yp) ==> gp@.len() + yp@.len() <= usize::MAX),
        (ev matches FeedbackEvent::Feedback(gp, yp) ==> forall|k: int|
            0 <= k < gp@.len() ==> #[trigger] gp@[k] < guess@.len()),
        (ev matches FeedbackEvent::Feedback(gp, yp) ==> forall|k: int|
            0 <= k < yp@.len() ==> #[trigger] yp@[k] < guess@.len()),
    ensures
        (ev matches FeedbackEvent::NotAWord ==> out.deep_view() == pool.deep_view().filter(
            is_not_word(guess@),
        )),
        (ev matches FeedbackEvent::Feedback(gp, yp) ==> out.deep_view()
            == pool.deep_view().filter(keeps_word(spec_restrictions(guess@, gp@, yp@)))),
{
    match ev {
        FeedbackEvent::NotAWord => remove_word(pool, guess),
        FeedbackEvent::Feedback(gp, yp) => {
            let rs = convert_pos_to_restrictions(guess, gp, yp);
            update_words_from_restrictions(pool, &rs)
        },
    }
}

} // verus!
