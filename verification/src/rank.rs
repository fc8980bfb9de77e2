//! Pattern statistics behind the entropy score of a prospective guess.

use vstd::prelude::*;
use itertools::Itertools;
use crate::pattern::{spec_pattern, pow3, get_pattern_from_guess};

verus! {

/// How many of the first `n` entries of `s` equal `v`.
pub open spec fn count_val_upto(s: Seq<usize>, v: usize, n: int) -> nat
    decreases n,
{
    if n <= 0 {
        0
    } else {
        count_val_upto(s, v, n - 1) + if s[n - 1] == v {
            1nat
        } else {
            0nat
        }
    }
}

/// How many entries of `s` equal `v`.
pub open spec fn count_val(s: Seq<usize>, v: usize) -> nat {
    count_val_upto(s, v, s.len() as int)
}

/// What a correct tally of `pats` looks like: one pair per distinct pattern,
/// each carrying that pattern's occurrence count, in no particular order.
pub open spec fn counts_of(pats: Seq<usize>, r: Seq<(usize, usize)>) -> bool {
    &&& forall|k: int| 0 <= k < r.len() ==> (#[trigger] r[k]).1 == count_val(pats, r[k].0)
    &&& forall|k: int| 0 <= k < r.len() ==> pats.contains((#[trigger] r[k]).0)
    &&& forall|k1: int, k2: int|
        0 <= k1 < k2 < r.len() ==> (#[trigger] r[k1]).0 != (#[trigger] r[k2]).0
    &&& forall|x: usize| #[trigger] pats.contains(x) ==> exists|k: int|
        0 <= k < r.len() && (#[trigger] r[k]).0 == x
}

/// Relies on itertools::Itertools::counts: it returns a map that holds each
/// distinct element of the input together with the number of times the element
/// occurs; the order in which the map hands the pairs back is arbitrary.
#[verifier::external_body]
fn count_occurrences(v: &Vec<usize>) -> (r: Vec<(usize, usize)>)
    ensures
        counts_of(v@, r@),
{
    v.iter().copied().counts().into_iter().collect()
}

/// The pattern each pool word would answer the guess `g` with.
pub open spec fn pattern_fn(g: Seq<u8>) -> spec_fn(Seq<u8>) -> usize {
    |w: Seq<u8>| spec_pattern(w, g) as usize
}

/// The patterns the guess `g` would draw from each word of the pool, treated
/// in turn as the hypothetical answer.
pub open spec fn spec_patterns(pool: Seq<Seq<u8>>, g: Seq<u8>) -> Seq<usize> {
    pool.map_values(pattern_fn(g))
}

/// Tallies, for the candidate guess `word`, how often each feedback pattern
/// would arise were the answer drawn from the pool. The entropy of a guess is
/// a function of this tally alone: each pair's share of the pool is the
/// probability of its pattern group.
pub fn pattern_counts(word: &Vec<u8>, pool: &Vec<Vec<u8>>) -> (r: Vec<(usize, usize)>)
    requires
        forall|j: int| 0 <= j < pool@.len() ==> (#[trigger] pool@[j])@.len() == word@.len(),
        pow3(word@.len()) <= usize::MAX as nat + 1,
    ensures
        counts_of(spec_patterns(pool.deep_view(), word@), r@),
{
    let mut pats: Vec<usize> = Vec::new();
    let mut i: usize = 0;
    proof {
        assert(pats@ =~= pool.deep_view().take(0int).map_values(pattern_fn(word@)));
    }
    while i < pool.len()
        invariant
            0 <= i <= pool@.len(),
            forall|j: int| 0 <= j < pool@.len() ==> (#[trigger] pool@[j])@.len() == word@.len(),
            pow3(word@.len()) <= usize::MAX as nat + 1,
            pats@ == pool.deep_view().take(i as int).map_values(pattern_fn(word@)),
        decreases pool@.len() - i,
    {
        let p = get_pattern_from_guess(&pool[i], word);
        pats.push(p);
        proof {
            assert(pool.deep_view()[i as int] =~= pool@[i as int]@);
            assert(pats@ =~= pool.deep_view().take(i + 1).map_values(pattern_fn(word@)));
        }
        i = i + 1;
    }
    proof {
        assert(pool.deep_view().take(pool@.len() as int) =~= pool.deep_view());
    }
    count_occurrences(&pats)
}

/// A pool with a single candidate induces a single pattern group of count one:
/// the pattern has probability one, so any guess's expected information — the
/// entropy of this tally — is zero.
pub proof fn lemma_single_candidate_single_group(pats: Seq<usize>, r: Seq<(usize, usize)>)
    requires
        counts_of(pats, r),
        pats.len() == 1,
    ensures
        r.len() == 1,
        r[0].0 == pats[0],
        r[0].1 == 1,
{
    assert(pats.contains(pats[0]));
    let k0 = choose|k: int| 0 <= k < r.len() && r[k].0 == pats[0];
    assert(r.len() >= 1);
    assert forall|k: int| 0 <= k < r.len() implies (#[trigger] r[k]).0 == pats[0] by {
        assert(pats.contains(r[k].0));
        let i = choose|i: int| 0 <= i < pats.len() && pats[i] == r[k].0;
        assert(i == 0);
    }
    if r.len() >= 2 {
        assert(r[0].0 == pats[0] && r[1].0 == pats[0]);
        assert(false);
    }
    assert(count_val(pats, pats[0]) == count_val_upto(pats, pats[0], 1));
    assert(count_val_upto(pats, pats[0], 1) == count_val_upto(pats, pats[0], 0) + 1);
}

} // verus!
