//! Narrowing a candidate pool to the words consistent with a restriction set.

use vstd::prelude::*;
use crate::words::count_byte;
use crate::restrict::Restrictions;

verus! {

/// Whether the word `w` is consistent with the single restriction `r`.
pub open spec fn spec_satisfies(w: Seq<u8>, r: Restrictions) -> bool {
    match r {
        Restrictions::AtPosition(c, p) => p < w.len() && w[p as int] == c,
        Restrictions::NotAtPosition(c, p) => p < w.len() && w[p as int] != c,
        Restrictions::Count(c, lo, hi) => lo <= count_byte(w, c) && count_byte(w, c) <= hi,
    }
}

/// Whether the word `w` is consistent with every restriction in `rs`.
pub open spec fn satisfies_all(w: Seq<u8>, rs: Seq<Restrictions>) -> bool {
    forall|k: int| 0 <= k < rs.len() ==> spec_satisfies(w, #[trigger] rs[k])
}

/// The test a word must pass to survive a round of feedback.
pub open spec fn keeps_word(rs: Seq<Restrictions>) -> spec_fn(Seq<u8>) -> bool {
    |w: Seq<u8>| satisfies_all(w, rs)
}

/// Filtering one pushed element either keeps it at the end or drops it.
pub proof fn lemma_filter_push<A>(s: Seq<A>, x: A, pred: spec_fn(A) -> bool)
    ensures
        s.push(x).filter(pred) == if pred(x) {
            s.filter(pred).push(x)
        } else {
            s.filter(pred)
        },
{
    reveal(Seq::filter);
    assert(s.push(x).drop_last() =~= s);
    assert(s.push(x).last() == x);
}

/// A sequence whose members all pass the test is unchanged by filtering.
pub proof fn lemma_filter_all_pass<A>(s: Seq<A>, pred: spec_fn(A) -> bool)
    requires
        forall|i: int| 0 <= i < s.len() ==> pred(#[trigger] s[i]),
    ensures
        s.filter(pred) == s,
    decreases s.len(),
{
    reveal(Seq::filter);
    if s.len() > 0 {
        lemma_filter_all_pass(s.drop_last(), pred);
        assert(s.drop_last().push(s.last()) =~= s);
    }
}

/// Applying the same restriction set twice narrows a pool no further than
/// applying it once: filtering is idempotent.
pub proof fn lemma_filter_idempotent(pool: Seq<Seq<u8>>, rs: Seq<Restrictions>)
    ensures
        pool.filter(keeps_word(rs)).filter(keeps_word(rs)) == pool.filter(keeps_word(rs)),
{
    let once = pool.filter(keeps_word(rs));
    assert forall|i: int| 0 <= i < once.len() implies keeps_word(rs)(#[trigger] once[i]) by {
        pool.lemma_filter_pred(keeps_word(rs), i);
    }
    lemma_filter_all_pass(once, keeps_word(rs));
}

/// A restriction set never widens a pool.
pub proof fn lemma_filter_never_grows(pool: Seq<Seq<u8>>, rs: Seq<Restrictions>)
    ensures
        pool.filter(keeps_word(rs)).len() <= pool.len(),
{
    pool.lemma_filter_len(keeps_word(rs));
}

/// A word that is in the pool and consistent with every restriction survives.
pub proof fn lemma_filter_keeps_consistent_word(
    pool: Seq<Seq<u8>>,
    rs: Seq<Restrictions>,
    w: Seq<u8>,
)
    requires
        pool.contains(w),
        satisfies_all(w, rs),
    ensures
        pool.filter(keeps_word(rs)).contains(w),
{
    let i = choose|i: int| 0 <= i < pool.len() && pool[i] == w;
    pool.lemma_filter_contains(keeps_word(rs), i);
}

/// Whether the word `w` is consistent with every restriction in `rs`.
pub fn word_satisfies(w: &Vec<u8>, rs: &Vec<Restrictions>) -> (ok: bool)
    ensures
        ok == satisfies_all(w@, rs@),
{
    let mut k: usize = 0;
    while k < rs.len()
        invariant
            0 <= k <= rs.len(),
            forall|j: int| 0 <= j < k ==> spec_satisfies(w@, #[trigger] rs@[j]),
        decreases rs.len() - k,
    {
        let holds = match rs[k] {
            Restrictions::AtPosition(c, p) => p < w.len() && w[p] == c,
            Restrictions::NotAtPosition(c, p) => p < w.len() && w[p] != c,
            Restrictions::Count(c, lo, hi) => {
                let n = crate::words::count_letter(w, c);
                lo <= n && n <= hi
            },
        };
        if !holds {
            proof {
                assert(!spec_satisfies(w@, rs@[k as int]));
            }
            return false;
        }
        k = k + 1;
    }
    true
}

/// Keeps exactly the words of the pool that are consistent with every
/// restriction, in their original order.
pub fn update_words_from_restrictions(words: &Vec<Vec<u8>>, rs: &Vec<Restrictions>) -> (out: Vec<
    Vec<u8>,
>)
    ensures
        out.deep_view() == words.deep_view().filter(keeps_word(rs@)),
{
    let mut out: Vec<Vec<u8>> = Vec::new();
    let mut i: usize = 0;
    proof {
        assert(out.deep_view() =~= words.deep_view().take(0int).filter(keeps_word(rs@)));
    }
    while i < words.len()
        invariant
            0 <= i <= words.len(),
            out.deep_view() == words.deep_view().take(i as int).filter(keeps_word(rs@)),
        decreases words.len() - i,
    {
        proof {
            lemma_filter_push(
                words.deep_view().take(i as int),
                words.deep_view()[i as int],
                keeps_word(rs@),
            );
            assert(words.deep_view().take(i + 1) =~= words.deep_view().take(i as int).push(
                words.deep_view()[i as int],
            ));
        }
        if word_satisfies(&words[i], rs) {
            let w = crate::words::clone_word(&words[i]);
            out.push(w);
            proof {
                assert(words.deep_view()[i as int] =~= words@[i as int]@);
                assert(w.deep_view() =~= words.deep_view()[i as int]);
                assert(out.deep_view() =~= words.deep_view().take(i + 1).filter(keeps_word(rs@)));
            }
        } else {
            proof {
                assert(!satisfies_all(words.deep_view()[i as int], rs@)) by {
                    assert(words.deep_view()[i as int] =~= words@[i as int]@);
                }
            }
        }
        i = i + 1;
    }
    proof {
        assert(words.deep_view().take(words@.len() as int) =~= words.deep_view());
    }
    out
}

} // verus!
