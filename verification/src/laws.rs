//! Laws that tie the components together: feedback derived from the true
//! answer never eliminates that answer.

use vstd::prelude::*;
use crate::words::{count_byte, lemma_count_byte_le_len};
use crate::classify::{
    Tag, spec_classify, positions_with_tag_upto, lemma_positions_contains,
    lemma_positions_in_range, lemma_tag_characterization, lemma_tag_counts_bounded,
    lemma_exact_count_is_green, lemma_count_tag_mono, count_tag_upto, green_count,
    yellows_before,
};
use crate::restrict::{
    Restrictions, spec_unique, count_at_positions, spec_restrictions, spec_restrictions_of,
    count_restriction_fn, at_position_fn, not_at_position_fn, is_gray_letter,
    count_restriction_for,
};
use crate::filter::{
    spec_satisfies, satisfies_all, keeps_word, lemma_filter_keeps_consistent_word,
};

verus! {

/// Counting letter sightings over the position list of a tag is the same as
/// counting that tag directly.
pub proof fn lemma_count_at_positions_tags(tags: Seq<Tag>, g: Seq<u8>, t: Tag, c: u8, n: int)
    requires
        0 <= n <= g.len(),
        g.len() <= usize::MAX,
    ensures
        count_at_positions(g, positions_with_tag_upto(tags, t, n), c) == count_tag_upto(
            tags,
            g,
            t,
            c,
            n,
        ),
    decreases n,
{
    if n > 0 {
        lemma_count_at_positions_tags(tags, g, t, c, n - 1);
        let a = positions_with_tag_upto(tags, t, n - 1);
        let s = positions_with_tag_upto(tags, t, n);
        if tags[n - 1] == t {
            assert(s == a + seq![(n - 1) as usize]);
            assert(s.drop_last() =~= a);
            assert(s.last() == (n - 1) as usize);
        } else {
            assert(s =~= a);
        }
    }
}

/// True feedback never betrays its own answer: the restrictions built from
/// the classification of a guess against the answer are all satisfied by the
/// answer itself.
pub proof fn lemma_answer_satisfies_feedback_restrictions(ans: Seq<u8>, g: Seq<u8>)
    requires
        ans.len() == g.len(),
        g.len() <= usize::MAX,
    ensures
        satisfies_all(ans, spec_restrictions_of(ans, g)),
{
    let len = g.len() as int;
    let cls = spec_classify(ans, g);
    let gp = positions_with_tag_upto(cls, Tag::Exact, len);
    let yp = positions_with_tag_upto(cls, Tag::Present, len);
    let rs = spec_restrictions(g, gp, yp);
    let u = spec_unique(g);
    let counts_part = u.map_values(count_restriction_fn(g, gp, yp));
    let green_part = gp.map_values(at_position_fn(g));
    let yellow_part = yp.map_values(not_at_position_fn(g));
    assert(rs == counts_part + green_part + yellow_part);
    lemma_positions_in_range(cls, Tag::Exact, len);
    lemma_positions_in_range(cls, Tag::Present, len);

    assert forall|k: int| 0 <= k < rs.len() implies spec_satisfies(ans, #[trigger] rs[k]) by {
        if k < counts_part.len() {
            let c = u[k];
            assert(rs[k] == count_restriction_for(g, gp, yp, c));
            lemma_count_at_positions_tags(cls, g, Tag::Exact, c, len);
            lemma_count_at_positions_tags(cls, g, Tag::Present, c, len);
            lemma_tag_counts_bounded(ans, g, c);
            lemma_exact_count_is_green(ans, g, c, len);
            lemma_count_byte_le_len(ans, c, ans.len() as int);
            let lower = count_at_positions(g, gp, c) + count_at_positions(g, yp, c);
            assert(lower <= count_byte(ans, c));
            if is_gray_letter(g, gp, yp, c) {
                let i = choose|i: int|
                    0 <= i < g.len() && g[i] == c && !gp.contains(i as usize) && !yp.contains(
                        i as usize,
                    );
                lemma_positions_contains(cls, Tag::Exact, len, i as usize);
                lemma_positions_contains(cls, Tag::Present, len, i as usize);
                assert(cls[i] != Tag::Exact && cls[i] != Tag::Present);
                lemma_tag_characterization(ans, g, i);
                assert(count_byte(ans, c) <= green_count(ans, g, c) + yellows_before(
                    ans,
                    g,
                    c,
                    i,
                ));
                lemma_count_tag_mono(cls, g, Tag::Present, c, i, len);
                assert(count_byte(ans, c) <= lower);
            }
        } else if k < counts_part.len() + green_part.len() {
            let j = k - counts_part.len();
            let p = gp[j];
            assert(rs[k] == green_part[j]);
            assert(green_part[j] == Restrictions::AtPosition(g[p as int], p));
            assert(gp.contains(p));
            lemma_positions_contains(cls, Tag::Exact, len, p);
            lemma_tag_characterization(ans, g, p as int);
            assert(ans[p as int] == g[p as int]);
        } else {
            let j = k - counts_part.len() - green_part.len();
            let p = yp[j];
            assert(rs[k] == yellow_part[j]);
            assert(yellow_part[j] == Restrictions::NotAtPosition(g[p as int], p));
            assert(yp.contains(p));
            lemma_positions_contains(cls, Tag::Present, len, p);
            lemma_tag_characterization(ans, g, p as int);
            assert(ans[p as int] != g[p as int]);
        }
    }
}

/// Round trip: restricting a pool with the feedback the answer itself gave
/// for any guess always keeps the answer in the pool.
pub proof fn lemma_round_trip(pool: Seq<Seq<u8>>, ans: Seq<u8>, g: Seq<u8>)
    requires
        pool.contains(ans),
        ans.len() == g.len(),
        g.len() <= usize::MAX,
    ensures
        pool.filter(keeps_word(spec_restrictions_of(ans, g))).contains(ans),
{
    lemma_answer_satisfies_feedback_restrictions(ans, g);
    lemma_filter_keeps_consistent_word(pool, spec_restrictions_of(ans, g), ans);
}

} // verus!
