//! Feedback classification: which guess positions are exact, present, or
//! absent, with repeated letters capped by the answer's letter counts.

use vstd::prelude::*;
use crate::words::{count_byte, count_byte_upto, count_letter, lemma_count_byte_le_len};

verus! {

/// Per-position feedback for one guess letter.
#[derive(Clone, Copy, PartialEq, Eq, Structural, Debug)]
pub enum Tag {
    /// The letter stands at this very position in the answer ("green").
    Exact,
    /// The letter occurs in the answer, but not at this position ("yellow").
    Present,
    /// No further occurrence of the letter remains in the answer ("gray").
    Absent,
}

/// Whether position `i` of the guess matches the answer exactly.
pub open spec fn green_at(ans: Seq<u8>, g: Seq<u8>, i: int) -> bool {
    ans[i] == g[i]
}

/// How many positions `i < n` are exact matches carrying the letter `c`.
pub open spec fn green_count_upto(ans: Seq<u8>, g: Seq<u8>, c: u8, n: int) -> nat
    decreases n,
{
    if n <= 0 {
        0
    } else {
        green_count_upto(ans, g, c, n - 1) + if green_at(ans, g, n - 1) && g[n - 1] == c {
            1nat
        } else {
            0nat
        }
    }
}

/// How many exact matches over the whole guess carry the letter `c`.
pub open spec fn green_count(ans: Seq<u8>, g: Seq<u8>, c: u8) -> nat {
    green_count_upto(ans, g, c, g.len() as int)
}

/// How many positions `j < n` are tagged `t` and carry the guess letter `c`.
pub open spec fn count_tag_upto(tags: Seq<Tag>, g: Seq<u8>, t: Tag, c: u8, n: int) -> nat
    decreases n,
{
    if n <= 0 {
        0
    } else {
        count_tag_upto(tags, g, t, c, n - 1) + if tags[n - 1] == t && g[n - 1] == c {
            1nat
        } else {
            0nat
        }
    }
}

/// The feedback tags for guess positions before `n`.
///
/// Exact matches are decided per position. A non-matching position is tagged
/// `Present` only while the letter's exact matches anywhere in the guess plus
/// the `Present` tags already given to its left stay below the letter's count
/// in the answer, so a letter is never promised more often than the answer
/// holds it.
pub open spec fn classify_upto(ans: Seq<u8>, g: Seq<u8>, n: int) -> Seq<Tag>
    decreases n,
{
    if n <= 0 {
        Seq::empty()
    } else {
        let prev = classify_upto(ans, g, n - 1);
        let c = g[n - 1];
        let t = if green_at(ans, g, n - 1) {
            Tag::Exact
        } else if green_count(ans, g, c) + count_tag_upto(prev, g, Tag::Present, c, n - 1)
            < count_byte(ans, c) {
            Tag::Present
        } else {
            Tag::Absent
        };
        prev.push(t)
    }
}

/// The feedback the answer gives for the guess, one tag per position.
pub open spec fn spec_classify(ans: Seq<u8>, g: Seq<u8>) -> Seq<Tag> {
    classify_upto(ans, g, g.len() as int)
}

pub proof fn lemma_classify_upto_len(ans: Seq<u8>, g: Seq<u8>, n: int)
    ensures
        classify_upto(ans, g, n).len() == if n <= 0 {
            0int
        } else {
            n
        },
    decreases n,
{
    if n > 0 {
        lemma_classify_upto_len(ans, g, n - 1);
    }
}

/// Positions already decided never change as later positions are decided.
pub proof fn lemma_classify_agree(ans: Seq<u8>, g: Seq<u8>, m: int, n: int, j: int)
    requires
        0 <= j < m <= n,
    ensures
        classify_upto(ans, g, n)[j] == classify_upto(ans, g, m)[j],
    decreases n,
{
    if n > m {
        lemma_classify_upto_len(ans, g, n - 1);
        lemma_classify_agree(ans, g, m, n - 1, j);
    }
}

/// Counting tags up to `n` only reads tags before `n`.
pub proof fn lemma_count_tag_agree(
    t1: Seq<Tag>,
    t2: Seq<Tag>,
    g: Seq<u8>,
    t: Tag,
    c: u8,
    n: int,
)
    requires
        forall|j: int| 0 <= j < n ==> t1[j] == t2[j],
    ensures
        count_tag_upto(t1, g, t, c, n) == count_tag_upto(t2, g, t, c, n),
    decreases n,
{
    if n > 0 {
        lemma_count_tag_agree(t1, t2, g, t, c, n - 1);
    }
}

/// Tag counts only grow as more positions are taken in.
pub proof fn lemma_count_tag_mono(tags: Seq<Tag>, g: Seq<u8>, t: Tag, c: u8, m: int, n: int)
    requires
        m <= n,
    ensures
        count_tag_upto(tags, g, t, c, m) <= count_tag_upto(tags, g, t, c, n),
    decreases n - m,
{
    if m < n {
        lemma_count_tag_mono(tags, g, t, c, m, n - 1);
    }
}

/// `Present` tags given to the letter `c` left of position `i`.
pub open spec fn yellows_before(ans: Seq<u8>, g: Seq<u8>, c: u8, i: int) -> nat {
    count_tag_upto(spec_classify(ans, g), g, Tag::Present, c, i)
}

/// What each tag of the full classification means at its position.
pub proof fn lemma_tag_characterization(ans: Seq<u8>, g: Seq<u8>, i: int)
    requires
        ans.len() == g.len(),
        0 <= i < g.len(),
    ensures
        spec_classify(ans, g).len() == g.len(),
        (spec_classify(ans, g)[i] == Tag::Exact) <==> green_at(ans, g, i),
        (spec_classify(ans, g)[i] == Tag::Present) <==> (!green_at(ans, g, i) && green_count(
            ans,
            g,
            g[i],
        ) + yellows_before(ans, g, g[i], i) < count_byte(ans, g[i])),
{
    let len = g.len() as int;
    let cls = spec_classify(ans, g);
    lemma_classify_upto_len(ans, g, len);
    lemma_classify_upto_len(ans, g, i);
    lemma_classify_upto_len(ans, g, i + 1);
    if i + 1 <= len {
        lemma_classify_agree(ans, g, i + 1, len, i);
    }
    let prev = classify_upto(ans, g, i);
    assert(classify_upto(ans, g, i + 1)[i] == classify_upto(ans, g, i + 1).last());
    assert forall|j: int| 0 <= j < i implies prev[j] == cls[j] by {
        lemma_classify_agree(ans, g, i, len, j);
    }
    lemma_count_tag_agree(prev, cls, g, Tag::Present, g[i], i);
}

/// A letter is never tagged `Present` more often than the answer can still
/// supply it: whenever some `Present` tag for `c` exists among the first `n`
/// positions, the exact matches plus those tags stay within the answer's count.
pub proof fn lemma_claimed_bound(ans: Seq<u8>, g: Seq<u8>, c: u8, n: int)
    requires
        ans.len() == g.len(),
        0 <= n <= g.len(),
    ensures
        yellows_before(ans, g, c, n) > 0 ==> green_count(ans, g, c) + yellows_before(ans, g, c, n)
            <= count_byte(ans, c),
    decreases n,
{
    if n > 0 {
        lemma_claimed_bound(ans, g, c, n - 1);
        let cls = spec_classify(ans, g);
        if cls[n - 1] == Tag::Present && g[n - 1] == c {
            lemma_tag_characterization(ans, g, n - 1);
        }
    }
}

/// Exact matches with letter `c` never outnumber `c`'s occurrences in the answer.
pub proof fn lemma_green_le_count(ans: Seq<u8>, g: Seq<u8>, c: u8, n: int)
    requires
        ans.len() == g.len(),
        0 <= n <= g.len(),
    ensures
        green_count_upto(ans, g, c, n) <= count_byte_upto(ans, c, n),
    decreases n,
{
    if n > 0 {
        lemma_green_le_count(ans, g, c, n - 1);
    }
}

/// The `Exact` tags of the classification are exactly the exact matches.
pub proof fn lemma_exact_count_is_green(ans: Seq<u8>, g: Seq<u8>, c: u8, n: int)
    requires
        ans.len() == g.len(),
        0 <= n <= g.len(),
    ensures
        count_tag_upto(spec_classify(ans, g), g, Tag::Exact, c, n) == green_count_upto(
            ans,
            g,
            c,
            n,
        ),
    decreases n,
{
    if n > 0 {
        lemma_exact_count_is_green(ans, g, c, n - 1);
        lemma_tag_characterization(ans, g, n - 1);
    }
}

/// For any letter, the `Exact` and `Present` tags taken together never exceed
/// the letter's occurrence count in the answer.
pub proof fn lemma_tag_counts_bounded(ans: Seq<u8>, g: Seq<u8>, c: u8)
    requires
        ans.len() == g.len(),
    ensures
        count_tag_upto(spec_classify(ans, g), g, Tag::Exact, c, g.len() as int) + count_tag_upto(
            spec_classify(ans, g),
            g,
            Tag::Present,
            c,
            g.len() as int,
        ) <= count_byte(ans, c),
{
    let len = g.len() as int;
    lemma_exact_count_is_green(ans, g, c, len);
    if yellows_before(ans, g, c, len) > 0 {
        lemma_claimed_bound(ans, g, c, len);
    } else {
        lemma_green_le_count(ans, g, c, len);
    }
}

/// How many exact matches over the whole guess carry the letter `c`.
fn exec_green_count(answer: &Vec<u8>, guess: &Vec<u8>, c: u8) -> (n: usize)
    requires
        answer@.len() == guess@.len(),
    ensures
        n == green_count(answer@, guess@, c),
{
    let mut n: usize = 0;
    let mut i: usize = 0;
    while i < guess.len()
        invariant
            0 <= i <= guess.len(),
            answer@.len() == guess@.len(),
            n == green_count_upto(answer@, guess@, c, i as int),
            n <= i,
        decreases guess.len() - i,
    {
        if answer[i] == guess[i] && guess[i] == c {
            n = n + 1;
        }
        i = i + 1;
    }
    n
}

/// How many positions before `upto` are tagged `Present` and carry letter `c`.
fn exec_present_count(tags: &Vec<Tag>, guess: &Vec<u8>, c: u8, upto: usize) -> (n: usize)
    requires
        upto <= tags@.len(),
        upto <= guess@.len(),
    ensures
        n == count_tag_upto(tags@, guess@, Tag::Present, c, upto as int),
{
    let mut n: usize = 0;
    let mut j: usize = 0;
    while j < upto
        invariant
            0 <= j <= upto,
            upto <= tags@.len(),
            upto <= guess@.len(),
            n == count_tag_upto(tags@, guess@, Tag::Present, c, j as int),
            n <= j,
        decreases upto - j,
    {
        if tags[j] == Tag::Present && guess[j] == c {
            n = n + 1;
        }
        j = j + 1;
    }
    n
}

/// Tags every guess position: exact matches first, then, left to right,
/// `Present` while the answer still has unclaimed occurrences of the letter,
/// `Absent` otherwise.
pub fn classify(answer: &Vec<u8>, guess: &Vec<u8>) -> (tags: Vec<Tag>)
    requires
        answer@.len() == guess@.len(),
    ensures
        tags@ == spec_classify(answer@, guess@),
        tags@.len() == guess@.len(),
{
    let mut tags: Vec<Tag> = Vec::new();
    let mut i: usize = 0;
    proof {
        assert(tags@ =~= classify_upto(answer@, guess@, 0int));
    }
    while i < guess.len()
        invariant
            0 <= i <= guess.len(),
            answer@.len() == guess@.len(),
            tags@ == classify_upto(answer@, guess@, i as int),
            tags@.len() == i,
        decreases guess.len() - i,
    {
        proof {
            lemma_classify_upto_len(answer@, guess@, i as int);
        }
        let c = guess[i];
        let t = if answer[i] == c {
            Tag::Exact
        } else {
            let gcount = exec_green_count(answer, guess, c);
            let ycount = exec_present_count(&tags, guess, c, i);
            let total = count_letter(answer, c);
            if gcount < total && ycount < total - gcount {
                Tag::Present
            } else {
                Tag::Absent
            }
        };
        tags.push(t);
        i = i + 1;
    }
    proof {
        lemma_classify_upto_len(answer@, guess@, guess@.len() as int);
    }
    tags
}

/// Positions before `n` whose tag is `t`, in increasing order.
pub open spec fn positions_with_tag_upto(tags: Seq<Tag>, t: Tag, n: int) -> Seq<usize>
    decreases n,
{
    if n <= 0 {
        Seq::empty()
    } else {
        positions_with_tag_upto(tags, t, n - 1) + if tags[n - 1] == t {
            seq![(n - 1) as usize]
        } else {
            Seq::empty()
        }
    }
}

/// A position is listed for a tag exactly when it carries that tag.
pub proof fn lemma_positions_contains(tags: Seq<Tag>, t: Tag, n: int, p: usize)
    requires
        0 <= n <= usize::MAX,
    ensures
        positions_with_tag_upto(tags, t, n).contains(p) <==> (p < n && tags[p as int] == t),
    decreases n,
{
    let s = positions_with_tag_upto(tags, t, n);
    if n <= 0 {
        assert(s.len() == 0);
        assert(!s.contains(p));
    } else {
        let a = positions_with_tag_upto(tags, t, n - 1);
        lemma_positions_contains(tags, t, n - 1, p);
        if tags[n - 1] == t {
            assert(s == a + seq![(n - 1) as usize]);
            assert(s[a.len() as int] == (n - 1) as usize);
            if a.contains(p) {
                let i = choose|i: int| 0 <= i < a.len() && a[i] == p;
                assert(s[i] == p);
            }
            if s.contains(p) {
                let i = choose|i: int| 0 <= i < s.len() && s[i] == p;
                if i < a.len() {
                    assert(a[i] == p);
                } else {
                    assert(p == (n - 1) as usize);
                }
            }
        } else {
            assert(s =~= a);
        }
    }
}

/// Every listed position lies below `n`.
pub proof fn lemma_positions_in_range(tags: Seq<Tag>, t: Tag, n: int)
    requires
        0 <= n,
    ensures
        forall|k: int|
            0 <= k < positions_with_tag_upto(tags, t, n).len()
                ==> (#[trigger] positions_with_tag_upto(tags, t, n)[k]) < n,
    decreases n,
{
    let s = positions_with_tag_upto(tags, t, n);
    if n > 0 {
        lemma_positions_in_range(tags, t, n - 1);
        let a = positions_with_tag_upto(tags, t, n - 1);
        assert forall|k: int| 0 <= k < s.len() implies (#[trigger] s[k]) < n by {
            if k < a.len() {
                assert(s[k] == a[k]);
            }
        }
    }
}

/// The position lists of the classification: present ("yellow") positions
/// first, exact ("green") positions second, each in increasing order.
pub fn get_pos_from_guess(answer: &Vec<u8>, guess: &Vec<u8>) -> (r: (Vec<usize>, Vec<usize>))
    requires
        answer@.len() == guess@.len(),
    ensures
        r.0@ == positions_with_tag_upto(
            spec_classify(answer@, guess@),
            Tag::Present,
            guess@.len() as int,
        ),
        r.1@ == positions_with_tag_upto(
            spec_classify(answer@, guess@),
            Tag::Exact,
            guess@.len() as int,
        ),
{
    let tags = classify(answer, guess);
    let mut yellow_pos: Vec<usize> = Vec::new();
    let mut green_pos: Vec<usize> = Vec::new();
    let mut i: usize = 0;
    while i < tags.len()
        invariant
            0 <= i <= tags@.len(),
            tags@ == spec_classify(answer@, guess@),
            tags@.len() == guess@.len(),
            yellow_pos@ == positions_with_tag_upto(tags@, Tag::Present, i as int),
            green_pos@ == positions_with_tag_upto(tags@, Tag::Exact, i as int),
        decreases tags.len() - i,
    {
        if tags[i] == Tag::Present {
            yellow_pos.push(i);
            proof {
                assert(yellow_pos@ =~= positions_with_tag_upto(tags@, Tag::Present, i + 1));
                assert(green_pos@ =~= positions_with_tag_upto(tags@, Tag::Exact, i + 1));
            }
        } else if tags[i] == Tag::Exact {
            green_pos.push(i);
            proof {
                assert(yellow_pos@ =~= positions_with_tag_upto(tags@, Tag::Present, i + 1));
                assert(green_pos@ =~= positions_with_tag_upto(tags@, Tag::Exact, i + 1));
            }
        } else {
            proof {
                assert(yellow_pos@ =~= positions_with_tag_upto(tags@, Tag::Present, i + 1));
                assert(green_pos@ =~= positions_with_tag_upto(tags@, Tag::Exact, i + 1));
            }
        }
        i = i + 1;
    }
    (yellow_pos, green_pos)
}

} // verus!
