//! The similarity metric's exact ingredients: over an alignment's steps,
//! the number of Align steps whose tokens are literally equal and the
//! accumulated compatibility score of those steps. The metric itself is
//! the ratio `(alignment_score / dis_correct) * (num_correct / steps)`,
//! with a sentinel when `num_correct` is zero; the ratio arithmetic is
//! the caller's, these counts are what it is computed from.

use vstd::prelude::*;

use crate::scoring::MAX_SCORE_MAG;
use crate::scoring::ScoreModel;
use crate::scoring::Scorer;
use crate::scoring::lemma_compare_bounded;
use crate::scoring::token_views;
use crate::steps::Step;
use crate::steps::step_in_range;

verus! {

/// Number of Align steps whose two tokens are literally equal.
pub open spec fn spec_num_correct(a: Seq<Seq<char>>, b: Seq<Seq<char>>, steps: Seq<Step>) -> int
    decreases steps.len(),
{
    if steps.len() == 0 {
        0
    } else {
        spec_num_correct(a, b, steps.drop_last()) + (match steps.last() {
            Step::Align { x, y } => if a[x as int] == b[y as int] {
                1int
            } else {
                0int
            },
            _ => 0int,
        })
    }
}

/// Sum of the model's score over the Align steps whose two tokens are
/// literally equal.
pub open spec fn spec_dis_correct(
    m: ScoreModel,
    a: Seq<Seq<char>>,
    b: Seq<Seq<char>>,
    steps: Seq<Step>,
) -> int
    decreases steps.len(),
{
    if steps.len() == 0 {
        0
    } else {
        spec_dis_correct(m, a, b, steps.drop_last()) + (match steps.last() {
            Step::Align { x, y } => if a[x as int] == b[y as int] {
                m.compare(a[x as int], b[y as int])
            } else {
                0int
            },
            _ => 0int,
        })
    }
}

/// Count the literally equal aligned positions and accumulate their
/// scores: the two integer ingredients of the similarity metric.
pub fn similarity_parts(
    a: &Vec<String>,
    b: &Vec<String>,
    steps: &Vec<Step>,
    scorer: &Scorer,
) -> (r: (usize, i64))
    requires
        steps@.len() <= 0x8000,
        scorer@.bounded(MAX_SCORE_MAG as int),
        forall|k: int|
            0 <= k < steps@.len() ==> step_in_range(
                #[trigger] steps@[k],
                a@.len() as int,
                b@.len() as int,
            ),
    ensures
        r.0 as int == spec_num_correct(token_views(a@), token_views(b@), steps@),
        r.1 as int == spec_dis_correct(scorer@, token_views(a@), token_views(b@), steps@),
{
    let ghost av = token_views(a@);
    let ghost bv = token_views(b@);
    let mut num: usize = 0;
    let mut dis: i64 = 0;
    let mut k: usize = 0;
    proof {
        assert(steps@.take(0) =~= Seq::<Step>::empty());
    }
    while k < steps.len()
        invariant
            k <= steps@.len(),
            steps@.len() <= 0x8000,
            num <= k,
            av == token_views(a@),
            bv == token_views(b@),
            scorer@.bounded(MAX_SCORE_MAG as int),
            forall|t: int|
                0 <= t < steps@.len() ==> step_in_range(
                    #[trigger] steps@[t],
                    a@.len() as int,
                    b@.len() as int,
                ),
            num as int == spec_num_correct(av, bv, steps@.take(k as int)),
            dis as int == spec_dis_correct(scorer@, av, bv, steps@.take(k as int)),
            -(k as int) * (MAX_SCORE_MAG as int) <= dis as int <= (k as int) * (
            MAX_SCORE_MAG as int),
        decreases steps@.len() - k,
    {
        let st = steps[k];
        match st {
            Step::Align { x, y } => {
                if a[x] == b[y] {
                    proof {
                        assert(av[x as int] == a@[x as int]@);
                        assert(bv[y as int] == b@[y as int]@);
                        lemma_compare_bounded(scorer@, av[x as int], bv[y as int],
                            MAX_SCORE_MAG as int);
                    }
                    let c = scorer.compare(&a[x], &b[y]);
                    num = num + 1;
                    dis = dis + c;
                }
            },
            _ => {},
        }
        proof {
            assert(steps@.take(k as int + 1).drop_last() =~= steps@.take(k as int));
            assert(steps@.take(k as int + 1).last() == steps@[k as int]);
        }
        k = k + 1;
    }
    proof {
        assert(steps@.take(steps@.len() as int) =~= steps@);
    }
    (num, dis)
}

/// No-match sentinel: when no token of `a` is literally equal to any
/// token of `b`, an alignment path within range has no correct match at
/// all, so the similarity evaluation yields its sentinel.
pub proof fn lemma_no_match(a: Seq<Seq<char>>, b: Seq<Seq<char>>, steps: Seq<Step>)
    requires
        forall|x: int, y: int|
            #![trigger a[x], b[y]]
            0 <= x < a.len() && 0 <= y < b.len() ==> a[x] != b[y],
        forall|k: int|
            0 <= k < steps.len() ==> step_in_range(#[trigger] steps[k], a.len() as int, b.len() as int),
    ensures
        spec_num_correct(a, b, steps) == 0,
    decreases steps.len(),
{
    if steps.len() > 0 {
        let prefix = steps.drop_last();
        assert forall|k: int|
            0 <= k < prefix.len() implies step_in_range(
            #[trigger] prefix[k],
            a.len() as int,
            b.len() as int,
        ) by {
            assert(prefix[k] == steps[k]);
        }
        lemma_no_match(a, b, prefix);
        assert(step_in_range(steps.last(), a.len() as int, b.len() as int));
    }
}

} // verus!
