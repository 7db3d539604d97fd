//! Global laws of the engine that relate several of its functions:
//! every matrix cell is the best achievable score over all alignment
//! paths and the traceback is a path achieving it, and aligning a
//! sequence with itself under the default scoring rule is all-Align.

use vstd::prelude::*;

use crate::matrix::dp;
use crate::scoring::ScoreModel;
use crate::similarity::spec_dis_correct;
use crate::similarity::spec_num_correct;
use crate::steps::Step;
use crate::steps::traceback;

verus! {

/// A step sequence aligns exactly the prefixes `a[0..i)` and
/// `b[0..j)`: read backwards, each step consumes the last remaining
/// position of one or both prefixes, down to nothing.
pub open spec fn is_path(steps: Seq<Step>, i: int, j: int) -> bool
    decreases steps.len(),
{
    if steps.len() == 0 {
        i == 0 && j == 0
    } else {
        match steps.last() {
            Step::Align { x, y } => x == i - 1 && y == j - 1 && is_path(
                steps.drop_last(),
                i - 1,
                j - 1,
            ),
            Step::Delete { x } => x == i - 1 && is_path(steps.drop_last(), i - 1, j),
            Step::Insert { y } => y == j - 1 && is_path(steps.drop_last(), i, j - 1),
        }
    }
}

/// The total score of a path: the model's score for each aligned pair
/// of tokens, the gap cost for each consumed position left unpaired.
pub open spec fn path_score(
    m: ScoreModel,
    gap: int,
    a: Seq<Seq<char>>,
    b: Seq<Seq<char>>,
    steps: Seq<Step>,
) -> int
    decreases steps.len(),
{
    if steps.len() == 0 {
        0
    } else {
        path_score(m, gap, a, b, steps.drop_last()) + (match steps.last() {
            Step::Align { x, y } => m.compare(a[x as int], b[y as int]),
            Step::Delete { x } => gap,
            Step::Insert { y } => gap,
        })
    }
}

/// No path that aligns the prefixes `a[0..i)` and `b[0..j)` scores more
/// than the matrix cell `(i, j)`: the cell is an upper bound on every
/// achievable alignment score.
pub proof fn lemma_path_score_bounded(
    m: ScoreModel,
    gap: int,
    a: Seq<Seq<char>>,
    b: Seq<Seq<char>>,
    i: int,
    j: int,
    steps: Seq<Step>,
)
    requires
        0 <= i,
        0 <= j,
        is_path(steps, i, j),
    ensures
        path_score(m, gap, a, b, steps) <= dp(m, gap, a, b, i, j),
    decreases steps.len(),
{
    if steps.len() == 0 {
    } else {
        match steps.last() {
            Step::Align { x, y } => {
                lemma_path_score_bounded(m, gap, a, b, i - 1, j - 1, steps.drop_last());
                assert(dp(m, gap, a, b, i, j) >= dp(m, gap, a, b, i - 1, j - 1) + m.compare(
                    a[i - 1],
                    b[j - 1],
                ));
            },
            Step::Delete { x } => {
                lemma_path_score_bounded(m, gap, a, b, i - 1, j, steps.drop_last());
                assert(dp(m, gap, a, b, i, j) >= dp(m, gap, a, b, i - 1, j) + gap);
            },
            Step::Insert { y } => {
                lemma_path_score_bounded(m, gap, a, b, i, j - 1, steps.drop_last());
                assert(dp(m, gap, a, b, i, j) >= dp(m, gap, a, b, i, j - 1) + gap);
            },
        }
    }
}

/// The traceback is itself a path aligning the two prefixes in full,
/// and its score is exactly the matrix cell it starts from. With the
/// upper bound above, every cell holds the maximum achievable
/// alignment score of its prefixes, and the engine returns a path
/// attaining it.
pub proof fn lemma_traceback_is_optimal_path(
    m: ScoreModel,
    gap: int,
    a: Seq<Seq<char>>,
    b: Seq<Seq<char>>,
    i: int,
    j: int,
)
    requires
        0 <= i <= usize::MAX,
        0 <= j <= usize::MAX,
    ensures
        is_path(traceback(m, gap, a, b, i, j), i, j),
        path_score(m, gap, a, b, traceback(m, gap, a, b, i, j)) == dp(m, gap, a, b, i, j),
    decreases i + j,
{
    let steps = traceback(m, gap, a, b, i, j);
    if i == 0 && j == 0 {
    } else {
        let (pi, pj): (int, int) = if i > 0 && j > 0 {
            if dp(m, gap, a, b, i, j) == dp(m, gap, a, b, i - 1, j - 1) + m.compare(
                a[i - 1],
                b[j - 1],
            ) {
                (i - 1, j - 1)
            } else if dp(m, gap, a, b, i, j) == dp(m, gap, a, b, i - 1, j) + gap {
                (i - 1, j)
            } else {
                (i, j - 1)
            }
        } else if i > 0 {
            (i - 1, 0)
        } else {
            (0, j - 1)
        };
        lemma_traceback_is_optimal_path(m, gap, a, b, pi, pj);
        let prefix = traceback(m, gap, a, b, pi, pj);
        assert(steps.drop_last() =~= prefix);
    }
}

/// The default scoring rule: no table, match scores `1`, mismatch `-1`.
pub open spec fn default_model() -> ScoreModel {
    ScoreModel { table: Seq::empty(), match_score: 1, mismatch_score: -1 }
}

/// The all-Align path that consumes position `t` of both sequences at
/// step `t`.
pub open spec fn self_steps(i: int) -> Seq<Step> {
    Seq::new(i as nat, |t: int| Step::Align { x: t as usize, y: t as usize })
}

/// Under default scoring with gap cost `-1`, a cell's value never
/// exceeds three times the shorter prefix length minus the total
/// prefix length: every path scores at most `1` per diagonal move and
/// `-1` per gap.
proof fn lemma_dp_default_upper(a: Seq<Seq<char>>, b: Seq<Seq<char>>, i: int, j: int)
    requires
        0 <= i,
        0 <= j,
    ensures
        dp(default_model(), -1, a, b, i, j) <= 3 * vstd::math::min(i, j) - i - j,
    decreases i + j,
{
    if i == 0 && j == 0 {
    } else if i == 0 {
        lemma_dp_default_upper(a, b, 0, j - 1);
    } else if j == 0 {
        lemma_dp_default_upper(a, b, i - 1, 0);
    } else {
        lemma_dp_default_upper(a, b, i - 1, j - 1);
        lemma_dp_default_upper(a, b, i - 1, j);
        lemma_dp_default_upper(a, b, i, j - 1);
        assert(default_model().compare(a[i - 1], b[j - 1]) <= 1);
    }
}

/// Under default scoring with gap cost `-1`, the diagonal of a
/// sequence aligned with itself holds exactly the prefix length: one
/// match score per position.
proof fn lemma_dp_self_diag(a: Seq<Seq<char>>, i: int)
    requires
        0 <= i,
    ensures
        dp(default_model(), -1, a, a, i, i) == i,
    decreases i,
{
    if i > 0 {
        lemma_dp_self_diag(a, i - 1);
        lemma_dp_default_upper(a, a, i - 1, i);
        lemma_dp_default_upper(a, a, i, i - 1);
        assert(default_model().compare(a[i - 1], a[i - 1]) == 1);
    }
}

/// The traceback of a self-alignment under default scoring takes the
/// diagonal at every cell.
proof fn lemma_self_traceback(a: Seq<Seq<char>>, i: int)
    requires
        0 <= i <= usize::MAX,
    ensures
        traceback(default_model(), -1, a, a, i, i) == self_steps(i),
    decreases i,
{
    if i == 0 {
        assert(traceback(default_model(), -1, a, a, 0, 0) =~= self_steps(0));
    } else {
        lemma_self_traceback(a, i - 1);
        lemma_dp_self_diag(a, i);
        lemma_dp_self_diag(a, i - 1);
        assert(default_model().compare(a[i - 1], a[i - 1]) == 1);
        assert(traceback(default_model(), -1, a, a, i, i) == traceback(
            default_model(), -1, a, a, i - 1, i - 1).push(
            Step::Align { x: (i - 1) as usize, y: (i - 1) as usize }));
        assert(self_steps(i - 1).push(
            Step::Align { x: (i - 1) as usize, y: (i - 1) as usize }) =~= self_steps(i));
    }
}

/// Every step of the all-Align path is a correct match scoring the
/// default match score.
proof fn lemma_self_parts(a: Seq<Seq<char>>, i: int)
    requires
        0 <= i <= usize::MAX,
    ensures
        spec_num_correct(a, a, self_steps(i)) == i,
        spec_dis_correct(default_model(), a, a, self_steps(i)) == i,
    decreases i,
{
    if i == 0 {
    } else {
        lemma_self_parts(a, i - 1);
        assert(self_steps(i).drop_last() =~= self_steps(i - 1));
        assert(self_steps(i).last() == Step::Align { x: (i - 1) as usize, y: (i - 1) as usize });
        assert(default_model().compare(a[i - 1], a[i - 1]) == 1);
    }
}

/// Self-alignment: under default scoring (match `1`, mismatch `-1`,
/// gap `-1`) a sequence aligned with itself yields the all-Align step
/// sequence, an alignment score of one match score per token, and
/// similarity ingredients equal to the length — so both factors of the
/// similarity metric, `alignment_score / dis_correct` and
/// `num_correct / steps`, are exactly one.
pub proof fn lemma_self_alignment(a: Seq<Seq<char>>)
    requires
        a.len() <= usize::MAX,
    ensures
        traceback(default_model(), -1, a, a, a.len() as int, a.len() as int) == self_steps(
            a.len() as int,
        ),
        dp(default_model(), -1, a, a, a.len() as int, a.len() as int) == a.len(),
        spec_num_correct(a, a, self_steps(a.len() as int)) == a.len(),
        spec_dis_correct(default_model(), a, a, self_steps(a.len() as int)) == a.len(),
        self_steps(a.len() as int).len() == a.len(),
{
    lemma_self_traceback(a, a.len() as int);
    lemma_dp_self_diag(a, a.len() as int);
    lemma_self_parts(a, a.len() as int);
}

} // verus!
