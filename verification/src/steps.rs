//! Alignment steps and the traceback: walking the filled matrix from the
//! bottom-right cell back to the origin reconstructs one optimal path,
//! deterministically, with the diagonal move preferred over a delete and
//! a delete preferred over an insert when branches tie.

use vstd::prelude::*;

use crate::matrix::AlignmentMatrix;
use crate::matrix::MAX_SEQ_LEN;
use crate::matrix::dp;
use crate::matrix::lemma_dp_bound;
use crate::matrix::max2;
use crate::scoring::MAX_SCORE_MAG;
use crate::scoring::ScoreModel;
use crate::scoring::Scorer;
use crate::scoring::lemma_compare_bounded;
use crate::scoring::token_views;

verus! {

/// One step of an alignment: consume one token from each sequence
/// (`Align`), from the first only (`Delete`, a gap in the second), or
/// from the second only (`Insert`, a gap in the first).
#[derive(Clone, Copy, PartialEq, Eq, Structural, Debug)]
pub enum Step {
    Align { x: usize, y: usize },
    Delete { x: usize },
    Insert { y: usize },
}

/// The alignment path from cell `(i, j)` back to the origin, read
/// forward from the start of both sequences. At an inner cell the
/// diagonal move is taken whenever it reproduces the cell's value, then
/// the delete move, then the insert move.
pub open spec fn traceback(
    m: ScoreModel,
    gap: int,
    a: Seq<Seq<char>>,
    b: Seq<Seq<char>>,
    i: int,
    j: int,
) -> Seq<Step>
    decreases max2(i, 0) + max2(j, 0),
{
    if i <= 0 && j <= 0 {
        Seq::empty()
    } else if i > 0 && j > 0 {
        if dp(m, gap, a, b, i, j) == dp(m, gap, a, b, i - 1, j - 1) + m.compare(
            a[i - 1],
            b[j - 1],
        ) {
            traceback(m, gap, a, b, i - 1, j - 1).push(
                Step::Align { x: (i - 1) as usize, y: (j - 1) as usize },
            )
        } else if dp(m, gap, a, b, i, j) == dp(m, gap, a, b, i - 1, j) + gap {
            traceback(m, gap, a, b, i - 1, j).push(Step::Delete { x: (i - 1) as usize })
        } else {
            traceback(m, gap, a, b, i, j - 1).push(Step::Insert { y: (j - 1) as usize })
        }
    } else if i > 0 {
        traceback(m, gap, a, b, i - 1, 0).push(Step::Delete { x: (i - 1) as usize })
    } else {
        traceback(m, gap, a, b, 0, j - 1).push(Step::Insert { y: (j - 1) as usize })
    }
}

/// The x-indices that the Align and Delete steps consume, in order.
pub open spec fn xs(steps: Seq<Step>) -> Seq<int>
    decreases steps.len(),
{
    if steps.len() == 0 {
        Seq::empty()
    } else {
        xs(steps.drop_last()) + (match steps.last() {
            Step::Align { x, y } => seq![x as int],
            Step::Delete { x } => seq![x as int],
            Step::Insert { y } => Seq::empty(),
        })
    }
}

/// The y-indices that the Align and Insert steps consume, in order.
pub open spec fn ys(steps: Seq<Step>) -> Seq<int>
    decreases steps.len(),
{
    if steps.len() == 0 {
        Seq::empty()
    } else {
        ys(steps.drop_last()) + (match steps.last() {
            Step::Align { x, y } => seq![y as int],
            Step::Delete { x } => Seq::empty(),
            Step::Insert { y } => seq![y as int],
        })
    }
}

/// The step consumes positions that lie inside the prefixes `a[0..n)`
/// and `b[0..m)`.
pub open spec fn step_in_range(st: Step, n: int, m: int) -> bool {
    match st {
        Step::Align { x, y } => x < n && y < m,
        Step::Delete { x } => x < n,
        Step::Insert { y } => y < m,
    }
}

/// A traceback from `(i, j)` takes at most `i + j` steps, and every
/// step consumes a position inside the two prefixes.
pub proof fn lemma_traceback_in_range(
    m: ScoreModel,
    gap: int,
    a: Seq<Seq<char>>,
    b: Seq<Seq<char>>,
    i: int,
    j: int,
)
    requires
        0 <= i <= usize::MAX,
        0 <= j <= usize::MAX,
    ensures
        traceback(m, gap, a, b, i, j).len() <= i + j,
        forall|k: int|
            0 <= k < traceback(m, gap, a, b, i, j).len() ==> step_in_range(
                #[trigger] traceback(m, gap, a, b, i, j)[k],
                i,
                j,
            ),
    decreases i + j,
{
    let steps = traceback(m, gap, a, b, i, j);
    if i == 0 && j == 0 {
    } else {
        let (pi, pj): (int, int) = if i > 0 && j > 0 {
            if dp(m, gap, a, b, i, j) == dp(m, gap, a, b, i - 1, j - 1) + m.compare(
                a[i - 1],
                b[j - 1],
            ) {
                (i - 1, j - 1)
            } else if dp(m, gap, a, b, i, j) == dp(m, gap, a, b, i - 1, j) + gap {
                (i - 1, j)
            } else {
                (i, j - 1)
            }
        } else if i > 0 {
            (i - 1, 0)
        } else {
            (0, j - 1)
        };
        lemma_traceback_in_range(m, gap, a, b, pi, pj);
        let prefix = traceback(m, gap, a, b, pi, pj);
        assert(steps.len() == prefix.len() + 1);
        assert forall|k: int| 0 <= k < steps.len() implies step_in_range(#[trigger] steps[k], i, j) by {
            if k < prefix.len() {
                assert(steps[k] == prefix[k]);
                assert(step_in_range(prefix[k], pi, pj));
            } else {
                assert(steps[k] == steps.last());
            }
        }
    }
}

/// Step coverage: the traceback's Align/Delete steps consume the
/// x-positions `0 .. i` exactly once each and in order, and its
/// Align/Insert steps consume the y-positions `0 .. j` exactly once
/// each and in order.
pub proof fn lemma_step_coverage(
    m: ScoreModel,
    gap: int,
    a: Seq<Seq<char>>,
    b: Seq<Seq<char>>,
    i: int,
    j: int,
)
    requires
        0 <= i <= usize::MAX,
        0 <= j <= usize::MAX,
    ensures
        xs(traceback(m, gap, a, b, i, j)) == Seq::new(i as nat, |k: int| k),
        ys(traceback(m, gap, a, b, i, j)) == Seq::new(j as nat, |k: int| k),
    decreases i + j,
{
    let steps = traceback(m, gap, a, b, i, j);
    if i == 0 && j == 0 {
        assert(xs(steps) =~= Seq::new(0, |k: int| k));
        assert(ys(steps) =~= Seq::new(0, |k: int| k));
    } else {
        let (pi, pj): (int, int) = if i > 0 && j > 0 {
            if dp(m, gap, a, b, i, j) == dp(m, gap, a, b, i - 1, j - 1) + m.compare(
                a[i - 1],
                b[j - 1],
            ) {
                (i - 1, j - 1)
            } else if dp(m, gap, a, b, i, j) == dp(m, gap, a, b, i - 1, j) + gap {
                (i - 1, j)
            } else {
                (i, j - 1)
            }
        } else if i > 0 {
            (i - 1, 0)
        } else {
            (0, j - 1)
        };
        lemma_step_coverage(m, gap, a, b, pi, pj);
        let prefix = traceback(m, gap, a, b, pi, pj);
        assert(steps.drop_last() =~= prefix);
        assert(xs(steps) =~= Seq::new(i as nat, |k: int| k));
        assert(ys(steps) =~= Seq::new(j as nat, |k: int| k));
    }
}

/// Reconstruct the optimal path for the whole of both sequences from
/// the filled matrix, reading from the start of both sequences.
pub fn run(
    mat: &AlignmentMatrix,
    a: &Vec<String>,
    b: &Vec<String>,
    scorer: &Scorer,
    gap_score: i64,
) -> (steps: Vec<Step>)
    requires
        mat.wf(),
        mat.spec_model() == scorer@,
        mat.spec_gap() == gap_score as int,
        mat.spec_a() == token_views(a@),
        mat.spec_b() == token_views(b@),
        a@.len() <= MAX_SEQ_LEN,
        b@.len() <= MAX_SEQ_LEN,
        scorer@.bounded(MAX_SCORE_MAG as int),
        -MAX_SCORE_MAG <= gap_score <= MAX_SCORE_MAG,
    ensures
        steps@ == traceback(
            scorer@,
            gap_score as int,
            token_views(a@),
            token_views(b@),
            a@.len() as int,
            b@.len() as int,
        ),
{
    let ghost mdl = scorer@;
    let ghost gp = gap_score as int;
    let ghost av = token_views(a@);
    let ghost bv = token_views(b@);
    let n = a.len();
    let m = b.len();
    proof {
        assert(av.len() == n && bv.len() == m);
    }
    let mut i = n;
    let mut j = m;
    let mut steps: Vec<Step> = Vec::new();
    proof {
        assert(traceback(mdl, gp, av, bv, n as int, m as int) =~= traceback(
            mdl, gp, av, bv, i as int, j as int) + steps@);
    }
    while i > 0 || j > 0
        invariant
            i <= n,
            j <= m,
            n <= MAX_SEQ_LEN,
            m <= MAX_SEQ_LEN,
            n == a@.len(),
            m == b@.len(),
            mat.wf(),
            mat.spec_model() == mdl,
            mat.spec_gap() == gp,
            mat.spec_a() == av,
            mat.spec_b() == bv,
            mdl == scorer@,
            mdl.bounded(MAX_SCORE_MAG as int),
            gp == gap_score as int,
            -MAX_SCORE_MAG <= gap_score <= MAX_SCORE_MAG,
            av == token_views(a@),
            bv == token_views(b@),
            traceback(mdl, gp, av, bv, n as int, m as int) == traceback(
                mdl, gp, av, bv, i as int, j as int) + steps@,
        decreases i + j,
    {
        let ghost old_steps = steps@;
        if i > 0 && j > 0 {
            let here = mat.at(i, j);
            proof {
                lemma_dp_bound(mdl, gp, av, bv, i as int - 1, j as int - 1);
                lemma_dp_bound(mdl, gp, av, bv, i as int - 1, j as int);
                lemma_compare_bounded(mdl, av[i as int - 1], bv[j as int - 1],
                    MAX_SCORE_MAG as int);
                assert(av[i as int - 1] == a@[i as int - 1]@);
                assert(bv[j as int - 1] == b@[j as int - 1]@);
            }
            let diag = mat.at(i - 1, j - 1);
            let cmp = scorer.compare(&a[i - 1], &b[j - 1]);
            if here == diag + cmp {
                let st = Step::Align { x: i - 1, y: j - 1 };
                proof {
                    assert(traceback(mdl, gp, av, bv, i as int, j as int) == traceback(
                        mdl, gp, av, bv, i as int - 1, j as int - 1).push(st));
                }
                steps.insert(0, st);
                proof {
                    assert(steps@ =~= seq![st] + old_steps);
                    assert(traceback(mdl, gp, av, bv, n as int, m as int) =~= traceback(
                        mdl, gp, av, bv, i as int - 1, j as int - 1) + steps@);
                }
                i = i - 1;
                j = j - 1;
            } else {
                let up = mat.at(i - 1, j);
                if here == up + gap_score {
                    let st = Step::Delete { x: i - 1 };
                    proof {
                        assert(traceback(mdl, gp, av, bv, i as int, j as int) == traceback(
                            mdl, gp, av, bv, i as int - 1, j as int).push(st));
                    }
                    steps.insert(0, st);
                    proof {
                        assert(steps@ =~= seq![st] + old_steps);
                        assert(traceback(mdl, gp, av, bv, n as int, m as int) =~= traceback(
                            mdl, gp, av, bv, i as int - 1, j as int) + steps@);
                    }
                    i = i - 1;
                } else {
                    let st = Step::Insert { y: j - 1 };
                    proof {
                        assert(traceback(mdl, gp, av, bv, i as int, j as int) == traceback(
                            mdl, gp, av, bv, i as int, j as int - 1).push(st));
                    }
                    steps.insert(0, st);
                    proof {
                        assert(steps@ =~= seq![st] + old_steps);
                        assert(traceback(mdl, gp, av, bv, n as int, m as int) =~= traceback(
                            mdl, gp, av, bv, i as int, j as int - 1) + steps@);
                    }
                    j = j - 1;
                }
            }
        } else if i > 0 {
            let st = Step::Delete { x: i - 1 };
            proof {
                assert(traceback(mdl, gp, av, bv, i as int, j as int) == traceback(
                    mdl, gp, av, bv, i as int - 1, 0).push(st));
            }
            steps.insert(0, st);
            proof {
                assert(steps@ =~= seq![st] + old_steps);
                assert(traceback(mdl, gp, av, bv, n as int, m as int) =~= traceback(
                    mdl, gp, av, bv, i as int - 1, 0) + steps@);
            }
            i = i - 1;
        } else {
            let st = Step::Insert { y: j - 1 };
            proof {
                assert(traceback(mdl, gp, av, bv, i as int, j as int) == traceback(
                    mdl, gp, av, bv, 0, j as int - 1).push(st));
            }
            steps.insert(0, st);
            proof {
                assert(steps@ =~= seq![st] + old_steps);
                assert(traceback(mdl, gp, av, bv, n as int, m as int) =~= traceback(
                    mdl, gp, av, bv, 0, j as int - 1) + steps@);
            }
            j = j - 1;
        }
    }
    proof {
        assert(traceback(mdl, gp, av, bv, 0, 0) =~= Seq::<Step>::empty());
        assert(traceback(mdl, gp, av, bv, n as int, m as int) =~= steps@);
    }
    steps
}

} // verus!
