//! The alignment pipeline for one pair of sequences: fill the matrix,
//! trace the optimal path back, materialize the aligned token pairs with
//! a gap marker, and evaluate the similarity ingredients.

use vstd::prelude::*;

use crate::errors::AlignError;
use crate::matrix::AlignmentMatrix;
use crate::matrix::MAX_SEQ_LEN;
use crate::matrix::dp;
use crate::scoring::MAX_SCORE_MAG;
use crate::scoring::ScoreEntry;
use crate::scoring::ScoreModel;
use crate::scoring::Scorer;
use crate::scoring::token_views;
use crate::similarity::similarity_parts;
use crate::similarity::spec_dis_correct;
use crate::similarity::spec_num_correct;
use crate::steps::Step;
use crate::steps::lemma_traceback_in_range;
use crate::steps::step_in_range;
use crate::steps::traceback;

verus! {

/// The token written in place of a consumed position's partner when a
/// step leaves a gap.
pub open spec fn gap_marker() -> Seq<char> {
    seq!['-']
}

/// The character sequences of a materialized pair list.
pub open spec fn pair_views(ps: Seq<(String, String)>) -> Seq<(Seq<char>, Seq<char>)> {
    ps.map_values(|p: (String, String)| (p.0@, p.1@))
}

/// The aligned token pairs that a step sequence spells, a gap marker
/// standing in for the missing side of a Delete or Insert step.
pub open spec fn render(a: Seq<Seq<char>>, b: Seq<Seq<char>>, steps: Seq<Step>) -> Seq<
    (Seq<char>, Seq<char>),
>
    decreases steps.len(),
{
    if steps.len() == 0 {
        Seq::empty()
    } else {
        render(a, b, steps.drop_last()).push(
            match steps.last() {
                Step::Align { x, y } => (a[x as int], b[y as int]),
                Step::Delete { x } => (a[x as int], gap_marker()),
                Step::Insert { y } => (gap_marker(), b[y as int]),
            },
        )
    }
}

/// Materialize a step sequence as pairs of aligned tokens, writing `-`
/// where a step leaves a gap.
pub fn trace(x_seq: &Vec<String>, y_seq: &Vec<String>, steps: &Vec<Step>) -> (r: Vec<
    (String, String),
>)
    requires
        forall|k: int|
            0 <= k < steps@.len() ==> step_in_range(
                #[trigger] steps@[k],
                x_seq@.len() as int,
                y_seq@.len() as int,
            ),
    ensures
        pair_views(r@) == render(token_views(x_seq@), token_views(y_seq@), steps@),
        r@.len() == steps@.len(),
{
    let ghost av = token_views(x_seq@);
    let ghost bv = token_views(y_seq@);
    let mut r: Vec<(String, String)> = Vec::new();
    let mut k: usize = 0;
    proof {
        assert(steps@.take(0) =~= Seq::<Step>::empty());
        assert(pair_views(r@) =~= render(av, bv, steps@.take(0)));
    }
    while k < steps.len()
        invariant
            k <= steps@.len(),
            av == token_views(x_seq@),
            bv == token_views(y_seq@),
            forall|t: int|
                0 <= t < steps@.len() ==> step_in_range(
                    #[trigger] steps@[t],
                    x_seq@.len() as int,
                    y_seq@.len() as int,
                ),
            r@.len() == k,
            pair_views(r@) == render(av, bv, steps@.take(k as int)),
        decreases steps@.len() - k,
    {
        let st = steps[k];
        let pair: (String, String) = match st {
            Step::Align { x, y } => (x_seq[x].clone(), y_seq[y].clone()),
            Step::Delete { x } => (x_seq[x].clone(), String::from_str("-")),
            Step::Insert { y } => (String::from_str("-"), y_seq[y].clone()),
        };
        r.push(pair);
        proof {
            reveal_strlit("-");
            assert("-"@ =~= gap_marker());
            assert(steps@.take(k as int + 1).drop_last() =~= steps@.take(k as int));
            assert(steps@.take(k as int + 1).last() == steps@[k as int]);
            assert(pair_views(r@) =~~= render(av, bv, steps@.take(k as int + 1)));
        }
        k = k + 1;
    }
    proof {
        assert(steps@.take(steps@.len() as int) =~= steps@);
    }
    r
}

/// One alignment's outcome: the ordered steps, the materialized aligned
/// token pairs, the optimal score, and the two integer ingredients of
/// the similarity metric.
#[derive(Debug)]
pub struct AlignmentResult {
    pub steps: Vec<Step>,
    pub alignments: Vec<(String, String)>,
    pub alignment_score: i64,
    pub num_correct: usize,
    pub dis_correct: i64,
}

/// The record is exactly what aligning `a` and `b` under model `m` and
/// gap cost `gap` yields: the traceback path, its materialized pairs,
/// the bottom-right matrix value, and the similarity ingredients of the
/// path.
pub open spec fn is_align_result(
    r: AlignmentResult,
    m: ScoreModel,
    gap: int,
    a: Seq<Seq<char>>,
    b: Seq<Seq<char>>,
) -> bool {
    &&& r.steps@ == traceback(m, gap, a, b, a.len() as int, b.len() as int)
    &&& pair_views(r.alignments@) == render(a, b, r.steps@)
    &&& r.alignment_score as int == dp(m, gap, a, b, a.len() as int, b.len() as int)
    &&& r.num_correct as int == spec_num_correct(a, b, r.steps@)
    &&& r.dis_correct as int == spec_dis_correct(m, a, b, r.steps@)
}

/// Align one pair of sequences under an already-built scorer.
pub fn align_with_scorer(
    a: &Vec<String>,
    b: &Vec<String>,
    scorer: &Scorer,
    gap_score: i64,
) -> (r: Result<AlignmentResult, AlignError>)
    requires
        a@.len() <= MAX_SEQ_LEN,
        b@.len() <= MAX_SEQ_LEN,
        scorer@.bounded(MAX_SCORE_MAG as int),
        -MAX_SCORE_MAG <= gap_score <= MAX_SCORE_MAG,
    ensures
        match r {
            Ok(res) => a@.len() > 0 && b@.len() > 0 && is_align_result(
                res,
                scorer@,
                gap_score as int,
                token_views(a@),
                token_views(b@),
            ),
            Err(e) => (a@.len() == 0 || b@.len() == 0) && e == AlignError::InvalidInput,
        },
{
    let mat = match AlignmentMatrix::fill(a, b, scorer, gap_score) {
        Ok(mat) => mat,
        Err(e) => {
            return Err(e);
        },
    };
    let steps = crate::steps::run(&mat, a, b, scorer, gap_score);
    proof {
        lemma_traceback_in_range(
            scorer@,
            gap_score as int,
            token_views(a@),
            token_views(b@),
            a@.len() as int,
            b@.len() as int,
        );
    }
    let alignments = trace(a, b, &steps);
    let alignment_score = mat.at(a.len(), b.len());
    let (num_correct, dis_correct) = similarity_parts(a, b, &steps, scorer);
    Ok(AlignmentResult { steps, alignments, alignment_score, num_correct, dis_correct })
}

/// The scoring model that the caller-facing arguments describe: the
/// supplied table's entries in order (none for an absent table) and the
/// two default scores.
pub open spec fn model_of(
    similarity_matrix: Option<Vec<ScoreEntry>>,
    match_score: i64,
    mismatch_score: i64,
) -> ScoreModel {
    ScoreModel {
        table: match similarity_matrix {
            Some(t) => t@.map_values(|e: ScoreEntry| (e.x@, e.y@, e.score as int)),
            None => Seq::empty(),
        },
        match_score: match_score as int,
        mismatch_score: mismatch_score as int,
    }
}

/// Align two sequences and derive the similarity ingredients. Fails
/// exactly when one of the sequences is empty.
pub fn align(
    a: &Vec<String>,
    b: &Vec<String>,
    match_score: i64,
    mismatch_score: i64,
    gap_score: i64,
    similarity_matrix: Option<Vec<ScoreEntry>>,
) -> (r: Result<AlignmentResult, AlignError>)
    requires
        a@.len() <= MAX_SEQ_LEN,
        b@.len() <= MAX_SEQ_LEN,
        -MAX_SCORE_MAG <= match_score <= MAX_SCORE_MAG,
        -MAX_SCORE_MAG <= mismatch_score <= MAX_SCORE_MAG,
        -MAX_SCORE_MAG <= gap_score <= MAX_SCORE_MAG,
        (match similarity_matrix {
            Some(t) => forall|k: int|
                0 <= k < t@.len() ==> -MAX_SCORE_MAG <= (#[trigger] t@[k]).score <= MAX_SCORE_MAG,
            None => true,
        }),
    ensures
        match r {
            Ok(res) => a@.len() > 0 && b@.len() > 0 && is_align_result(
                res,
                model_of(similarity_matrix, match_score, mismatch_score),
                gap_score as int,
                token_views(a@),
                token_views(b@),
            ),
            Err(e) => (a@.len() == 0 || b@.len() == 0) && e == AlignError::InvalidInput,
        },
{
    let ghost sm = similarity_matrix;
    let table: Vec<ScoreEntry> = match similarity_matrix {
        Some(t) => t,
        None => Vec::new(),
    };
    let scorer = Scorer { table, match_score, mismatch_score };
    proof {
        assert(scorer@.table =~= model_of(sm, match_score, mismatch_score).table);
        assert(scorer@ == model_of(sm, match_score, mismatch_score));
        assert forall|k: int|
            0 <= k < scorer@.table.len() implies -MAX_SCORE_MAG <= (
        #[trigger] scorer@.table[k]).2 <= MAX_SCORE_MAG by {
            if sm is Some {
                assert(scorer@.table[k] == (sm->Some_0@[k].x@, sm->Some_0@[k].y@, sm->Some_0@[k].score as int));
            }
        }
    }
    align_with_scorer(a, b, &scorer, gap_score)
}

/// Determinism: two result records that both satisfy the alignment
/// contract for the same inputs agree on the steps, the rendered pairs,
/// the score and the similarity ingredients.
pub proof fn lemma_align_deterministic(
    r1: AlignmentResult,
    r2: AlignmentResult,
    m: ScoreModel,
    gap: int,
    a: Seq<Seq<char>>,
    b: Seq<Seq<char>>,
)
    requires
        is_align_result(r1, m, gap, a, b),
        is_align_result(r2, m, gap, a, b),
    ensures
        r1.steps@ == r2.steps@,
        pair_views(r1.alignments@) == pair_views(r2.alignments@),
        r1.alignment_score == r2.alignment_score,
        r1.num_correct == r2.num_correct,
        r1.dis_correct == r2.dis_correct,
{
}

} // verus!
